use vstd::prelude::*;

verus! {

// ---------------------------------------------------------------------------
// The adaptive order-3 context model.
//
// The model maps each context (the up-to-3 raw bytes before the current
// position) to 256 Laplace-smoothed counts: every count starts at 1, so any
// symbol always has nonzero probability. Encoder and decoder call `predict`
// and then `update` for every byte with the same context, so their models
// evolve in lockstep.
// ---------------------------------------------------------------------------

/// How many preceding bytes form a context.
pub const MODEL_ORDER: usize = 3;

/// A cap on the number of updates one model may absorb; keeps every count
/// and every total inside `u64`.
pub const MAX_MODEL_UPDATES: u64 = 0x1000_0000_0000_0000;

/// Sum of a count table.
pub open spec fn sum_counts(s: Seq<u64>) -> int
    decreases s.len(),
{
    if s.len() == 0 {
        0
    } else {
        sum_counts(s.drop_last()) + s.last()
    }
}

/// A context of up to three bytes packed into one integer key; the leading
/// 1 keeps contexts of different lengths apart.
pub open spec fn pack_key(ctx: Seq<u8>) -> int
    decreases ctx.len(),
{
    if ctx.len() == 0 {
        1
    } else {
        pack_key(ctx.drop_last()) * 256 + ctx.last()
    }
}

/// The Laplace-smoothed initial table: every count 1.
pub open spec fn init_counts() -> Seq<u64> {
    Seq::new(256, |c: int| 1u64)
}

/// The counts the model holds for a context key.
pub open spec fn model_counts(m: Map<int, Seq<u64>>, key: int) -> Seq<u64> {
    if m.dom().contains(key) {
        m[key]
    } else {
        init_counts()
    }
}

/// The model after one update: the symbol's count for that context grows by
/// one, the entry being created from the initial table if absent.
pub open spec fn model_update(m: Map<int, Seq<u64>>, key: int, sym: u8) -> Map<int, Seq<u64>> {
    let counts = model_counts(m, key);
    m.insert(key, counts.update(sym as int, (counts[sym as int] + 1) as u64))
}

/// One context's stored counts.
struct CtxEntry {
    key: u32,
    counts: Vec<u64>,
}

/// The adaptive model: one entry per context seen so far, plus the number
/// of updates absorbed.
pub struct ContextModel {
    entries: Vec<CtxEntry>,
    trained: u64,
}

/// The map a list of entries stores.
spec fn map_of(entries: Seq<CtxEntry>) -> Map<int, Seq<u64>>
    decreases entries.len(),
{
    if entries.len() == 0 {
        Map::empty()
    } else {
        map_of(entries.drop_last()).insert(entries.last().key as int, entries.last().counts@)
    }
}

impl View for ContextModel {
    type V = Map<int, Seq<u64>>;

    closed spec fn view(&self) -> Map<int, Seq<u64>> {
        map_of(self.entries@)
    }
}

impl ContextModel {
    /// How many updates the model has absorbed.
    pub closed spec fn total_trained(&self) -> int {
        self.trained as int
    }

    /// Well-formedness: distinct keys, 256 positive counts per entry, and
    /// totals bounded by the update budget.
    pub closed spec fn wf(&self) -> bool {
        &&& forall|i: int, j: int|
            0 <= i < j < self.entries@.len() ==> (#[trigger] self.entries@[i]).key
                != (#[trigger] self.entries@[j]).key
        &&& forall|i: int|
            0 <= i < self.entries@.len() ==> (#[trigger] self.entries@[i]).counts@.len() == 256
        &&& forall|i: int, c: int|
            0 <= i < self.entries@.len() && 0 <= c < 256 ==> (#[trigger] self.entries@[i].counts@[
                c]) >= 1
        &&& forall|i: int|
            0 <= i < self.entries@.len() ==> sum_counts((#[trigger] self.entries@[i]).counts@)
                <= 256 + self.trained
        &&& self.trained <= MAX_MODEL_UPDATES
    }

    /// A model that has seen nothing.
    pub open spec fn is_fresh(&self) -> bool {
        self@ == Map::<int, Seq<u64>>::empty() && self.total_trained() == 0
    }

    /// Creates the empty model.
    pub fn new() -> (r: Self)
        ensures
            r.wf(),
            r.is_fresh(),
    {
        let m = ContextModel { entries: Vec::new(), trained: 0 };
        proof {
            assert(m.entries@.len() == 0);
        }
        m
    }
}

/// A stored entry is what the map returns for its key.
proof fn lemma_map_of_index(entries: Seq<CtxEntry>, i: int)
    requires
        0 <= i < entries.len(),
        forall|a: int, b: int|
            0 <= a < b < entries.len() ==> (#[trigger] entries[a]).key != (#[trigger] entries[b]).key,
    ensures
        map_of(entries).dom().contains(entries[i].key as int),
        map_of(entries)[entries[i].key as int] == entries[i].counts@,
    decreases entries.len(),
{
    if i < entries.len() - 1 {
        assert(forall|a: int, b: int|
            0 <= a < b < entries.len() - 1 ==> (#[trigger] entries.drop_last()[a]).key
                != (#[trigger] entries.drop_last()[b]).key);
        lemma_map_of_index(entries.drop_last(), i);
        assert(entries.last().key != entries[i].key);
    }
}

/// Every key in the map belongs to some entry.
proof fn lemma_map_of_dom(entries: Seq<CtxEntry>, key: int)
    requires
        map_of(entries).dom().contains(key),
    ensures
        exists|i: int| 0 <= i < entries.len() && (#[trigger] entries[i]).key == key,
    decreases entries.len(),
{
    if entries.len() > 0 {
        if entries.last().key == key {
            assert(entries[entries.len() - 1].key == key);
        } else {
            lemma_map_of_dom(entries.drop_last(), key);
            let i = choose|i: int|
                0 <= i < entries.len() - 1 && (#[trigger] entries.drop_last()[i]).key == key;
            assert(entries[i].key == key);
        }
    }
}

/// Replacing one entry's counts (same key) updates just that key.
proof fn lemma_map_of_set(entries: Seq<CtxEntry>, i: int, e: CtxEntry)
    requires
        0 <= i < entries.len(),
        e.key == entries[i].key,
        forall|a: int, b: int|
            0 <= a < b < entries.len() ==> (#[trigger] entries[a]).key != (#[trigger] entries[b]).key,
    ensures
        map_of(entries.update(i, e)) == map_of(entries).insert(e.key as int, e.counts@),
    decreases entries.len(),
{
    let upd = entries.update(i, e);
    if i == entries.len() - 1 {
        assert(upd.drop_last() =~= entries.drop_last());
        assert(upd.last() == e);
        assert(map_of(upd) =~= map_of(entries).insert(e.key as int, e.counts@));
    } else {
        assert(upd.drop_last() =~= entries.drop_last().update(i, e));
        assert(upd.last() == entries.last());
        assert(forall|a: int, b: int|
            0 <= a < b < entries.len() - 1 ==> (#[trigger] entries.drop_last()[a]).key
                != (#[trigger] entries.drop_last()[b]).key);
        lemma_map_of_set(entries.drop_last(), i, e);
        assert(entries.last().key != e.key);
        assert(map_of(upd) =~= map_of(entries).insert(e.key as int, e.counts@));
    }
}

/// Prefix sums never exceed the whole sum, and sums of positive counts
/// bound each count.
pub proof fn lemma_sum_counts_take(s: Seq<u64>, k: int)
    requires
        0 <= k <= s.len(),
    ensures
        0 <= sum_counts(s.take(k)) <= sum_counts(s),
    decreases s.len(),
{
    if k == s.len() {
        assert(s.take(k) =~= s);
        lemma_sum_counts_nonneg(s);
    } else {
        assert(s.take(k) =~= s.drop_last().take(k));
        lemma_sum_counts_take(s.drop_last(), k);
    }
}

/// Sums of unsigned counts are not negative.
pub proof fn lemma_sum_counts_nonneg(s: Seq<u64>)
    ensures
        sum_counts(s) >= 0,
    decreases s.len(),
{
    if s.len() > 0 {
        lemma_sum_counts_nonneg(s.drop_last());
    }
}

/// Each count is at most the whole sum.
pub proof fn lemma_sum_counts_element(s: Seq<u64>, c: int)
    requires
        0 <= c < s.len(),
    ensures
        s[c] <= sum_counts(s),
    decreases s.len(),
{
    if c == s.len() - 1 {
        lemma_sum_counts_nonneg(s.drop_last());
    } else {
        lemma_sum_counts_element(s.drop_last(), c);
    }
}

/// The initial table sums to 256.
pub proof fn lemma_init_counts_sum()
    ensures
        sum_counts(init_counts()) == 256,
{
    lemma_rep_sum(256);
    assert(rep_ones(256) =~= init_counts());
}

spec fn rep_ones(n: nat) -> Seq<u64> {
    Seq::new(n, |c: int| 1u64)
}

proof fn lemma_rep_sum(n: nat)
    ensures
        sum_counts(rep_ones(n)) == n,
    decreases n,
{
    if n > 0 {
        assert(rep_ones(n).drop_last() =~= rep_ones((n - 1) as nat));
        lemma_rep_sum((n - 1) as nat);
    }
}

/// Packs an executable context into its key.
pub fn context_key(ctx: &[u8]) -> (r: u32)
    requires
        ctx@.len() <= MODEL_ORDER,
    ensures
        r as int == pack_key(ctx@),
{
    let mut acc: u32 = 1;
    let mut i: usize = 0;
    proof {
        assert(ctx@.take(0) =~= Seq::<u8>::empty());
    }
    while i < ctx.len()
        invariant
            i <= ctx@.len(),
            ctx@.len() <= 3,
            acc as int == pack_key(ctx@.take(i as int)),
        decreases ctx.len() - i,
    {
        proof {
            assert(ctx@.take(i + 1).drop_last() =~= ctx@.take(i as int));
            assert(ctx@.take(i + 1).last() == ctx@[i as int]);
            assert(ctx@.take(i as int).len() <= 2);
            lemma_pack_key_bound(ctx@.take(i as int));
        }
        acc = acc * 256 + (ctx[i] as u32);
        i = i + 1;
    }
    proof {
        assert(ctx@.take(ctx@.len() as int) =~= ctx@);
    }
    acc
}

/// Keys of short contexts are small.
proof fn lemma_pack_key_bound(ctx: Seq<u8>)
    requires
        ctx.len() <= 3,
    ensures
        1 <= pack_key(ctx),
        ctx.len() <= 1 ==> pack_key(ctx) < 0x200,
        ctx.len() <= 2 ==> pack_key(ctx) < 0x2_0000,
        pack_key(ctx) < 0x200_0000,
    decreases ctx.len(),
{
    if ctx.len() > 0 {
        lemma_pack_key_bound(ctx.drop_last());
    }
}

/// Scans the entry list for a context key.
fn find_entry(entries: &Vec<CtxEntry>, key: u32) -> (r: Option<usize>)
    ensures
        r matches Some(at) ==> at < entries@.len() && entries@[at as int].key == key,
        r is None ==> forall|m: int| 0 <= m < entries@.len() ==> (#[trigger] entries@[m]).key
            != key,
{
    let mut i: usize = 0;
    while i < entries.len()
        invariant
            i <= entries@.len(),
            forall|m: int| 0 <= m < i ==> (#[trigger] entries@[m]).key != key,
        decreases entries@.len() - i,
    {
        if entries[i].key == key {
            return Some(i);
        }
        i = i + 1;
    }
    None
}

impl ContextModel {
    /// Looks the context up: its stored counts (the all-ones table for an
    /// unseen context) and their total.
    pub fn predict(&self, context: &[u8]) -> (r: (Vec<u64>, u64))
        requires
            self.wf(),
            context@.len() <= MODEL_ORDER,
        ensures
            r.0@ == model_counts(self@, pack_key(context@)),
            r.0@.len() == 256,
            forall|c: int| 0 <= c < 256 ==> (#[trigger] r.0@[c]) >= 1,
            r.1 as int == sum_counts(r.0@),
            256 <= r.1 <= 256 + self.total_trained(),
    {
        let key = context_key(context);
        let ghost k = pack_key(context@);

        let hit = find_entry(&self.entries, key);
        let found = hit.is_some();
        let at = if let Some(a) = hit { a } else { 0 };

        let mut counts: Vec<u64> = Vec::new();
        if found {
            proof {
                lemma_map_of_index(self.entries@, at as int);
            }
            let stored = &self.entries[at].counts;
            let mut c: usize = 0;
            while c < stored.len()
                invariant
                    c <= stored@.len(),
                    counts@ =~= stored@.take(c as int),
                decreases stored@.len() - c,
            {
                counts.push(stored[c]);
                c = c + 1;
            }
            proof {
                assert(counts@ =~= stored@);
                assert(counts@ == model_counts(self@, k));
            }
        } else {
            proof {
                if self@.dom().contains(k) {
                    lemma_map_of_dom(self.entries@, k);
                    let w = choose|w: int|
                        0 <= w < self.entries@.len() && (#[trigger] self.entries@[w]).key == k;
                    assert(self.entries@[w].key == key);
                    assert(false);
                }
            }
            let mut c: usize = 0;
            while c < 256
                invariant
                    c <= 256,
                    counts@ =~= init_counts().take(c as int),
                decreases 256 - c,
            {
                counts.push(1);
                c = c + 1;
            }
            proof {
                assert(counts@ =~= init_counts());
                assert forall|cc: int| 0 <= cc < 256 implies (#[trigger] counts@[cc]) >= 1 by {
                    assert(counts@[cc] == 1u64);
                }
            }
        }

        // Sum the 256 counts.
        let ghost bound: int = 256 + self.trained;
        proof {
            if found {
                assert(sum_counts(counts@) <= bound);
            } else {
                lemma_init_counts_sum();
            }
            lemma_sum_counts_nonneg(counts@);
        }
        let mut total: u64 = 0;
        let mut c2: usize = 0;
        proof {
            assert(counts@.take(0) =~= Seq::<u64>::empty());
        }
        while c2 < 256
            invariant
                c2 <= 256,
                counts@.len() == 256,
                total as int == sum_counts(counts@.take(c2 as int)),
                sum_counts(counts@) <= bound,
                bound <= 256 + MAX_MODEL_UPDATES,
            decreases 256 - c2,
        {
            proof {
                assert(counts@.take(c2 + 1).drop_last() =~= counts@.take(c2 as int));
                assert(counts@.take(c2 + 1).last() == counts@[c2 as int]);
                lemma_sum_counts_take(counts@, c2 + 1);
            }
            total = total + counts[c2];
            c2 = c2 + 1;
        }
        proof {
            assert(counts@.take(256) =~= counts@);
            if found {
                lemma_sum_counts_ge_len(counts@);
            } else {
                lemma_init_counts_sum();
            }
        }
        (counts, total)
    }

    /// Records one occurrence of `symbol` in `context`, creating the entry
    /// from the all-ones table if the context is new.
    pub fn update(&mut self, context: &[u8], symbol: u8)
        requires
            old(self).wf(),
            context@.len() <= MODEL_ORDER,
            old(self).total_trained() < MAX_MODEL_UPDATES,
        ensures
            final(self).wf(),
            final(self)@ == model_update(old(self)@, pack_key(context@), symbol),
            final(self).total_trained() == old(self).total_trained() + 1,
    {
        let key = context_key(context);
        let ghost k = pack_key(context@);
        let ghost old_entries = self.entries@;
        let ghost old_trained = self.trained;

        let hit = find_entry(&self.entries, key);
        let found = hit.is_some();
        let at = if let Some(a) = hit { a } else { 0 };

        if found {
            proof {
                lemma_map_of_index(old_entries, at as int);
                lemma_sum_counts_element(old_entries[at as int].counts@, symbol as int);
            }
            let mut e = self.entries.remove(at);
            let cur = e.counts[symbol as usize];
            let ghost old_counts = e.counts@;
            e.counts.set(symbol as usize, cur + 1);
            proof {
                lemma_sum_counts_update(old_counts, symbol as int);
            }
            self.entries.insert(at, e);
            self.trained = self.trained + 1;
            proof {
                assert(self.entries@ =~= old_entries.update(
                    at as int,
                    CtxEntry { key, counts: self.entries@[at as int].counts },
                ));
                lemma_map_of_set(
                    old_entries,
                    at as int,
                    self.entries@[at as int],
                );
                assert(self@ =~= model_update(map_of(old_entries), k, symbol));
            }
        } else {
            proof {
                if map_of(old_entries).dom().contains(k) {
                    lemma_map_of_dom(old_entries, k);
                    let w = choose|w: int|
                        0 <= w < old_entries.len() && (#[trigger] old_entries[w]).key == k;
                    assert(old_entries[w].key == key);
                    assert(false);
                }
            }
            let mut counts: Vec<u64> = Vec::new();
            let mut c: usize = 0;
            while c < 256
                invariant
                    c <= 256,
                    counts@ =~= init_counts().take(c as int),
                decreases 256 - c,
            {
                counts.push(1);
                c = c + 1;
            }
            proof {
                assert(counts@ =~= init_counts());
            }
            let ghost ones = counts@;
            counts.set(symbol as usize, 2);
            proof {
                lemma_init_counts_sum();
                lemma_sum_counts_update(ones, symbol as int);
            }
            self.entries.push(CtxEntry { key, counts });
            self.trained = self.trained + 1;
            proof {
                assert(self.entries@.drop_last() =~= old_entries);
                assert(self@ =~= model_update(map_of(old_entries), k, symbol));
                assert(self.entries@[self.entries@.len() - 1].counts@ =~= init_counts().update(
                    symbol as int,
                    2u64,
                ));
            }
        }
    }
}

/// Incrementing one count raises the sum by one.
pub proof fn lemma_sum_counts_update(s: Seq<u64>, c: int)
    requires
        0 <= c < s.len(),
        s[c] < 0xFFFF_FFFF_FFFF_FFFF,
    ensures
        sum_counts(s.update(c, (s[c] + 1) as u64)) == sum_counts(s) + 1,
    decreases s.len(),
{
    let upd = s.update(c, (s[c] + 1) as u64);
    if c == s.len() - 1 {
        assert(upd.drop_last() =~= s.drop_last());
    } else {
        assert(upd.drop_last() =~= s.drop_last().update(c, (s[c] + 1) as u64));
        assert(upd.last() == s.last());
        lemma_sum_counts_update(s.drop_last(), c);
    }
}

/// A table of positive counts sums to at least its length.
pub proof fn lemma_sum_counts_ge_len(s: Seq<u64>)
    requires
        forall|c: int| 0 <= c < s.len() ==> (#[trigger] s[c]) >= 1,
    ensures
        sum_counts(s) >= s.len(),
    decreases s.len(),
{
    if s.len() > 0 {
        lemma_sum_counts_ge_len(s.drop_last());
    }
}

/// Spec-level well-formedness of a raw model map after `t` updates: every
/// stored table has 256 positive counts summing to at most `256 + t`.
pub open spec fn map_wf(m: Map<int, Seq<u64>>, t: int) -> bool {
    &&& forall|k: int| m.dom().contains(k) ==> (#[trigger] m[k]).len() == 256
    &&& forall|k: int, c: int|
        m.dom().contains(k) && 0 <= c < 256 ==> (#[trigger] m[k][c]) >= 1
    &&& forall|k: int| m.dom().contains(k) ==> sum_counts(#[trigger] m[k]) <= 256 + t
}

/// What a lookup into a well-formed map satisfies.
pub proof fn lemma_model_counts_wf(m: Map<int, Seq<u64>>, key: int, t: int)
    requires
        map_wf(m, t),
        t >= 0,
    ensures
        model_counts(m, key).len() == 256,
        forall|c: int| 0 <= c < 256 ==> (#[trigger] model_counts(m, key)[c]) >= 1,
        256 <= sum_counts(model_counts(m, key)) <= 256 + t,
{
    if m.dom().contains(key) {
        lemma_sum_counts_ge_len(m[key]);
    } else {
        lemma_init_counts_sum();
        assert forall|c: int| 0 <= c < 256 implies (#[trigger] model_counts(m, key)[c])
            >= 1 by {
            assert(model_counts(m, key)[c] == 1u64);
        }
    }
}

/// An update preserves spec-level well-formedness with one more unit of
/// budget.
pub proof fn lemma_model_update_wf(m: Map<int, Seq<u64>>, key: int, sym: u8, t: int)
    requires
        map_wf(m, t),
        0 <= t <= MAX_MODEL_UPDATES,
    ensures
        map_wf(model_update(m, key, sym), t + 1),
{
    let counts = model_counts(m, key);
    lemma_model_counts_wf(m, key, t);
    lemma_sum_counts_element(counts, sym as int);
    let upd = counts.update(sym as int, (counts[sym as int] + 1) as u64);
    lemma_sum_counts_update(counts, sym as int);
    let m2 = model_update(m, key, sym);
    assert forall|k: int, c: int|
        m2.dom().contains(k) && 0 <= c < 256 implies (#[trigger] m2[k][c]) >= 1 by {
        if k == key {
            assert(m2[k] == upd);
        }
    }
    assert forall|k: int|
        m2.dom().contains(k) implies sum_counts(#[trigger] m2[k]) <= 256 + t + 1 by {
        if k == key {
            assert(m2[k] == upd);
        }
    }
}

} // verus!
