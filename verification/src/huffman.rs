use vstd::prelude::*;
use crate::error::CodecError;
use crate::error::view_bytes_result;
use crate::bwt::count_occ;
use crate::bwt::count_lt;
use crate::bwt::lemma_count_bounds;
use crate::bwt::lemma_count_lt_zero;
use crate::bwt::lemma_count_lt_all;
use crate::bwt::lemma_count_lt_split;
use crate::bits::is_bit_seq;
use crate::bits::pack_with_pad;
use crate::bits::pack_bytes;
use crate::bits::bits_val;
use crate::bits::unpack_bits;
use crate::bits::bit_of;
use crate::bits::lemma_pack_append;
use crate::bits::lemma_bits_val_bound;
use crate::bits::pow2_u8;
use crate::bits::copy_bytes;
use crate::bits::bytes_equal;
use vstd::arithmetic::power2::pow2;
use vstd::arithmetic::power2::lemma2_to64;
use vstd::arithmetic::power2::lemma_pow2_adds;
use vstd::arithmetic::power2::lemma_pow2_pos;
use vstd::arithmetic::div_mod::lemma_div_denominator;
use vstd::arithmetic::div_mod::lemma_mod_multiples_vanish;
use vstd::arithmetic::div_mod::lemma_fundamental_div_mod_converse;
use vstd::arithmetic::div_mod::lemma_div_multiples_vanish;
use crate::bits::pad_len;

verus! {

// ---------------------------------------------------------------------------
// Huffman coding.
//
// A frequency table over the bytes of one block determines a prefix-code
// tree; the same table is stored in the archive, so the decoder rebuilds the
// identical tree. Ties between equal frequencies are broken deterministically:
// the node created earliest wins, and leaves are created in ascending byte
// order.
// ---------------------------------------------------------------------------

/// The largest total occurrence count a frequency table may carry; keeps
/// every frequency sum computed while merging tree nodes inside `u64`.
pub const MAX_SYMBOL_TOTAL: u64 = 0x1000_0000_0000_0000;

/// Sum of the stored counts.
pub open spec fn tbl_total(entries: Seq<(u8, u64)>) -> int
    decreases entries.len(),
{
    if entries.len() == 0 {
        0
    } else {
        tbl_total(entries.drop_last()) + entries.last().1
    }
}

/// The (symbol, count) entries for the bytes `lo..256`, ascending, one entry
/// per byte that occurs in `l`.
pub open spec fn freq_entries(l: Seq<u8>, lo: int) -> Seq<(u8, u64)>
    decreases 256 - lo,
{
    if lo < 0 || lo >= 256 {
        Seq::empty()
    } else {
        let head: Seq<(u8, u64)> = if count_occ(l, lo as u8) > 0 {
            seq![(lo as u8, count_occ(l, lo as u8) as u64)]
        } else {
            Seq::empty()
        };
        head + freq_entries(l, lo + 1)
    }
}

/// The frequency table of `l`: one entry per distinct byte, in ascending
/// byte order, carrying its occurrence count.
pub open spec fn freq_table_spec(l: Seq<u8>) -> Seq<(u8, u64)> {
    freq_entries(l, 0)
}

/// A frequency table: entries strictly ascending by symbol, every count at
/// least one, and a bounded total.
pub struct FreqTable {
    pub entries: Vec<(u8, u64)>,
}

impl FreqTable {
    /// Well-formedness: strictly ascending symbols, positive counts, total
    /// small enough that no frequency sum can overflow.
    pub open spec fn wf(&self) -> bool {
        &&& forall|i: int, j: int|
            0 <= i < j < self.entries@.len() ==> (#[trigger] self.entries@[i]).0
                < (#[trigger] self.entries@[j]).0
        &&& forall|i: int| 0 <= i < self.entries@.len() ==> (#[trigger] self.entries@[i]).1 >= 1
        &&& tbl_total(self.entries@) <= MAX_SYMBOL_TOTAL
    }
}

/// Totals add across concatenation.
proof fn lemma_tbl_total_append(a: Seq<(u8, u64)>, b: Seq<(u8, u64)>)
    ensures
        tbl_total(a + b) == tbl_total(a) + tbl_total(b),
    decreases b.len(),
{
    if b.len() == 0 {
        assert(a + b =~= a);
    } else {
        assert((a + b).drop_last() =~= a + b.drop_last());
        lemma_tbl_total_append(a, b.drop_last());
    }
}

/// The table's total for bytes `lo..256` counts exactly the occurrences of
/// those bytes.
proof fn lemma_freq_entries_total(l: Seq<u8>, lo: int)
    requires
        0 <= lo <= 256,
        l.len() <= 0xFFFF_FFFF_FFFF_FFFF,
    ensures
        tbl_total(freq_entries(l, lo)) == count_lt(l, 256) - count_lt(l, lo),
    decreases 256 - lo,
{
    if lo == 256 {
    } else {
        lemma_freq_entries_total(l, lo + 1);
        lemma_count_lt_split(l, lo as u8);
        let head: Seq<(u8, u64)> = if count_occ(l, lo as u8) > 0 {
            seq![(lo as u8, count_occ(l, lo as u8) as u64)]
        } else {
            Seq::empty()
        };
        lemma_count_bounds(l, lo as u8, lo);
        lemma_tbl_total_append(head, freq_entries(l, lo + 1));
        assert(freq_entries(l, lo) == head + freq_entries(l, lo + 1));
        if count_occ(l, lo as u8) > 0 {
            assert(head.len() == 1);
            assert(head.drop_last() =~= Seq::<(u8, u64)>::empty());
            assert(tbl_total(head.drop_last()) == 0);
            assert(head.last().1 == count_occ(l, lo as u8) as u64);
            assert(tbl_total(head) == tbl_total(head.drop_last()) + head.last().1);
            assert(tbl_total(head) == count_occ(l, lo as u8));
        } else {
            assert(tbl_total(head) == 0);
        }
        assert(count_lt(l, lo + 1) == count_lt(l, lo) + count_occ(l, lo as u8));
    }
}

/// The whole table's total is the input length.
pub proof fn lemma_freq_table_total(l: Seq<u8>)
    requires
        l.len() <= 0xFFFF_FFFF_FFFF_FFFF,
    ensures
        tbl_total(freq_table_spec(l)) == l.len(),
{
    lemma_freq_entries_total(l, 0);
    lemma_count_lt_zero(l);
    lemma_count_lt_all(l);
}

/// Builds the frequency table of `data`: one entry per distinct byte in
/// ascending order, carrying its occurrence count.
pub fn build_frequency_table(data: &[u8]) -> (r: FreqTable)
    requires
        data@.len() <= MAX_SYMBOL_TOTAL,
    ensures
        r.wf(),
        r.entries@ == freq_table_spec(data@),
        r.entries@.len() == 0 <==> data@.len() == 0,
{
    let ghost l = data@;
    let mut hist: Vec<usize> = Vec::new();
    let mut b: usize = 0;
    while b < 256
        invariant
            b <= 256,
            hist@.len() == b,
            forall|c: int| 0 <= c < b ==> hist@[c] == 0,
        decreases 256 - b,
    {
        hist.push(0);
        b = b + 1;
    }
    let mut i: usize = 0;
    proof {
        assert forall|c: u8| #[trigger] count_occ(l.take(0), c) == 0 by {
            assert(l.take(0) =~= Seq::<u8>::empty());
        }
    }
    while i < data.len()
        invariant
            i <= data.len(),
            l == data@,
            hist@.len() == 256,
            forall|c: u8| hist@[c as int] == count_occ(l.take(i as int), c),
        decreases data.len() - i,
    {
        let c = data[i] as usize;
        proof {
            lemma_count_bounds(l.take(i as int), l[i as int], 0);
        }
        let h = hist[c];
        hist.set(c, h + 1);
        i = i + 1;
        proof {
            assert(l.take(i as int).drop_last() =~= l.take(i - 1));
            assert(l.take(i as int).last() == l[i - 1]);
            assert forall|c2: u8| hist@[c2 as int] == count_occ(l.take(i as int), c2) by {
                assert(count_occ(l.take(i as int), c2) == count_occ(l.take(i - 1), c2)
                    + if l[i - 1] == c2 { 1int } else { 0int });
            }
        }
    }
    proof {
        assert(l.take(data.len() as int) =~= l);
    }

    let mut entries: Vec<(u8, u64)> = Vec::new();
    let mut b2: usize = 0;
    proof {
        assert(Seq::<(u8, u64)>::empty() + freq_entries(l, 0) =~= freq_entries(l, 0));
    }
    while b2 < 256
        invariant
            b2 <= 256,
            l == data@,
            hist@.len() == 256,
            forall|c: u8| hist@[c as int] == count_occ(l, c),
            freq_table_spec(l) == entries@ + freq_entries(l, b2 as int),
            forall|k: int| 0 <= k < entries@.len() ==> (#[trigger] entries@[k]).0 < b2,
            forall|i2: int, j2: int|
                0 <= i2 < j2 < entries@.len() ==> (#[trigger] entries@[i2]).0
                    < (#[trigger] entries@[j2]).0,
            forall|k: int| 0 <= k < entries@.len() ==> (#[trigger] entries@[k]).1 >= 1,
        decreases 256 - b2,
    {
        let h = hist[b2];
        if h > 0 {
            proof {
                lemma_count_bounds(l, b2 as u8, 0);
            }
            entries.push((b2 as u8, h as u64));
            proof {
                assert(entries@.drop_last() + (seq![(b2 as u8, count_occ(l, b2 as u8) as u64)]
                    + freq_entries(l, b2 + 1)) =~= entries@ + freq_entries(l, b2 + 1));
            }
        } else {
            proof {
                assert(freq_entries(l, b2 as int) =~= Seq::<(u8, u64)>::empty() + freq_entries(
                    l,
                    b2 + 1,
                ));
                assert(freq_entries(l, b2 as int) =~= freq_entries(l, b2 + 1));
            }
        }
        b2 = b2 + 1;
    }
    proof {
        assert(entries@ + freq_entries(l, 256) =~= entries@);
        lemma_freq_table_total(l);
        if l.len() == 0 {
            assert(tbl_total(entries@) == 0);
            if entries@.len() > 0 {
                assert(entries@[entries@.len() - 1].1 >= 1);
                lemma_tbl_total_nonneg(entries@.drop_last());
                assert(false);
            }
        } else {
            if entries@.len() == 0 {
                assert(tbl_total(entries@) == 0);
                assert(false);
            }
        }
    }
    FreqTable { entries }
}

/// A prefix of the table never exceeds the whole table's total.
pub proof fn lemma_tbl_total_take_le(entries: Seq<(u8, u64)>, k: int)
    requires
        0 <= k <= entries.len(),
    ensures
        tbl_total(entries.take(k)) <= tbl_total(entries),
    decreases entries.len(),
{
    if k == entries.len() {
        assert(entries.take(k) =~= entries);
    } else {
        assert(entries.take(k) =~= entries.drop_last().take(k));
        lemma_tbl_total_take_le(entries.drop_last(), k);
    }
}

/// Totals are never negative.
pub proof fn lemma_tbl_total_nonneg(entries: Seq<(u8, u64)>)
    ensures
        tbl_total(entries) >= 0,
    decreases entries.len(),
{
    if entries.len() > 0 {
        lemma_tbl_total_nonneg(entries.drop_last());
    }
}

// --------------------------- the Huffman tree ------------------------------

/// A node of the prefix-code tree: either a leaf carrying one byte value or
/// an internal node owning two children; `frequency` is the total count of
/// the leaves below it.
pub struct Node {
    pub frequency: u64,
    pub character: Option<u8>,
    pub left: Option<Box<Node>>,
    pub right: Option<Box<Node>>,
}

/// A leaf for symbol `b` with count `f`.
pub open spec fn mk_leaf(b: u8, f: u64) -> Node {
    Node { frequency: f, character: Some(b), left: None, right: None }
}

/// The merge of two subtrees; the first argument becomes the left child.
pub open spec fn mk_internal(a: Node, b: Node) -> Node {
    Node {
        frequency: (a.frequency + b.frequency) as u64,
        character: None,
        left: Some(Box::new(a)),
        right: Some(Box::new(b)),
    }
}

/// Structural well-formedness: every node is either a leaf or has exactly
/// two well-formed children whose frequencies sum to its own.
pub open spec fn wf_tree(t: Node) -> bool
    decreases t,
{
    match (t.character, t.left, t.right) {
        (Some(_), None, None) => true,
        (None, Some(l), Some(r)) => wf_tree(*l) && wf_tree(*r) && t.frequency == (*l).frequency
            + (*r).frequency,
        _ => false,
    }
}

/// One leaf per table entry, in table order.
pub open spec fn leaves_of(entries: Seq<(u8, u64)>) -> Seq<Node> {
    entries.map_values(|e: (u8, u64)| mk_leaf(e.0, e.1))
}

/// The first position holding a minimal frequency: the tie-break that makes
/// tree construction deterministic.
pub open spec fn min_idx(ws: Seq<Node>) -> int
    decreases ws.len(),
{
    if ws.len() <= 1 {
        0
    } else {
        let m1 = 1 + min_idx(ws.skip(1));
        if ws[0].frequency <= ws[m1].frequency {
            0
        } else {
            m1
        }
    }
}

/// Extracts the two lowest-frequency nodes (earliest first on ties) and
/// replaces them by their merge, appended at the end of the worklist.
pub open spec fn merge_once(ws: Seq<Node>) -> Seq<Node>
    recommends
        ws.len() >= 2,
{
    let i = min_idx(ws);
    let a = ws[i];
    let ws1 = ws.remove(i);
    let j = min_idx(ws1);
    let b = ws1[j];
    ws1.remove(j).push(mk_internal(a, b))
}

/// Merging until a single node remains.
pub open spec fn build_tree_rec(ws: Seq<Node>) -> Node
    recommends
        ws.len() >= 1,
    decreases ws.len(),
    when ws.len() >= 1
    via build_tree_rec_dec
{
    if ws.len() == 1 {
        ws[0]
    } else {
        build_tree_rec(merge_once(ws))
    }
}

#[via_fn]
proof fn build_tree_rec_dec(ws: Seq<Node>) {
    if ws.len() > 1 {
        lemma_min_idx_range(ws);
        lemma_min_idx_range(ws.remove(min_idx(ws)));
    }
}

/// The tree a well-formed, non-empty frequency table determines.
pub open spec fn huffman_tree_spec(entries: Seq<(u8, u64)>) -> Node {
    build_tree_rec(leaves_of(entries))
}

/// Sum of the root frequencies of a worklist.
pub open spec fn sum_freqs(ws: Seq<Node>) -> int
    decreases ws.len(),
{
    if ws.len() == 0 {
        0
    } else {
        sum_freqs(ws.drop_last()) + ws.last().frequency
    }
}

/// `min_idx` is in range, minimal, and the first minimum.
proof fn lemma_min_idx_range(ws: Seq<Node>)
    requires
        ws.len() >= 1,
    ensures
        0 <= min_idx(ws) < ws.len(),
        forall|k: int|
            0 <= k < ws.len() ==> ws[min_idx(ws)].frequency <= (#[trigger] ws[k]).frequency,
        forall|k: int|
            0 <= k < min_idx(ws) ==> (#[trigger] ws[k]).frequency > ws[min_idx(ws)].frequency,
    decreases ws.len(),
{
    if ws.len() > 1 {
        lemma_min_idx_range(ws.skip(1));
        let m1 = 1 + min_idx(ws.skip(1));
        assert(forall|k: int| 0 <= k < ws.len() - 1 ==> #[trigger] ws.skip(1)[k] == ws[k + 1]);
        assert forall|k: int|
            0 <= k < ws.len() implies ws[min_idx(ws)].frequency <= (#[trigger] ws[k]).frequency by {
            if k > 0 {
                assert(ws.skip(1)[k - 1] == ws[k]);
            }
        }
        assert forall|k: int|
            0 <= k < min_idx(ws) implies (#[trigger] ws[k]).frequency
                > ws[min_idx(ws)].frequency by {
            if k > 0 {
                assert(ws.skip(1)[k - 1] == ws[k]);
            }
        }
    }
}

/// Removing an element takes exactly its frequency out of the sum.
proof fn lemma_sum_remove(ws: Seq<Node>, i: int)
    requires
        0 <= i < ws.len(),
    ensures
        sum_freqs(ws.remove(i)) == sum_freqs(ws) - ws[i].frequency,
    decreases ws.len(),
{
    if i == ws.len() - 1 {
        assert(ws.remove(i) =~= ws.drop_last());
    } else {
        assert(ws.remove(i).drop_last() =~= ws.drop_last().remove(i));
        assert(ws.remove(i).last() == ws.last());
        lemma_sum_remove(ws.drop_last(), i);
    }
}

/// Sums of unsigned frequencies are not negative.
proof fn lemma_sum_nonneg(ws: Seq<Node>)
    ensures
        sum_freqs(ws) >= 0,
    decreases ws.len(),
{
    if ws.len() > 0 {
        lemma_sum_nonneg(ws.drop_last());
    }
}

/// The leaf worklist of a table carries the table's total.
proof fn lemma_leaves_sum(entries: Seq<(u8, u64)>)
    ensures
        sum_freqs(leaves_of(entries)) == tbl_total(entries),
    decreases entries.len(),
{
    if entries.len() > 0 {
        assert(leaves_of(entries).drop_last() =~= leaves_of(entries.drop_last()));
        lemma_leaves_sum(entries.drop_last());
    }
}

/// Finds the first position of a minimal frequency in the worklist.
fn find_min_node(ws: &Vec<Node>) -> (r: usize)
    requires
        ws@.len() >= 1,
    ensures
        r == min_idx(ws@),
{
    let mut best: usize = 0;
    let mut m: usize = 1;
    while m < ws.len()
        invariant
            1 <= m <= ws@.len(),
            best < m,
            forall|k: int| 0 <= k < m ==> ws@[best as int].frequency <= (#[trigger] ws@[k]).frequency,
            forall|k: int| 0 <= k < best ==> (#[trigger] ws@[k]).frequency > ws@[best as int].frequency,
        decreases ws@.len() - m,
    {
        if ws[m].frequency < ws[best].frequency {
            best = m;
        }
        m = m + 1;
    }
    proof {
        lemma_min_idx_range(ws@);
        let mi = min_idx(ws@);
        if mi < best {
            assert(ws@[mi].frequency > ws@[best as int].frequency);
            assert(ws@[best as int].frequency <= ws@[mi].frequency);
            assert(false);
        }
        if best < mi {
            assert(ws@[best as int].frequency > ws@[mi].frequency);
            assert(false);
        }
    }
    best
}

/// Builds the prefix-code tree of a frequency table by repeatedly merging
/// the two lowest-frequency nodes; `None` exactly for the empty table.
pub fn build_huffman_tree(freq: &FreqTable) -> (r: Option<Box<Node>>)
    requires
        freq.wf(),
    ensures
        (r is None) <==> freq.entries@.len() == 0,
        freq.entries@.len() > 0 ==> (r matches Some(t) && *t == huffman_tree_spec(
            freq.entries@,
        ) && wf_tree(*t)),
{
    let ghost entries = freq.entries@;
    let n = freq.entries.len();
    if n == 0 {
        return None;
    }
    let mut ws: Vec<Node> = Vec::new();
    let mut k: usize = 0;
    while k < n
        invariant
            k <= n,
            n == freq.entries@.len(),
            entries == freq.entries@,
            ws@.len() == k,
            forall|m: int| 0 <= m < k ==> ws@[m] == mk_leaf(
                (#[trigger] entries[m]).0,
                entries[m].1,
            ),
        decreases n - k,
    {
        let e = freq.entries[k];
        ws.push(Node { frequency: e.1, character: Some(e.0), left: None, right: None });
        k = k + 1;
    }
    proof {
        assert(ws@ =~= leaves_of(entries));
        lemma_leaves_sum(entries);
        assert forall|m: int| 0 <= m < ws@.len() implies wf_tree(#[trigger] ws@[m]) by {
            assert(ws@[m] == mk_leaf(entries[m].0, entries[m].1));
        }
    }
    let ghost total = sum_freqs(ws@);

    while ws.len() > 1
        invariant
            ws@.len() >= 1,
            sum_freqs(ws@) == total,
            total <= MAX_SYMBOL_TOTAL,
            forall|m: int| 0 <= m < ws@.len() ==> wf_tree(#[trigger] ws@[m]),
            build_tree_rec(ws@) == build_tree_rec(leaves_of(entries)),
        decreases ws@.len(),
    {
        let ghost ws0 = ws@;
        let i = find_min_node(&ws);
        proof {
            lemma_min_idx_range(ws0);
        }
        let a = ws.remove(i);
        proof {
            lemma_sum_remove(ws0, i as int);
        }
        let ghost ws1 = ws@;
        let j = find_min_node(&ws);
        proof {
            lemma_min_idx_range(ws1);
        }
        let b = ws.remove(j);
        proof {
            lemma_sum_remove(ws1, j as int);
            lemma_sum_nonneg(ws@);
            assert(a.frequency + b.frequency <= total);
        }
        let merged = Node {
            frequency: a.frequency + b.frequency,
            character: None,
            left: Some(Box::new(a)),
            right: Some(Box::new(b)),
        };
        proof {
            assert(wf_tree(merged));
        }
        ws.push(merged);
        proof {
            assert(ws@.drop_last() =~= ws1.remove(j as int));
            assert(ws@ =~= merge_once(ws0));
            assert(sum_freqs(ws@) == total);
            assert forall|m: int| 0 <= m < ws@.len() implies wf_tree(#[trigger] ws@[m]) by {
                if m < ws@.len() - 1 {
                    assert(ws@[m] == ws1.remove(j as int)[m]);
                }
            }
            assert(build_tree_rec(ws0) == build_tree_rec(merge_once(ws0)));
        }
    }
    let root = ws.remove(0);
    proof {
        assert(root == build_tree_rec(leaves_of(entries)));
    }
    Some(Box::new(root))
}

// --------------------------- code tables -----------------------------------

/// The codes of a subtree with one bit prepended to each.
pub open spec fn prefixed(m: Map<u8, Seq<u8>>, bit: u8) -> Map<u8, Seq<u8>> {
    Map::new(|b: u8| m.dom().contains(b), |b: u8| seq![bit] + m[b])
}

/// The code of every leaf below `t`, as the path to it: 0 for a left edge,
/// 1 for a right edge. A leaf's own code is the empty path.
pub open spec fn tree_codes(t: Node) -> Map<u8, Seq<u8>>
    decreases t,
{
    match (t.character, t.left, t.right) {
        (Some(c), _, _) => Map::empty().insert(c, Seq::empty()),
        (None, Some(l), Some(r)) => prefixed(tree_codes(*l), 0).union_prefer_right(
            prefixed(tree_codes(*r), 1),
        ),
        _ => Map::empty(),
    }
}

/// The code table of a whole tree. A tree that is a single leaf gets the
/// one-bit code `0` rather than the empty path, so that every symbol costs
/// at least one bit.
pub open spec fn code_table_spec(t: Node) -> Map<u8, Seq<u8>> {
    match t.character {
        Some(c) => Map::empty().insert(c, seq![0u8]),
        None => tree_codes(t),
    }
}

/// A byte-indexed code table: entry `b` holds the code of byte `b`, and an
/// empty entry means the byte has no code.
pub struct CodeTable {
    pub codes: Vec<Vec<u8>>,
}

impl View for CodeTable {
    type V = Seq<Seq<u8>>;

    open spec fn view(&self) -> Seq<Seq<u8>> {
        Seq::new(256, |b: int| self.codes@[b]@)
    }
}

impl CodeTable {
    /// One entry per byte value, each a bit string.
    pub open spec fn wf(&self) -> bool {
        self.codes@.len() == 256 && forall|b: int| 0 <= b < 256 ==> is_bit_seq(#[trigger] self@[b])
    }
}

/// The 256-entry table a code map determines: map entries verbatim, empty
/// everywhere else.
pub open spec fn ctv_of_map(m: Map<u8, Seq<u8>>) -> Seq<Seq<u8>> {
    Seq::new(
        256,
        |b: int|
            if m.dom().contains(b as u8) {
                m[b as u8]
            } else {
                Seq::<u8>::empty()
            },
    )
}

/// The table stores exactly the given code map: map entries verbatim, empty
/// everywhere else.
pub open spec fn matches_tree(ctv: Seq<Seq<u8>>, m: Map<u8, Seq<u8>>) -> bool {
    forall|b: u8|
        #[trigger] ctv[b as int] == if m.dom().contains(b) {
            m[b]
        } else {
            Seq::<u8>::empty()
        }
}

/// Every code a well-formed tree assigns is a bit string.
proof fn lemma_tree_codes_bits(t: Node)
    requires
        wf_tree(t),
    ensures
        forall|b: u8|
            tree_codes(t).dom().contains(b) ==> is_bit_seq(#[trigger] tree_codes(t)[b]),
    decreases t,
{
    match (t.character, t.left, t.right) {
        (None, Some(l), Some(r)) => {
            lemma_tree_codes_bits(*l);
            lemma_tree_codes_bits(*r);
            assert forall|b: u8|
                tree_codes(t).dom().contains(b) implies is_bit_seq(
                #[trigger] tree_codes(t)[b],
            ) by {
                if prefixed(tree_codes(*r), 1).dom().contains(b) {
                    assert(tree_codes(t)[b] == seq![1u8] + tree_codes(*r)[b]);
                } else {
                    assert(tree_codes(t)[b] == seq![0u8] + tree_codes(*l)[b]);
                }
            }
        },
        _ => {},
    }
}

/// Writes `prefix ++ code(b)` into the table for every leaf `b` below
/// `node`, leaving every other entry alone.
fn fill_codes(node: &Node, prefix: Vec<u8>, codes: &mut Vec<Vec<u8>>)
    requires
        wf_tree(*node),
        old(codes)@.len() == 256,
    ensures
        final(codes)@.len() == 256,
        forall|b: u8|
            tree_codes(*node).dom().contains(b) ==> (#[trigger] final(codes)@[b as int])@
                == prefix@ + tree_codes(*node)[b],
        forall|b: u8|
            !tree_codes(*node).dom().contains(b) ==> final(codes)@[b as int] == old(
                codes,
            )@[b as int],
    decreases *node,
{
    if let Some(c) = node.character {
        let ghost p = prefix@;
        codes.set(c as usize, prefix);
        proof {
            assert forall|b: u8|
                tree_codes(*node).dom().contains(b) implies (#[trigger] codes@[b as int])@ == p
                + tree_codes(*node)[b] by {
                assert(b == c);
                assert(p + Seq::<u8>::empty() =~= p);
            }
        }
    } else {
        match (&node.left, &node.right) {
            (Some(l), Some(r)) => {
                let ghost mid = codes@;
                let mut p0 = copy_bytes(&prefix);
                p0.push(0);
                fill_codes(&**l, p0, codes);
                let ghost after_l = codes@;
                let mut p1 = prefix;
                let ghost p = p1@;
                p1.push(1);
                fill_codes(&**r, p1, codes);
                proof {
                    let lc = tree_codes(**l);
                    let rc = tree_codes(**r);
                    let m = tree_codes(*node);
                    assert forall|b: u8|
                        m.dom().contains(b) implies (#[trigger] codes@[b as int])@ == p + m[b] by {
                        if rc.dom().contains(b) {
                            assert(m[b] == seq![1u8] + rc[b]);
                            assert((p + seq![1u8]) + rc[b] =~= p + (seq![1u8] + rc[b]));
                        } else {
                            assert(lc.dom().contains(b));
                            assert(m[b] == seq![0u8] + lc[b]);
                            assert(codes@[b as int] == after_l[b as int]);
                            assert((p + seq![0u8]) + lc[b] =~= p + (seq![0u8] + lc[b]));
                        }
                    }
                }
            },
            _ => {
                proof {
                    assert(false);
                }
            },
        }
    }
}

/// Derives the byte-to-code table of a well-formed tree by walking it depth
/// first; a single-leaf tree yields the one-bit code `0` for its symbol.
pub fn generate_huffman_codes(root: &Node) -> (r: CodeTable)
    requires
        wf_tree(*root),
    ensures
        r.wf(),
        matches_tree(r@, code_table_spec(*root)),
{
    let mut codes: Vec<Vec<u8>> = Vec::new();
    let mut b: usize = 0;
    while b < 256
        invariant
            b <= 256,
            codes@.len() == b,
            forall|m: int| 0 <= m < b ==> (#[trigger] codes@[m])@ == Seq::<u8>::empty(),
        decreases 256 - b,
    {
        codes.push(Vec::new());
        b = b + 1;
    }
    let table = if let Some(c) = root.character {
        let mut code: Vec<u8> = Vec::new();
        code.push(0);
        codes.set(c as usize, code);
        CodeTable { codes }
    } else {
        fill_codes(root, Vec::new(), &mut codes);
        proof {
            lemma_tree_codes_bits(*root);
            assert forall|bb: u8|
                tree_codes(*root).dom().contains(bb) implies (#[trigger] codes@[bb as int])@
                == tree_codes(*root)[bb] by {
                assert(Seq::<u8>::empty() + tree_codes(*root)[bb] =~= tree_codes(*root)[bb]);
            }
        }
        CodeTable { codes }
    };
    proof {
        assert forall|bb: int| 0 <= bb < 256 implies is_bit_seq(#[trigger] table@[bb]) by {
            if code_table_spec(*root).dom().contains(bb as u8) {
                if root.character is Some {
                    assert(table@[bb] == seq![0u8]);
                } else {
                    lemma_tree_codes_bits(*root);
                }
            }
        }
    }
    table
}

// --------------------------- bit-packing the stream ------------------------

/// The concatenated codes of all bytes of `data`, in order.
pub open spec fn code_concat(data: Seq<u8>, ctv: Seq<Seq<u8>>) -> Seq<u8>
    decreases data.len(),
{
    if data.len() == 0 {
        Seq::empty()
    } else {
        code_concat(data.drop_last(), ctv) + ctv[data.last() as int]
    }
}

/// Some byte of `data` has no code in the table.
pub open spec fn has_missing_code(data: Seq<u8>, ctv: Seq<Seq<u8>>) -> bool {
    exists|i: int| 0 <= i < data.len() && ctv[#[trigger] data[i] as int].len() == 0
}

/// What Huffman encoding produces: the bit-packed concatenation of the
/// per-byte codes followed by one byte counting the padding bits, or
/// `SymbolNotFound` exactly when some byte has no code.
pub open spec fn huff_encode_spec(data: Seq<u8>, ctv: Seq<Seq<u8>>) -> Result<
    Seq<u8>,
    CodecError,
> {
    if has_missing_code(data, ctv) {
        Err(CodecError::SymbolNotFound)
    } else {
        Ok(pack_with_pad(code_concat(data, ctv)))
    }
}

/// Encodes `data` against a code table: concatenates the per-byte codes,
/// packs them into bytes most significant bit first, and appends one byte
/// recording how many bits of the last byte are padding. A byte without a
/// code is reported as `SymbolNotFound`.
pub fn encode_with_huffman_codes(data: &[u8], huffman_codes: &CodeTable) -> (r: Result<
    Vec<u8>,
    CodecError,
>)
    requires
        huffman_codes.wf(),
    ensures
        view_bytes_result(r) == huff_encode_spec(data@, huffman_codes@),
{
    let ghost ctv = huffman_codes@;
    let mut bits: Vec<u8> = Vec::new();
    let mut i: usize = 0;
    proof {
        assert(code_concat(data@.take(0), ctv) =~= Seq::<u8>::empty());
    }
    while i < data.len()
        invariant
            i <= data.len(),
            ctv == huffman_codes@,
            huffman_codes.wf(),
            bits@ == code_concat(data@.take(i as int), ctv),
            is_bit_seq(bits@),
            forall|m: int| 0 <= m < i ==> ctv[data@[m] as int].len() != 0,
        decreases data.len() - i,
    {
        let b = data[i] as usize;
        let clen = huffman_codes.codes[b].len();
        proof {
            assert(ctv[b as int] == huffman_codes.codes@[b as int]@);
        }
        if clen == 0 {
            proof {
                assert(ctv[data@[i as int] as int].len() == 0);
            }
            return Err(CodecError::SymbolNotFound);
        }
        let ghost before = bits@;
        let mut k: usize = 0;
        while k < huffman_codes.codes[b].len()
            invariant
                k <= huffman_codes.codes@[b as int]@.len(),
                b < 256,
                ctv == huffman_codes@,
                huffman_codes.wf(),
                bits@ == before + huffman_codes.codes@[b as int]@.take(k as int),
            decreases huffman_codes.codes@[b as int]@.len() - k,
        {
            let bit = huffman_codes.codes[b][k];
            bits.push(bit);
            k = k + 1;
            proof {
                assert(before + huffman_codes.codes@[b as int]@.take(k - 1) + seq![bit] =~= before
                    + huffman_codes.codes@[b as int]@.take(k as int));
            }
        }
        i = i + 1;
        proof {
            assert(huffman_codes.codes@[b as int]@.take(
                huffman_codes.codes@[b as int]@.len() as int,
            ) =~= ctv[b as int]);
            assert(data@.take(i as int).drop_last() =~= data@.take(i - 1));
            assert(data@.take(i as int).last() == data@[i - 1]);
            assert(bits@ == code_concat(data@.take(i as int), ctv));
            assert forall|m: int| 0 <= m < bits@.len() implies bits@[m] == 0 || #[trigger] bits@[m]
                == 1 by {
                if m >= before.len() {
                    assert(is_bit_seq(ctv[b as int]));
                }
            }
        }
    }
    proof {
        assert(data@.take(data.len() as int) =~= data@);
        assert(!has_missing_code(data@, ctv));
    }

    // Pack the bit stream into bytes, most significant bit first.
    let ghost allbits = bits@;
    let mut out: Vec<u8> = Vec::new();
    let mut current: u8 = 0;
    let mut bit_count: usize = 0;
    let mut j: usize = 0;
    proof {
        assert(allbits.take(0) =~= Seq::<u8>::empty());
        assert(allbits.subrange(0, 0) =~= Seq::<u8>::empty());
        lemma2_to64();
    }
    while j < bits.len()
        invariant
            j <= bits.len(),
            bits@ == allbits,
            is_bit_seq(allbits),
            bit_count == j % 8,
            j - bit_count == 8 * ((j / 8) as int),
            current as int == bits_val(allbits.subrange(j - bit_count, j as int)),
            (current as int) < pow2(bit_count as nat),
            out@ == pack_bytes(allbits.take(j - bit_count)),
        decreases bits.len() - j,
    {
        let bit = bits[j];
        let ghost partial = allbits.subrange(j - bit_count, j as int);
        proof {
            lemma2_to64();
            lemma_bits_val_bound(partial);
            assert(pow2(bit_count as nat) <= pow2(7)) by {
                if bit_count < 7 {
                    vstd::arithmetic::power2::lemma_pow2_strictly_increases(
                        bit_count as nat,
                        7,
                    );
                }
            }
            assert(allbits.subrange(j - bit_count, j + 1).drop_last() =~= partial);
        }
        current = current * 2 + bit;
        bit_count = bit_count + 1;
        j = j + 1;
        if bit_count == 8 {
            out.push(current);
            proof {
                let a = allbits.take(j - 8);
                let b8 = allbits.subrange(j - 8, j as int);
                lemma_pack_append(a, b8);
                assert(a + b8 =~= allbits.take(j as int));
                assert(b8.take(8) =~= b8);
                assert(b8.skip(8) =~= Seq::<u8>::empty());
                assert(pack_bytes(b8) == seq![bits_val(b8.take(8)) as u8] + pack_bytes(
                    b8.skip(8),
                ));
                assert(seq![bits_val(b8) as u8] + pack_bytes(b8.skip(8)) =~= seq![bits_val(
                    b8,
                ) as u8]);
                assert(out@ =~= pack_bytes(allbits.take(j as int)));
            }
            current = 0;
            bit_count = 0;
        }
    }
    let padding_bits: usize = if bit_count > 0 {
        let mult = pow2_u8(8 - bit_count);
        proof {
            lemma2_to64();
            let tail = allbits.subrange(j - bit_count, j as int);
            lemma_bits_val_bound(tail);
            assert((current as int) * (mult as int) < 256) by {
                vstd::arithmetic::power2::lemma_pow2_adds(
                    bit_count as nat,
                    (8 - bit_count) as nat,
                );
                assert(current as int <= pow2(bit_count as nat) - 1);
                assert((pow2(bit_count as nat) - 1) * pow2((8 - bit_count) as nat) < pow2(8))
                    by (nonlinear_arith)
                    requires
                        pow2(bit_count as nat) * pow2((8 - bit_count) as nat) == pow2(8),
                        pow2((8 - bit_count) as nat) >= 1,
                ;
                assert((current as int) * (mult as int) <= (pow2(bit_count as nat) - 1) * pow2(
                    (8 - bit_count) as nat,
                )) by (nonlinear_arith)
                    requires
                        current as int <= pow2(bit_count as nat) - 1,
                        mult as int == pow2((8 - bit_count) as nat),
                        current as int >= 0,
                        mult as int >= 1,
                ;
            }
        }
        let shifted = current * mult;
        out.push(shifted);
        proof {
            let a = allbits.take(j - bit_count);
            let tail = allbits.subrange(j - bit_count, j as int);
            lemma_pack_append(a, tail);
            assert(a + tail =~= allbits);
            assert(out@ =~= pack_bytes(allbits));
        }
        8 - bit_count
    } else {
        proof {
            assert(allbits.take(j as int) =~= allbits);
        }
        0
    };
    out.push(padding_bits as u8);
    proof {
        assert(out@ =~= pack_with_pad(allbits));
    }
    Ok(out)
}

// --------------------------- decoding --------------------------------------

/// The lowest byte value at or after `b` whose code equals `prefix`.
pub open spec fn code_match_at(prefix: Seq<u8>, ctv: Seq<Seq<u8>>, b: int) -> Option<u8>
    decreases 256 - b,
{
    if b < 0 || b >= 256 {
        None
    } else if ctv[b] == prefix {
        Some(b as u8)
    } else {
        code_match_at(prefix, ctv, b + 1)
    }
}

/// The shortest prefix of the bit stream, of length at least `k`, that is
/// some byte's code, together with that byte (lowest byte first on the rare
/// ambiguous tables).
pub open spec fn find_match(bitstream: Seq<u8>, ctv: Seq<Seq<u8>>, k: int) -> Option<(int, u8)>
    decreases bitstream.len() - k + 1,
{
    if k < 1 || k > bitstream.len() {
        None
    } else {
        match code_match_at(bitstream.take(k), ctv, 0) {
            Some(b) => Some((k, b)),
            None => find_match(bitstream, ctv, k + 1),
        }
    }
}

/// A found match lies within the stream and is at least one bit long.
proof fn lemma_find_match_props(bitstream: Seq<u8>, ctv: Seq<Seq<u8>>, k: int)
    ensures
        find_match(bitstream, ctv, k) matches Some(p) ==> k <= p.0 <= bitstream.len() && p.0
            >= 1,
    decreases bitstream.len() - k + 1,
{
    if 1 <= k <= bitstream.len() {
        lemma_find_match_props(bitstream, ctv, k + 1);
    }
}

/// Greedy prefix matching: repeatedly take the shortest prefix that is a
/// code, emit its byte, and continue after it; trailing bits that complete
/// no code are dropped.
pub open spec fn greedy_decode(bitstream: Seq<u8>, ctv: Seq<Seq<u8>>) -> Seq<u8>
    decreases bitstream.len(),
    via greedy_decode_dec
{
    match find_match(bitstream, ctv, 1) {
        None => Seq::empty(),
        Some(p) => seq![p.1] + greedy_decode(bitstream.skip(p.0), ctv),
    }
}

#[via_fn]
proof fn greedy_decode_dec(bitstream: Seq<u8>, ctv: Seq<Seq<u8>>) {
    lemma_find_match_props(bitstream, ctv, 1);
}

/// What Huffman decoding produces: the trailing byte gives the padding
/// width, the remaining bytes are unpacked into bits, the padding dropped,
/// and the bit stream greedily matched against the table.
pub open spec fn huff_decode_spec(encoded: Seq<u8>, ctv: Seq<Seq<u8>>) -> Result<
    Seq<u8>,
    CodecError,
> {
    if encoded.len() == 0 {
        Err(CodecError::InvalidArchive)
    } else {
        let pad = encoded.last() as int;
        let nbits = 8 * (encoded.len() - 1);
        if pad > nbits {
            Err(CodecError::InvalidArchive)
        } else {
            Ok(greedy_decode(unpack_bits(encoded.drop_last()).take(nbits - pad), ctv))
        }
    }
}

/// A first-match scan over the byte values agrees with `code_match_at`.
proof fn lemma_code_match_first(prefix: Seq<u8>, ctv: Seq<Seq<u8>>, lo: int, p: int)
    requires
        0 <= lo <= p <= 256,
        forall|b: int| lo <= b < p ==> ctv[b] != prefix,
        p < 256 ==> ctv[p] == prefix,
    ensures
        code_match_at(prefix, ctv, lo) == if p < 256 {
            Some(p as u8)
        } else {
            None::<u8>
        },
    decreases 256 - lo,
{
    if lo < p {
        lemma_code_match_first(prefix, ctv, lo + 1, p);
    }
}

/// If no shorter prefix matches and one of length `kk` does, the search
/// finds exactly that one.
proof fn lemma_find_match_from(bitstream: Seq<u8>, ctv: Seq<Seq<u8>>, k: int, kk: int, b: u8)
    requires
        1 <= k <= kk <= bitstream.len(),
        forall|m: int| k <= m < kk ==> code_match_at(bitstream.take(m), ctv, 0) is None,
        code_match_at(bitstream.take(kk), ctv, 0) == Some(b),
    ensures
        find_match(bitstream, ctv, k) == Some((kk, b)),
    decreases kk - k,
{
    if k < kk {
        lemma_find_match_from(bitstream, ctv, k + 1, kk, b);
    }
}

/// If no prefix at all matches, the search fails.
proof fn lemma_find_match_none(bitstream: Seq<u8>, ctv: Seq<Seq<u8>>, k: int)
    requires
        1 <= k,
        forall|m: int| k <= m <= bitstream.len() ==> code_match_at(
            bitstream.take(m),
            ctv,
            0,
        ) is None,
    ensures
        find_match(bitstream, ctv, k) is None,
    decreases bitstream.len() - k + 1,
{
    if k <= bitstream.len() {
        lemma_find_match_none(bitstream, ctv, k + 1);
    }
}

/// Scans the table for the lowest byte whose code equals `current`.
fn scan_code(huffman_codes: &CodeTable, current: &Vec<u8>) -> (r: Option<u8>)
    requires
        huffman_codes.wf(),
    ensures
        r == code_match_at(current@, huffman_codes@, 0),
{
    let mut b: usize = 0;
    while b < 256
        invariant
            b <= 256,
            huffman_codes.wf(),
            forall|m: int| 0 <= m < b ==> huffman_codes@[m] != current@,
        decreases 256 - b,
    {
        if bytes_equal(&huffman_codes.codes[b], current) {
            proof {
                assert(huffman_codes@[b as int] == current@);
                lemma_code_match_first(current@, huffman_codes@, 0, b as int);
            }
            return Some(b as u8);
        }
        proof {
            assert(huffman_codes@[b as int] == huffman_codes.codes@[b as int]@);
        }
        b = b + 1;
    }
    proof {
        lemma_code_match_first(current@, huffman_codes@, 0, 256);
    }
    None
}

/// Decodes a Huffman-packed payload: reads the trailing padding-count byte,
/// rebuilds the bit stream without the padding, and greedily matches codes.
/// An empty payload or an impossible padding count is `InvalidArchive`.
pub fn decode_huffman(encoded: &[u8], huffman_codes: &CodeTable) -> (r: Result<
    Vec<u8>,
    CodecError,
>)
    requires
        huffman_codes.wf(),
        encoded@.len() < 0x2000_0000_0000_0000,
    ensures
        view_bytes_result(r) == huff_decode_spec(encoded@, huffman_codes@),
{
    let ghost ctv = huffman_codes@;
    if encoded.len() == 0 {
        return Err(CodecError::InvalidArchive);
    }
    let pad = encoded[encoded.len() - 1] as usize;
    let nbytes = encoded.len() - 1;
    let ghost body = encoded@.drop_last();

    let mut bits: Vec<u8> = Vec::new();
    let mut i: usize = 0;
    while i < nbytes
        invariant
            i <= nbytes,
            nbytes == encoded@.len() - 1,
            encoded@.len() < 0x2000_0000_0000_0000,
            body == encoded@.drop_last(),
            bits@.len() == 8 * i,
            forall|m: int| 0 <= m < bits@.len() ==> bits@[m] == unpack_bits(body)[m],
            is_bit_seq(bits@),
        decreases nbytes - i,
    {
        let byte = encoded[i];
        let mut k: usize = 0;
        while k < 8
            invariant
                k <= 8,
                i < nbytes,
                nbytes == encoded@.len() - 1,
                encoded@.len() < 0x2000_0000_0000_0000,
                body == encoded@.drop_last(),
                byte == body[i as int],
                bits@.len() == 8 * i + k,
                forall|m: int| 0 <= m < bits@.len() ==> bits@[m] == unpack_bits(body)[m],
                is_bit_seq(bits@),
            decreases 8 - k,
        {
            let p = pow2_u8(7 - k);
            let bit = (byte / p) % 2;
            proof {
                assert((8 * (i as int) + k) / 8 == i && (8 * (i as int) + k) % 8 == k)
                    by (nonlinear_arith)
                    requires
                        0 <= k < 8,
                        0 <= i,
                ;
                assert(bit == bit_of(body[i as int], k as int));
            }
            bits.push(bit);
            k = k + 1;
        }
        i = i + 1;
    }
    proof {
        assert(bits@ =~= unpack_bits(body));
    }
    if pad > bits.len() {
        return Err(CodecError::InvalidArchive);
    }
    let keep = bits.len() - pad;
    bits.truncate(keep);
    proof {
        assert(bits@ == unpack_bits(body).take(keep as int));
        assert(is_bit_seq(bits@));
    }

    let ghost stream = bits@;
    let ghost total_spec = greedy_decode(stream, ctv);
    let mut out: Vec<u8> = Vec::new();
    let mut current: Vec<u8> = Vec::new();
    let ghost mut jb: int = 0;
    let mut i2: usize = 0;
    proof {
        assert(stream.skip(0) =~= stream);
        assert(Seq::<u8>::empty() + total_spec =~= total_spec);
    }
    while i2 < bits.len()
        invariant
            i2 <= bits.len(),
            bits@ == stream,
            ctv == huffman_codes@,
            huffman_codes.wf(),
            0 <= jb <= i2,
            current@ == stream.subrange(jb, i2 as int),
            total_spec == out@ + greedy_decode(stream.skip(jb), ctv),
            forall|m: int| 1 <= m <= i2 - jb ==> code_match_at(
                stream.skip(jb).take(m),
                ctv,
                0,
            ) is None,
        decreases bits.len() - i2,
    {
        current.push(bits[i2]);
        i2 = i2 + 1;
        proof {
            assert(current@ =~= stream.skip(jb).take(i2 - jb));
        }
        let m = scan_code(huffman_codes, &current);
        match m {
            Some(sym) => {
                out.push(sym);
                current.clear();
                proof {
                    lemma_find_match_from(stream.skip(jb), ctv, 1, i2 - jb, sym);
                    assert(greedy_decode(stream.skip(jb), ctv) == seq![sym] + greedy_decode(
                        stream.skip(jb).skip(i2 - jb),
                        ctv,
                    ));
                    assert(stream.skip(jb).skip(i2 - jb) =~= stream.skip(i2 as int));
                    assert(out@.drop_last() + (seq![sym] + greedy_decode(
                        stream.skip(i2 as int),
                        ctv,
                    )) =~= out@ + greedy_decode(stream.skip(i2 as int), ctv));
                    jb = i2 as int;
                    assert(current@ =~= stream.subrange(jb, i2 as int));
                }
            },
            None => {
                proof {
                    assert forall|mm: int| 1 <= mm <= i2 - jb implies code_match_at(
                        stream.skip(jb).take(mm),
                        ctv,
                        0,
                    ) is None by {
                        if mm == i2 - jb {
                            assert(stream.skip(jb).take(mm) == current@);
                        }
                    }
                }
            },
        }
    }
    proof {
        assert forall|mm: int| 1 <= mm <= stream.skip(jb).len() implies code_match_at(
            stream.skip(jb).take(mm),
            ctv,
            0,
        ) is None by {
            assert(code_match_at(stream.skip(jb).take(mm), ctv, 0) is None);
        }
        lemma_find_match_none(stream.skip(jb), ctv, 1);
        assert(total_spec == out@ + Seq::<u8>::empty());
        assert(out@ + Seq::<u8>::empty() =~= out@);
    }
    Ok(out)
}

// --------------------------- the prefix-free law ---------------------------

/// `a` is a prefix of `b`.
pub open spec fn is_prefix_of(a: Seq<u8>, b: Seq<u8>) -> bool {
    a.len() <= b.len() && a == b.take(a.len() as int)
}

/// Stripping a shared first bit preserves prefix-hood both ways.
proof fn lemma_prefix_strip(x: u8, a: Seq<u8>, b: Seq<u8>)
    ensures
        is_prefix_of(seq![x] + a, seq![x] + b) == is_prefix_of(a, b),
{
    let xa = seq![x] + a;
    let xb = seq![x] + b;
    if is_prefix_of(xa, xb) {
        assert(a =~= b.take(a.len() as int)) by {
            assert(forall|i: int| 0 <= i < a.len() ==> xa[i + 1] == #[trigger] a[i]);
            assert(forall|i: int|
                0 <= i < a.len() ==> xb.take(xa.len() as int)[i + 1] == #[trigger] b.take(
                    a.len() as int,
                )[i]);
        }
    }
    if is_prefix_of(a, b) {
        assert(xa =~= xb.take(xa.len() as int));
    }
}

/// No code assigned by a subtree is a prefix of another: codes from the two
/// children differ in their first bit, and within one child the claim holds
/// by induction.
proof fn lemma_tree_codes_prefix_free(t: Node)
    requires
        wf_tree(t),
    ensures
        forall|b1: u8, b2: u8|
            b1 != b2 && tree_codes(t).dom().contains(b1) && tree_codes(t).dom().contains(b2)
                ==> !is_prefix_of(#[trigger] tree_codes(t)[b1], #[trigger] tree_codes(t)[b2]),
    decreases t,
{
    match (t.character, t.left, t.right) {
        (None, Some(l), Some(r)) => {
            lemma_tree_codes_prefix_free(*l);
            lemma_tree_codes_prefix_free(*r);
            let lc = tree_codes(*l);
            let rc = tree_codes(*r);
            let m = tree_codes(t);
            assert forall|b1: u8, b2: u8|
                b1 != b2 && m.dom().contains(b1) && m.dom().contains(b2) implies !is_prefix_of(
                #[trigger] m[b1],
                #[trigger] m[b2],
            ) by {
                let in_r1 = rc.dom().contains(b1);
                let in_r2 = rc.dom().contains(b2);
                if in_r1 && in_r2 {
                    assert(m[b1] == seq![1u8] + rc[b1]);
                    assert(m[b2] == seq![1u8] + rc[b2]);
                    lemma_prefix_strip(1u8, rc[b1], rc[b2]);
                } else if !in_r1 && !in_r2 {
                    assert(m[b1] == seq![0u8] + lc[b1]);
                    assert(m[b2] == seq![0u8] + lc[b2]);
                    lemma_prefix_strip(0u8, lc[b1], lc[b2]);
                } else {
                    let c1: u8 = if in_r1 { 1 } else { 0 };
                    let c2: u8 = if in_r2 { 1 } else { 0 };
                    assert(m[b1][0] == c1);
                    assert(m[b2][0] == c2);
                    assert(m[b1].len() >= 1);
                    if is_prefix_of(m[b1], m[b2]) {
                        assert(m[b2].take(m[b1].len() as int)[0] == m[b2][0]);
                        assert(false);
                    }
                }
            }
        },
        _ => {},
    }
}

/// The code table of any well-formed tree is prefix-free: no symbol's code
/// is a prefix of another symbol's code, the single-leaf table included.
pub proof fn lemma_code_table_prefix_free(t: Node)
    requires
        wf_tree(t),
    ensures
        forall|b1: u8, b2: u8|
            b1 != b2 && code_table_spec(t).dom().contains(b1) && code_table_spec(
                t,
            ).dom().contains(b2) ==> !is_prefix_of(
                #[trigger] code_table_spec(t)[b1],
                #[trigger] code_table_spec(t)[b2],
            ),
{
    if t.character is None {
        lemma_tree_codes_prefix_free(t);
    }
}

/// Every worklist node stays well-formed across one merge.
proof fn lemma_merge_once_wf(ws: Seq<Node>)
    requires
        ws.len() >= 2,
        forall|m: int| 0 <= m < ws.len() ==> wf_tree(#[trigger] ws[m]),
        sum_freqs(ws) <= MAX_SYMBOL_TOTAL,
    ensures
        merge_once(ws).len() == ws.len() - 1,
        forall|m: int| 0 <= m < merge_once(ws).len() ==> wf_tree(#[trigger] merge_once(ws)[m]),
        sum_freqs(merge_once(ws)) == sum_freqs(ws),
{
    lemma_min_idx_range(ws);
    let i = min_idx(ws);
    let a = ws[i];
    let ws1 = ws.remove(i);
    lemma_sum_remove(ws, i);
    lemma_min_idx_range(ws1);
    let j = min_idx(ws1);
    let b = ws1[j];
    let ws2 = ws1.remove(j);
    lemma_sum_remove(ws1, j);
    lemma_sum_nonneg(ws2);
    assert(a.frequency + b.frequency <= MAX_SYMBOL_TOTAL);
    let merged = mk_internal(a, b);
    assert(wf_tree(merged));
    assert(merge_once(ws) == ws2.push(merged));
    assert(sum_freqs(ws2.push(merged)) == sum_freqs(ws2) + merged.frequency) by {
        assert(ws2.push(merged).drop_last() =~= ws2);
    }
    assert forall|m: int| 0 <= m < merge_once(ws).len() implies wf_tree(
        #[trigger] merge_once(ws)[m],
    ) by {
        if m < ws2.len() {
            assert(merge_once(ws)[m] == ws2[m]);
            if m < j {
                assert(ws2[m] == ws1[m]);
            } else {
                assert(ws2[m] == ws1[m + 1]);
            }
        } else {
            assert(merge_once(ws)[m] == merged);
        }
    }
}

/// The tree built from a worklist of well-formed nodes is well-formed.
proof fn lemma_build_tree_rec_wf(ws: Seq<Node>)
    requires
        ws.len() >= 1,
        forall|m: int| 0 <= m < ws.len() ==> wf_tree(#[trigger] ws[m]),
        sum_freqs(ws) <= MAX_SYMBOL_TOTAL,
    ensures
        wf_tree(build_tree_rec(ws)),
    decreases ws.len(),
{
    if ws.len() > 1 {
        lemma_merge_once_wf(ws);
        lemma_build_tree_rec_wf(merge_once(ws));
    }
}

/// The prefix-free law for frequency tables themselves: the code table that
/// any non-empty, bounded frequency table determines is prefix-free.
pub proof fn lemma_huffman_prefix_free(entries: Seq<(u8, u64)>)
    requires
        entries.len() >= 1,
        tbl_total(entries) <= MAX_SYMBOL_TOTAL,
    ensures
        forall|b1: u8, b2: u8|
            b1 != b2 && code_table_spec(huffman_tree_spec(entries)).dom().contains(b1)
                && code_table_spec(huffman_tree_spec(entries)).dom().contains(b2)
                ==> !is_prefix_of(
                #[trigger] code_table_spec(huffman_tree_spec(entries))[b1],
                #[trigger] code_table_spec(huffman_tree_spec(entries))[b2],
            ),
{
    let ws = leaves_of(entries);
    lemma_leaves_sum(entries);
    assert forall|m: int| 0 <= m < ws.len() implies wf_tree(#[trigger] ws[m]) by {
        assert(ws[m] == mk_leaf(entries[m].0, entries[m].1));
    }
    lemma_build_tree_rec_wf(ws);
    lemma_code_table_prefix_free(huffman_tree_spec(entries));
}

// --------------------------- symbol coverage -------------------------------

/// The byte values of the leaves below a node.
pub open spec fn node_syms(t: Node) -> Set<u8>
    decreases t,
{
    match (t.character, t.left, t.right) {
        (Some(c), _, _) => Set::empty().insert(c),
        (None, Some(l), Some(r)) => node_syms(*l).union(node_syms(*r)),
        _ => Set::empty(),
    }
}

/// The byte values of all leaves in a worklist.
pub open spec fn ws_syms(ws: Seq<Node>) -> Set<u8>
    decreases ws.len(),
{
    if ws.len() == 0 {
        Set::empty()
    } else {
        ws_syms(ws.drop_last()).union(node_syms(ws.last()))
    }
}

/// A tree's code map covers exactly its leaf symbols.
proof fn lemma_tree_codes_dom(t: Node)
    requires
        wf_tree(t),
    ensures
        tree_codes(t).dom() == node_syms(t),
    decreases t,
{
    match (t.character, t.left, t.right) {
        (None, Some(l), Some(r)) => {
            lemma_tree_codes_dom(*l);
            lemma_tree_codes_dom(*r);
            assert(tree_codes(t).dom() =~= node_syms(t));
        },
        _ => {
            assert(tree_codes(t).dom() =~= node_syms(t));
        },
    }
}

/// Removing one node splits the worklist's symbols.
proof fn lemma_ws_syms_remove(ws: Seq<Node>, i: int)
    requires
        0 <= i < ws.len(),
    ensures
        ws_syms(ws) == ws_syms(ws.remove(i)).union(node_syms(ws[i])),
    decreases ws.len(),
{
    if i == ws.len() - 1 {
        assert(ws.remove(i) =~= ws.drop_last());
    } else {
        assert(ws.remove(i).drop_last() =~= ws.drop_last().remove(i));
        assert(ws.remove(i).last() == ws.last());
        lemma_ws_syms_remove(ws.drop_last(), i);
        assert(ws_syms(ws) =~= ws_syms(ws.remove(i)).union(node_syms(ws[i])));
    }
}

/// Merging two nodes keeps the symbol set.
proof fn lemma_merge_once_syms(ws: Seq<Node>)
    requires
        ws.len() >= 2,
    ensures
        ws_syms(merge_once(ws)) == ws_syms(ws),
{
    lemma_min_idx_range(ws);
    let i = min_idx(ws);
    let a = ws[i];
    let ws1 = ws.remove(i);
    lemma_min_idx_range(ws1);
    let j = min_idx(ws1);
    let b = ws1[j];
    let ws2 = ws1.remove(j);
    lemma_ws_syms_remove(ws, i);
    lemma_ws_syms_remove(ws1, j);
    let merged = mk_internal(a, b);
    assert(node_syms(merged) == node_syms(a).union(node_syms(b)));
    assert(merge_once(ws) == ws2.push(merged));
    assert(ws2.push(merged).drop_last() =~= ws2);
    assert(ws_syms(ws2.push(merged)) =~= ws_syms(ws));
}

/// The built tree's leaves are exactly the worklist's symbols.
proof fn lemma_build_tree_syms(ws: Seq<Node>)
    requires
        ws.len() >= 1,
    ensures
        node_syms(build_tree_rec(ws)) == ws_syms(ws),
    decreases ws.len(),
{
    if ws.len() == 1 {
        assert(ws.drop_last() =~= Seq::<Node>::empty());
        assert(ws_syms(ws.drop_last()) == Set::<u8>::empty());
        assert(ws.last() == ws[0]);
        assert(ws_syms(ws) == Set::<u8>::empty().union(node_syms(ws[0])));
        assert(Set::<u8>::empty().union(node_syms(ws[0])) =~= node_syms(ws[0]));
        assert(build_tree_rec(ws) == ws[0]);
    } else {
        lemma_min_idx_range(ws);
        lemma_min_idx_range(ws.remove(min_idx(ws)));
        lemma_merge_once_syms(ws);
        lemma_build_tree_syms(merge_once(ws));
    }
}

/// The leaf worklist of a table carries the table's symbols.
proof fn lemma_leaves_syms(entries: Seq<(u8, u64)>, b: u8)
    ensures
        ws_syms(leaves_of(entries)).contains(b) <==> exists|k: int|
            0 <= k < entries.len() && (#[trigger] entries[k]).0 == b,
    decreases entries.len(),
{
    if entries.len() > 0 {
        assert(leaves_of(entries).drop_last() =~= leaves_of(entries.drop_last()));
        assert(leaves_of(entries).last() == mk_leaf(
            entries.last().0,
            entries.last().1,
        ));
        lemma_leaves_syms(entries.drop_last(), b);
        if ws_syms(leaves_of(entries)).contains(b) {
            if node_syms(mk_leaf(entries.last().0, entries.last().1)).contains(b) {
                assert(entries[entries.len() - 1].0 == b);
            } else {
                let k = choose|k: int|
                    0 <= k < entries.len() - 1 && (#[trigger] entries.drop_last()[k]).0 == b;
                assert(entries[k].0 == b);
            }
        }
        if exists|k: int| 0 <= k < entries.len() && (#[trigger] entries[k]).0 == b {
            let k = choose|k: int| 0 <= k < entries.len() && (#[trigger] entries[k]).0 == b;
            if k < entries.len() - 1 {
                assert(entries.drop_last()[k].0 == b);
            }
        }
    }
}

/// A byte that occurs in the data has an entry in its frequency table.
proof fn lemma_freq_entries_cover(l: Seq<u8>, lo: int, b: u8)
    requires
        0 <= lo <= b as int,
        count_occ(l, b) > 0,
    ensures
        exists|k: int| 0 <= k < freq_entries(l, lo).len() && (#[trigger] freq_entries(l, lo)[k]).0
            == b,
    decreases 256 - lo,
{
    let fe = freq_entries(l, lo);
    let head: Seq<(u8, u64)> = if count_occ(l, lo as u8) > 0 {
        seq![(lo as u8, count_occ(l, lo as u8) as u64)]
    } else {
        Seq::empty()
    };
    if lo == b as int {
        assert(fe[0].0 == b);
    } else {
        lemma_freq_entries_cover(l, lo + 1, b);
        let k = choose|k: int|
            0 <= k < freq_entries(l, lo + 1).len() && (#[trigger] freq_entries(l, lo + 1)[k]).0
                == b;
        assert(fe[head.len() + k].0 == b);
    }
}

/// Every byte value occurring somewhere in a sequence has positive count.
proof fn lemma_count_occ_at(l: Seq<u8>, i: int)
    requires
        0 <= i < l.len(),
    ensures
        count_occ(l, l[i]) > 0,
    decreases l.len(),
{
    lemma_count_bounds(l.drop_last(), l[i], 0);
    if i < l.len() - 1 {
        lemma_count_occ_at(l.drop_last(), i);
    }
}

/// Every code of a code table holds at least one bit.
proof fn lemma_code_table_nonempty(t: Node, b: u8)
    requires
        wf_tree(t),
        code_table_spec(t).dom().contains(b),
    ensures
        code_table_spec(t)[b].len() >= 1,
{
    if t.character is None {
        let lc = prefixed(tree_codes(*t.left->0), 0);
        let rc = prefixed(tree_codes(*t.right->0), 1);
        if rc.dom().contains(b) {
            assert(tree_codes(t)[b] == rc[b]);
        } else {
            assert(tree_codes(t)[b] == lc[b]);
        }
    }
}

/// The coverage law: every byte of the data has a non-empty code in the
/// table its own frequency table determines, so Huffman encoding a block
/// against that table always succeeds.
pub proof fn lemma_huffman_encode_ok(data: Seq<u8>)
    requires
        data.len() >= 1,
        data.len() <= MAX_SYMBOL_TOTAL,
    ensures
        huff_encode_spec(
            data,
            ctv_of_map(code_table_spec(huffman_tree_spec(freq_table_spec(data)))),
        ) is Ok,
{
    let entries = freq_table_spec(data);
    let tree = huffman_tree_spec(entries);
    let ctv = ctv_of_map(code_table_spec(tree));
    lemma_count_occ_at(data, 0);
    lemma_freq_entries_cover(data, 0, data[0]);
    assert(entries.len() >= 1);
    let ws = leaves_of(entries);
    lemma_freq_table_total(data);
    lemma_leaves_sum(entries);
    assert forall|m: int| 0 <= m < ws.len() implies wf_tree(#[trigger] ws[m]) by {
        assert(ws[m] == mk_leaf(entries[m].0, entries[m].1));
    }
    lemma_build_tree_rec_wf(ws);
    lemma_build_tree_syms(ws);
    assert forall|i: int| 0 <= i < data.len() implies ctv[#[trigger] data[i] as int].len()
        != 0 by {
        let b = data[i];
        lemma_count_occ_at(data, i);
        lemma_freq_entries_cover(data, 0, b);
        lemma_leaves_syms(entries, b);
        assert(ws_syms(ws).contains(b));
        if tree.character is Some {
            // a single-leaf tree: its symbol is the table's only symbol
            assert(node_syms(tree).contains(b));
            assert(code_table_spec(tree).dom().contains(b));
        } else {
            lemma_tree_codes_dom(tree);
            assert(code_table_spec(tree).dom().contains(b));
        }
        lemma_code_table_nonempty(tree, b);
        assert(ctv[b as int] == code_table_spec(tree)[b]);
    }
    assert(!has_missing_code(data, ctv));
}

// --------------------------- the Huffman round trip ------------------------

/// Reading bit `k` back out of a packed run of up to eight bits.
proof fn lemma_val_extract(bs: Seq<u8>, k: int)
    requires
        is_bit_seq(bs),
        0 <= k < bs.len() <= 8,
    ensures
        (bits_val(bs) / (pow2((bs.len() - 1 - k) as nat) as int)) % 2 == bs[k],
    decreases bs.len(),
{
    lemma2_to64();
    let last = bs.last();
    assert(last == 0 || last == 1);
    lemma_bits_val_bound(bs);
    if k == bs.len() - 1 {
        assert(bits_val(bs) == bits_val(bs.drop_last()) * 2 + last);
        lemma_mod_multiples_vanish(bits_val(bs.drop_last()), last as int, 2);
        assert(bits_val(bs) / 1 == bits_val(bs));
    } else {
        assert(is_bit_seq(bs.drop_last()));
        lemma_val_extract(bs.drop_last(), k);
        let e = (bs.len() - 2 - k) as nat;
        lemma_pow2_pos(e);
        lemma_pow2_adds(1, e);
        assert(pow2(1) == 2);
        // dropping the last bit halves the value
        assert(bits_val(bs) / 2 == bits_val(bs.drop_last())) by {
            lemma_fundamental_div_mod_converse(
                bits_val(bs),
                2,
                bits_val(bs.drop_last()),
                last as int,
            );
        }
        lemma_div_denominator(bits_val(bs), 2, pow2(e) as int);
        assert(bs.drop_last()[k] == bs[k]);
    }
}

/// The packed run is as long as the bits plus their padding.
pub proof fn lemma_pack_len(bits: Seq<u8>)
    ensures
        8 * pack_bytes(bits).len() == bits.len() + pad_len(bits),
    decreases bits.len(),
{
    if bits.len() >= 8 {
        lemma_pack_len(bits.skip(8));
    }
}

/// What each packed byte holds: a full chunk's value, or the final partial
/// chunk shifted into the high bits.
proof fn lemma_pack_byte_index(bits: Seq<u8>, j: int)
    requires
        is_bit_seq(bits),
        0 <= j,
        8 * j < bits.len(),
    ensures
        8 * (j + 1) <= bits.len() ==> pack_bytes(bits)[j] as int == bits_val(
            bits.subrange(8 * j, 8 * j + 8),
        ),
        8 * (j + 1) > bits.len() ==> pack_bytes(bits)[j] as int == bits_val(
            bits.subrange(8 * j, bits.len() as int),
        ) * pow2((8 - (bits.len() - 8 * j)) as nat),
    decreases j,
{
    lemma2_to64();
    if j == 0 {
        if bits.len() >= 8 {
            assert(bits.take(8) =~= bits.subrange(0, 8));
            assert(is_bit_seq(bits.take(8)));
            lemma_bits_val_bound(bits.take(8));
            assert(pack_bytes(bits)[0] == bits_val(bits.take(8)) as u8);
        } else {
            assert(bits =~= bits.subrange(0, bits.len() as int));
            lemma_bits_val_bound(bits);
            let shift = (8 - bits.len()) as nat;
            lemma_pow2_adds(bits.len() as nat, shift);
            assert(bits_val(bits) * pow2(shift) < 256) by (nonlinear_arith)
                requires
                    0 <= bits_val(bits) < pow2(bits.len() as nat),
                    pow2(bits.len() as nat) * pow2(shift) == pow2(8),
                    pow2(8) == 256,
                    pow2(shift) >= 0,
            ;
        }
    } else {
        assert(is_bit_seq(bits.skip(8))) by {
            assert(forall|m: int|
                0 <= m < bits.len() - 8 ==> #[trigger] bits.skip(8)[m] == bits[m + 8]);
        }
        lemma_pack_byte_index(bits.skip(8), j - 1);
        assert(bits.len() > 8);
        lemma_pack_len(bits.skip(8));
        assert(8 * pack_bytes(bits.skip(8)).len() >= bits.len() - 8) by {
            assert(pad_len(bits.skip(8)) >= 0);
        }
        assert(j - 1 < pack_bytes(bits.skip(8)).len());
        assert(pack_bytes(bits) == seq![bits_val(bits.take(8)) as u8] + pack_bytes(
            bits.skip(8),
        ));
        assert(pack_bytes(bits)[j] == pack_bytes(bits.skip(8))[j - 1]);
        if 8 * (j + 1) <= bits.len() {
            assert(bits.skip(8).subrange(8 * (j - 1), 8 * (j - 1) + 8) =~= bits.subrange(
                8 * j,
                8 * j + 8,
            ));
        } else {
            assert(bits.skip(8).subrange(8 * (j - 1), bits.len() - 8) =~= bits.subrange(
                8 * j,
                bits.len() as int,
            ));
        }
    }
}

/// Unpacking the packed run reproduces every original bit.
proof fn lemma_unpack_pack(bits: Seq<u8>, k: int)
    requires
        is_bit_seq(bits),
        0 <= k < bits.len(),
    ensures
        unpack_bits(pack_bytes(bits)).len() >= bits.len(),
        unpack_bits(pack_bytes(bits))[k] == bits[k],
{
    lemma2_to64();
    lemma_pack_len(bits);
    let j = k / 8;
    let r = k % 8;
    let packed = pack_bytes(bits);
    assert(0 <= r < 8) by {
        vstd::arithmetic::div_mod::lemma_mod_division_less_than_divisor(k, 8);
    }
    assert(8 * j + r == k) by {
        vstd::arithmetic::div_mod::lemma_fundamental_div_mod(k, 8);
    }
    assert(8 * j < bits.len());
    assert(j < packed.len());
    lemma_pack_byte_index(bits, j);
    assert(unpack_bits(packed)[k] == bit_of(packed[j], r));
    if 8 * (j + 1) <= bits.len() {
        let bs = bits.subrange(8 * j, 8 * j + 8);
        assert(is_bit_seq(bs));
        lemma_bits_val_bound(bs);
        lemma_val_extract(bs, r);
        assert(packed[j] as int == bits_val(bs));
        assert(bs[r] == bits[k]);
    } else {
        let bs = bits.subrange(8 * j, bits.len() as int);
        let tlen = bits.len() - 8 * j;
        assert(is_bit_seq(bs));
        lemma_bits_val_bound(bs);
        lemma_val_extract(bs, r);
        assert(r < tlen);
        let shift = (8 - tlen) as nat;
        assert(packed[j] as int == bits_val(bs) * pow2(shift));
        // dividing by 2^(7-r) first removes the shift, then the bits below r
        let e = (tlen - 1 - r) as nat;
        lemma_pow2_pos(e);
        lemma_pow2_pos(shift);
        lemma_pow2_adds(e, shift);
        assert((bits_val(bs) * pow2(shift)) / (pow2((7 - r) as nat) as int) == bits_val(bs)
            / (pow2(e) as int)) by {
            assert(pow2((7 - r) as nat) == pow2(e) * pow2(shift)) by {
                lemma_pow2_adds(e, shift);
            }
            lemma_div_denominator(
                bits_val(bs) * pow2(shift),
                pow2(shift) as int,
                pow2(e) as int,
            );
            lemma_div_multiples_vanish(bits_val(bs), pow2(shift) as int);
            assert(bits_val(bs) * pow2(shift) == pow2(shift) * bits_val(bs))
                by (nonlinear_arith);
            assert((pow2(e) * pow2(shift)) as int == (pow2(shift) * pow2(e)) as int)
                by (nonlinear_arith);
        }
        assert(bs[r] == bits[k]);
    }
}

/// A successful scan names a byte whose code is exactly the prefix.
proof fn lemma_code_match_found(prefix: Seq<u8>, ctv: Seq<Seq<u8>>, lo: int)
    ensures
        code_match_at(prefix, ctv, lo) matches Some(b) ==> lo <= b < 256 && ctv[b as int]
            == prefix,
    decreases 256 - lo,
{
    if 0 <= lo < 256 && ctv[lo] != prefix {
        lemma_code_match_found(prefix, ctv, lo + 1);
    }
}

/// The concatenation of codes unfolds at the front.
proof fn lemma_code_concat_front(data: Seq<u8>, ctv: Seq<Seq<u8>>)
    requires
        data.len() > 0,
    ensures
        code_concat(data, ctv) == ctv[data[0] as int] + code_concat(data.skip(1), ctv),
    decreases data.len(),
{
    if data.len() == 1 {
        assert(data.drop_last().len() == 0);
        assert(data.skip(1).len() == 0);
        assert(code_concat(data.drop_last(), ctv) == Seq::<u8>::empty());
        assert(code_concat(data.skip(1), ctv) == Seq::<u8>::empty());
        assert(data.last() == data[0]);
        assert(code_concat(data, ctv) == Seq::<u8>::empty() + ctv[data[0] as int]);
        assert(Seq::<u8>::empty() + ctv[data[0] as int] =~= ctv[data[0] as int] + Seq::<
            u8,
        >::empty());
    } else {
        lemma_code_concat_front(data.drop_last(), ctv);
        assert(data.drop_last()[0] == data[0]);
        assert(data.skip(1).drop_last() =~= data.drop_last().skip(1));
        assert(data.skip(1).last() == data.last());
        assert(code_concat(data, ctv) == code_concat(data.drop_last(), ctv) + ctv[data.last()
            as int]);
        assert(ctv[data[0] as int] + code_concat(data.drop_last().skip(1), ctv) + ctv[
            data.last() as int] =~= ctv[data[0] as int] + (code_concat(
            data.drop_last().skip(1),
            ctv,
        ) + ctv[data.last() as int]));
    }
}

/// No code in the table is a prefix of a different byte's code.
pub open spec fn table_prefix_free(ctv: Seq<Seq<u8>>) -> bool {
    forall|b1: int, b2: int|
        0 <= b1 < 256 && 0 <= b2 < 256 && b1 != b2 && (#[trigger] ctv[b1]).len() > 0 && (
        #[trigger] ctv[b2]).len() > 0 ==> !is_prefix_of(ctv[b1], ctv[b2])
}

/// Greedy prefix matching inverts code concatenation over a prefix-free
/// table that covers every byte of the data.
proof fn lemma_greedy_inverts(data: Seq<u8>, ctv: Seq<Seq<u8>>)
    requires
        ctv.len() == 256,
        table_prefix_free(ctv),
        forall|i: int| 0 <= i < data.len() ==> (#[trigger] ctv[data[i] as int]).len() > 0,
    ensures
        greedy_decode(code_concat(data, ctv), ctv) == data,
    decreases data.len(),
{
    if data.len() == 0 {
        assert(code_concat(data, ctv).len() == 0);
        assert(find_match(code_concat(data, ctv), ctv, 1) is None);
        assert(greedy_decode(code_concat(data, ctv), ctv) =~= data);
    } else {
        let b0 = data[0];
        let c0 = ctv[b0 as int];
        let rest = code_concat(data.skip(1), ctv);
        let stream = code_concat(data, ctv);
        lemma_code_concat_front(data, ctv);
        assert(stream == c0 + rest);
        let k0 = c0.len() as int;
        assert(k0 >= 1);
        assert(stream.take(k0) =~= c0);

        // no shorter prefix matches any code
        assert forall|m: int| 1 <= m < k0 implies code_match_at(
            stream.take(m),
            ctv,
            0,
        ) is None by {
            if code_match_at(stream.take(m), ctv, 0) is Some {
                lemma_code_match_found(stream.take(m), ctv, 0);
                let b = choose|b: u8| code_match_at(stream.take(m), ctv, 0) == Some(b);
                assert(ctv[b as int] == stream.take(m));
                assert(ctv[b as int].len() == m);
                assert(stream.take(m) =~= c0.take(m));
                if b == b0 {
                    assert(c0.len() == m);
                    assert(false);
                } else {
                    assert(is_prefix_of(ctv[b as int], c0));
                    assert(false);
                }
            }
        }

        // at the code's length, exactly the right byte matches
        assert forall|b: int| 0 <= b < b0 as int implies ctv[b] != stream.take(k0) by {
            if ctv[b] == stream.take(k0) {
                assert(ctv[b] == c0);
                assert(c0 =~= c0.take(c0.len() as int));
                assert(is_prefix_of(ctv[b], c0));
            }
        }
        assert forall|b: int| (b0 as int) < b < 256 implies ctv[b] != stream.take(k0) by {
            if ctv[b] == stream.take(k0) {
                assert(ctv[b] == c0);
                assert(c0 =~= c0.take(c0.len() as int));
                assert(is_prefix_of(ctv[b], c0));
            }
        }
        lemma_code_match_first(stream.take(k0), ctv, 0, b0 as int);
        assert(code_match_at(stream.take(k0), ctv, 0) == Some(b0));
        lemma_find_match_from(stream, ctv, 1, k0, b0);
        assert(find_match(stream, ctv, 1) == Some((k0, b0)));

        assert(stream.skip(k0) =~= rest);
        assert(forall|i: int|
            0 <= i < data.len() - 1 ==> (#[trigger] ctv[data.skip(1)[i] as int]).len() > 0);
        lemma_greedy_inverts(data.skip(1), ctv);
        assert(greedy_decode(stream, ctv) == seq![b0] + data.skip(1));
        assert(seq![b0] + data.skip(1) =~= data);
    }
}

/// The table a well-formed tree determines is prefix-free as a 256-entry
/// table, and all its codes are bit strings.
proof fn lemma_ctv_well_formed(t: Node)
    requires
        wf_tree(t),
    ensures
        table_prefix_free(ctv_of_map(code_table_spec(t))),
        forall|b: int|
            0 <= b < 256 ==> is_bit_seq(#[trigger] ctv_of_map(code_table_spec(t))[b]),
{
    let m = code_table_spec(t);
    let ctv = ctv_of_map(m);
    lemma_code_table_prefix_free(t);
    lemma_tree_codes_bits(t);
    assert forall|b: int| 0 <= b < 256 implies is_bit_seq(#[trigger] ctv[b]) by {
        if m.dom().contains(b as u8) {
            if t.character is Some {
                assert(ctv[b] == seq![0u8]);
            } else {
                assert(ctv[b] == tree_codes(t)[b as u8]);
            }
        } else {
            assert(ctv[b] == Seq::<u8>::empty());
        }
    }
    assert forall|b1: int, b2: int|
        0 <= b1 < 256 && 0 <= b2 < 256 && b1 != b2 && (#[trigger] ctv[b1]).len() > 0 && (
        #[trigger] ctv[b2]).len() > 0 implies !is_prefix_of(ctv[b1], ctv[b2]) by {
        assert(m.dom().contains(b1 as u8));
        assert(m.dom().contains(b2 as u8));
        assert(ctv[b1] == m[b1 as u8]);
        assert(ctv[b2] == m[b2 as u8]);
    }
}

/// Concatenated codes from a bit-valued table form a bit stream.
proof fn lemma_code_concat_is_bits(data: Seq<u8>, ctv: Seq<Seq<u8>>)
    requires
        ctv.len() == 256,
        forall|b: int| 0 <= b < 256 ==> is_bit_seq(#[trigger] ctv[b]),
    ensures
        is_bit_seq(code_concat(data, ctv)),
    decreases data.len(),
{
    if data.len() > 0 {
        lemma_code_concat_is_bits(data.drop_last(), ctv);
        let cc = code_concat(data, ctv);
        let head = code_concat(data.drop_last(), ctv);
        assert forall|i: int| 0 <= i < cc.len() implies cc[i] == 0 || #[trigger] cc[i]
            == 1 by {
            if i < head.len() {
                assert(cc[i] == head[i]);
            } else {
                assert(cc[i] == ctv[data.last() as int][i - head.len()]);
                assert(is_bit_seq(ctv[data.last() as int]));
            }
        }
    }
}

/// The tree of a non-empty, bounded stream's own frequency table is
/// well-formed.
pub proof fn lemma_own_tree_wf(data: Seq<u8>)
    requires
        1 <= data.len() <= MAX_SYMBOL_TOTAL,
    ensures
        wf_tree(huffman_tree_spec(freq_table_spec(data))),
        freq_table_spec(data).len() >= 1,
{
    let entries = freq_table_spec(data);
    lemma_count_occ_at(data, 0);
    lemma_freq_entries_cover(data, 0, data[0]);
    let ws = leaves_of(entries);
    lemma_freq_table_total(data);
    lemma_leaves_sum(entries);
    assert forall|m: int| 0 <= m < ws.len() implies wf_tree(#[trigger] ws[m]) by {
        assert(ws[m] == mk_leaf(entries[m].0, entries[m].1));
    }
    lemma_build_tree_rec_wf(ws);
}

/// The Huffman stage inverts itself: packing a stream against the code
/// table built from its own frequency table and decoding the result gives
/// the stream back.
pub proof fn lemma_huffman_stage_round_trip(data: Seq<u8>)
    requires
        1 <= data.len() <= MAX_SYMBOL_TOTAL,
    ensures
        huff_encode_spec(
            data,
            ctv_of_map(code_table_spec(huffman_tree_spec(freq_table_spec(data)))),
        ) matches Ok(enc) && huff_decode_spec(
            enc,
            ctv_of_map(code_table_spec(huffman_tree_spec(freq_table_spec(data)))),
        ) == Ok::<Seq<u8>, CodecError>(data),
{
    let tree = huffman_tree_spec(freq_table_spec(data));
    let ctv = ctv_of_map(code_table_spec(tree));
    lemma_own_tree_wf(data);
    lemma_ctv_well_formed(tree);
    lemma_huffman_encode_ok(data);
    assert(!has_missing_code(data, ctv));
    assert forall|i: int|
        0 <= i < data.len() implies (#[trigger] ctv[data[i] as int]).len() > 0 by {
        assert(!(ctv[data[i] as int].len() == 0));
    }
    let cc = code_concat(data, ctv);
    lemma_code_concat_is_bits(data, ctv);
    let packed = pack_bytes(cc);
    let enc = pack_with_pad(cc);
    lemma_pack_len(cc);
    assert(enc.len() == packed.len() + 1);
    assert(enc.last() == pad_len(cc) as u8);
    assert(enc.drop_last() =~= packed);
    let pad = pad_len(cc);
    assert(0 <= pad < 8);
    let nbits = 8 * (enc.len() - 1);
    assert(nbits == cc.len() + pad);
    assert(pad <= nbits);
    // the unpacked, unpadded stream is the original bit stream
    assert(unpack_bits(packed).len() == nbits);
    assert forall|k: int|
        0 <= k < cc.len() implies #[trigger] unpack_bits(packed).take(nbits - pad)[k]
        == cc[k] by {
        lemma_unpack_pack(cc, k);
    }
    assert(unpack_bits(packed).take(nbits - pad) =~= cc);
    lemma_greedy_inverts(data, ctv);
    assert(huff_decode_spec(enc, ctv) == Ok::<Seq<u8>, CodecError>(data));
}

// --------------------------- size bounds -----------------------------------

/// The number of leaves below a node.
pub open spec fn leaf_count(t: Node) -> int
    decreases t,
{
    match (t.character, t.left, t.right) {
        (Some(_), _, _) => 1,
        (None, Some(l), Some(r)) => leaf_count(*l) + leaf_count(*r),
        _ => 0,
    }
}

/// Every code is shorter than the tree's leaf count.
proof fn lemma_code_len_bound(t: Node)
    requires
        wf_tree(t),
    ensures
        leaf_count(t) >= 1,
        forall|b: u8|
            tree_codes(t).dom().contains(b) ==> (#[trigger] tree_codes(t)[b]).len()
                < leaf_count(t),
    decreases t,
{
    match (t.character, t.left, t.right) {
        (None, Some(l), Some(r)) => {
            lemma_code_len_bound(*l);
            lemma_code_len_bound(*r);
            assert forall|b: u8|
                tree_codes(t).dom().contains(b) implies (#[trigger] tree_codes(t)[b]).len()
                < leaf_count(t) by {
                if prefixed(tree_codes(*r), 1).dom().contains(b) {
                    assert(tree_codes(t)[b] == seq![1u8] + tree_codes(*r)[b]);
                } else {
                    assert(tree_codes(t)[b] == seq![0u8] + tree_codes(*l)[b]);
                }
            }
        },
        _ => {},
    }
}

/// Worklist leaf totals.
spec fn ws_leaves(ws: Seq<Node>) -> int
    decreases ws.len(),
{
    if ws.len() == 0 {
        0
    } else {
        ws_leaves(ws.drop_last()) + leaf_count(ws.last())
    }
}

proof fn lemma_ws_leaves_remove(ws: Seq<Node>, i: int)
    requires
        0 <= i < ws.len(),
    ensures
        ws_leaves(ws.remove(i)) == ws_leaves(ws) - leaf_count(ws[i]),
    decreases ws.len(),
{
    if i == ws.len() - 1 {
        assert(ws.remove(i) =~= ws.drop_last());
    } else {
        assert(ws.remove(i).drop_last() =~= ws.drop_last().remove(i));
        assert(ws.remove(i).last() == ws.last());
        lemma_ws_leaves_remove(ws.drop_last(), i);
    }
}

proof fn lemma_ws_leaves_nonneg(ws: Seq<Node>)
    requires
        forall|m: int| 0 <= m < ws.len() ==> wf_tree(#[trigger] ws[m]),
    ensures
        ws_leaves(ws) >= ws.len(),
    decreases ws.len(),
{
    if ws.len() > 0 {
        assert(forall|m: int| 0 <= m < ws.len() - 1 ==> wf_tree(#[trigger] ws.drop_last()[m]));
        lemma_ws_leaves_nonneg(ws.drop_last());
        lemma_code_len_bound(ws.last());
    }
}

/// The built tree carries exactly the worklist's leaves.
proof fn lemma_build_tree_leaves(ws: Seq<Node>)
    requires
        ws.len() >= 1,
        forall|m: int| 0 <= m < ws.len() ==> wf_tree(#[trigger] ws[m]),
        sum_freqs(ws) <= MAX_SYMBOL_TOTAL,
    ensures
        leaf_count(build_tree_rec(ws)) == ws_leaves(ws),
    decreases ws.len(),
{
    if ws.len() == 1 {
        assert(ws.drop_last() =~= Seq::<Node>::empty());
        assert(ws_leaves(ws.drop_last()) == 0);
        assert(ws.last() == ws[0]);
        assert(ws_leaves(ws) == leaf_count(ws[0]));
        assert(build_tree_rec(ws) == ws[0]);
    } else {
        lemma_merge_once_wf(ws);
        lemma_min_idx_range(ws);
        let i = min_idx(ws);
        let a = ws[i];
        let ws1 = ws.remove(i);
        lemma_min_idx_range(ws1);
        let j = min_idx(ws1);
        let b = ws1[j];
        let ws2 = ws1.remove(j);
        lemma_ws_leaves_remove(ws, i);
        lemma_ws_leaves_remove(ws1, j);
        let merged = mk_internal(a, b);
        assert(leaf_count(merged) == leaf_count(a) + leaf_count(b));
        assert(merge_once(ws) == ws2.push(merged));
        assert(ws2.push(merged).drop_last() =~= ws2);
        assert(ws_leaves(merge_once(ws)) == ws_leaves(ws));
        lemma_build_tree_leaves(merge_once(ws));
    }
}

/// The concatenated codes of a stream are boundedly long: each code is
/// shorter than the alphabet.
pub proof fn lemma_code_concat_len(data: Seq<u8>, ctv: Seq<Seq<u8>>)
    requires
        forall|b: int| 0 <= b < 256 ==> (#[trigger] ctv[b]).len() <= 256,
        ctv.len() == 256,
    ensures
        code_concat(data, ctv).len() <= 256 * data.len(),
    decreases data.len(),
{
    if data.len() > 0 {
        lemma_code_concat_len(data.drop_last(), ctv);
    }
}

/// The codes of a stream's own table are shorter than 256 bits each.
pub proof fn lemma_own_table_code_len(data: Seq<u8>)
    requires
        1 <= data.len() <= MAX_SYMBOL_TOTAL,
    ensures
        forall|b: int|
            0 <= b < 256 ==> (#[trigger] ctv_of_map(
                code_table_spec(huffman_tree_spec(freq_table_spec(data))),
            )[b]).len() <= 256,
{
    let entries = freq_table_spec(data);
    let tree = huffman_tree_spec(entries);
    let ctv = ctv_of_map(code_table_spec(tree));
    lemma_own_tree_wf(data);
    let ws = leaves_of(entries);
    assert forall|m: int| 0 <= m < ws.len() implies wf_tree(#[trigger] ws[m]) by {
        assert(ws[m] == mk_leaf(entries[m].0, entries[m].1));
    }
    lemma_freq_entries_bounds(data, 0);
    lemma_freq_table_total(data);
    lemma_leaves_sum(entries);
    lemma_build_tree_leaves(ws);
    assert(ws_leaves(ws) == ws.len()) by {
        lemma_leaves_flat(entries);
    }
    lemma_code_len_bound(tree);
    assert forall|b: int| 0 <= b < 256 implies (#[trigger] ctv[b]).len() <= 256 by {
        if code_table_spec(tree).dom().contains(b as u8) {
            if tree.character is Some {
                assert(ctv[b] == seq![0u8]);
            } else {
                assert(ctv[b] == tree_codes(tree)[b as u8]);
                assert(tree_codes(tree)[b as u8].len() < leaf_count(tree));
            }
        } else {
            assert(ctv[b] == Seq::<u8>::empty());
        }
    }
}

/// A worklist of bare leaves counts one leaf per entry.
proof fn lemma_leaves_flat(entries: Seq<(u8, u64)>)
    ensures
        ws_leaves(leaves_of(entries)) == entries.len(),
    decreases entries.len(),
{
    if entries.len() > 0 {
        assert(leaves_of(entries).drop_last() =~= leaves_of(entries.drop_last()));
        lemma_leaves_flat(entries.drop_last());
        assert(leaf_count(leaves_of(entries).last()) == 1) by {
            assert(leaves_of(entries).last() == mk_leaf(
                entries.last().0,
                entries.last().1,
            ));
        }
    }
}

/// Structure of the frequency-table entries: ascending symbols starting at
/// the probe, positive counts, boundedly many.
pub proof fn lemma_freq_entries_bounds(l: Seq<u8>, lo: int)
    requires
        0 <= lo <= 256,
        l.len() <= 0xFFFF_FFFF_FFFF_FFFF,
    ensures
        freq_entries(l, lo).len() <= 256 - lo,
        forall|k: int|
            0 <= k < freq_entries(l, lo).len() ==> lo <= (#[trigger] freq_entries(l, lo)[k]).0
                < 256,
        forall|k: int, k2: int|
            0 <= k < k2 < freq_entries(l, lo).len() ==> (#[trigger] freq_entries(l, lo)[k]).0
                < (#[trigger] freq_entries(l, lo)[k2]).0,
        forall|k: int|
            0 <= k < freq_entries(l, lo).len() ==> (#[trigger] freq_entries(l, lo)[k]).1 >= 1,
    decreases 256 - lo,
{
    if lo < 256 {
        lemma_freq_entries_bounds(l, lo + 1);
        lemma_count_bounds(l, lo as u8, lo);
        let head: Seq<(u8, u64)> = if count_occ(l, lo as u8) > 0 {
            seq![(lo as u8, count_occ(l, lo as u8) as u64)]
        } else {
            Seq::empty()
        };
        let fe = freq_entries(l, lo);
        let rest = freq_entries(l, lo + 1);
        assert(fe == head + rest);
        assert forall|k: int| 0 <= k < fe.len() implies lo <= (#[trigger] fe[k]).0 < 256 by {
            if k >= head.len() {
                assert(fe[k] == rest[k - head.len()]);
            }
        }
        assert forall|k: int, k2: int|
            0 <= k < k2 < fe.len() implies (#[trigger] fe[k]).0 < (#[trigger] fe[k2]).0 by {
            assert(fe[k2] == rest[k2 - head.len()]);
            if k >= head.len() {
                assert(fe[k] == rest[k - head.len()]);
            }
        }
        assert forall|k: int| 0 <= k < fe.len() implies (#[trigger] fe[k]).1 >= 1 by {
            if k >= head.len() {
                assert(fe[k] == rest[k - head.len()]);
            }
        }
    }
}

} // verus!
