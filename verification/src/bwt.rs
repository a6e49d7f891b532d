use vstd::prelude::*;
use crate::error::CodecError;

verus! {

// ---------------------------------------------------------------------------
// The Burrows-Wheeler transform.
//
// The forward transform sorts all cyclic rotations of the block
// lexicographically, emits the last byte of each sorted rotation, and records
// where the original block landed. The inverse transform rebuilds the block
// by walking the last-to-first mapping backwards from that index.
// ---------------------------------------------------------------------------

/// The cyclic rotation of `x` that starts at position `i`.
pub open spec fn rotation(x: Seq<u8>, i: int) -> Seq<u8> {
    x.skip(i) + x.take(i)
}

/// All cyclic rotations of `x`, in starting-position order.
pub open spec fn rotations(x: Seq<u8>) -> Seq<Seq<u8>> {
    Seq::new(x.len(), |i: int| rotation(x, i))
}

/// Strict lexicographic order on byte sequences.
pub open spec fn lex_lt(a: Seq<u8>, b: Seq<u8>) -> bool
    decreases a.len(),
{
    if b.len() == 0 {
        false
    } else if a.len() == 0 {
        true
    } else if a[0] < b[0] {
        true
    } else if a[0] > b[0] {
        false
    } else {
        lex_lt(a.skip(1), b.skip(1))
    }
}

/// Where a stable insertion sort places `x` in the sorted run `s`: after
/// every entry that is not strictly greater than `x`.
pub open spec fn insert_pos(s: Seq<Seq<u8>>, x: Seq<u8>) -> int
    decreases s.len(),
{
    if s.len() == 0 {
        0
    } else if lex_lt(x, s[0]) {
        0
    } else {
        1 + insert_pos(s.skip(1), x)
    }
}

/// One stable insertion step.
pub open spec fn sorted_insert(s: Seq<Seq<u8>>, x: Seq<u8>) -> Seq<Seq<u8>> {
    s.insert(insert_pos(s, x), x)
}

/// Stable insertion sort of a list of rows under lexicographic order.
pub open spec fn sort_rows(rows: Seq<Seq<u8>>) -> Seq<Seq<u8>>
    decreases rows.len(),
{
    if rows.len() == 0 {
        Seq::empty()
    } else {
        sorted_insert(sort_rows(rows.drop_last()), rows.last())
    }
}

/// The rotations of `x` in sorted order.
pub open spec fn sorted_rotations(x: Seq<u8>) -> Seq<Seq<u8>> {
    sort_rows(rotations(x))
}

/// The position of the first row equal to `x`.
pub open spec fn index_of_row(rows: Seq<Seq<u8>>, x: Seq<u8>) -> int
    decreases rows.len(),
{
    if rows.len() == 0 {
        0
    } else if rows[0] == x {
        0
    } else {
        1 + index_of_row(rows.skip(1), x)
    }
}

/// The last column of the sorted rotation matrix of `x`.
pub open spec fn bwt_last_col_spec(x: Seq<u8>) -> Seq<u8> {
    Seq::new(x.len(), |j: int| sorted_rotations(x)[j].last())
}

/// The sorted position of the original (unrotated) block.
pub open spec fn bwt_index_spec(x: Seq<u8>) -> int {
    index_of_row(sorted_rotations(x), x)
}

// --------------------------- helper lemmas ---------------------------------

/// What sits at position `k` of the rotation starting at `i`.
pub proof fn lemma_rotation_index(x: Seq<u8>, i: int, k: int)
    requires
        0 <= i < x.len(),
        0 <= k < x.len(),
    ensures
        rotation(x, i).len() == x.len(),
        k < x.len() - i ==> rotation(x, i)[k] == x[i + k],
        k >= x.len() - i ==> rotation(x, i)[k] == x[k - (x.len() - i)],
{
}

/// `insert_pos` is exactly the position a first-match scan stops at.
proof fn lemma_insert_pos_unique(s: Seq<Seq<u8>>, x: Seq<u8>, p: int)
    requires
        0 <= p <= s.len(),
        forall|j: int| 0 <= j < p ==> !lex_lt(x, s[j]),
        p < s.len() ==> lex_lt(x, s[p]),
    ensures
        insert_pos(s, x) == p,
    decreases s.len(),
{
    if p > 0 {
        assert(forall|j: int| 0 <= j < p - 1 ==> s.skip(1)[j] == s[j + 1]);
        if p < s.len() {
            assert(s.skip(1)[p - 1] == s[p]);
        }
        lemma_insert_pos_unique(s.skip(1), x, p - 1);
    }
}

/// The first row equal to `x` really is in range and equals `x`.
pub proof fn lemma_index_of_row_works(rows: Seq<Seq<u8>>, x: Seq<u8>)
    requires
        rows.contains(x),
    ensures
        0 <= index_of_row(rows, x) < rows.len(),
        rows[index_of_row(rows, x)] == x,
    decreases rows.len(),
{
    if rows.len() > 0 && rows[0] != x {
        let j = choose|j: int| 0 <= j < rows.len() && rows[j] == x;
        assert(rows.skip(1)[j - 1] == x);
        assert(rows.skip(1).contains(x));
        lemma_index_of_row_works(rows.skip(1), x);
    }
}

/// `index_of_row` is exactly the position a first-match scan stops at.
pub proof fn lemma_index_of_row_unique(rows: Seq<Seq<u8>>, x: Seq<u8>, p: int)
    requires
        0 <= p < rows.len(),
        rows[p] == x,
        forall|j: int| 0 <= j < p ==> rows[j] != x,
    ensures
        index_of_row(rows, x) == p,
    decreases rows.len(),
{
    if p > 0 {
        assert(forall|j: int| 0 <= j < p - 1 ==> rows.skip(1)[j] == rows[j + 1]);
        assert(rows.skip(1)[p - 1] == rows[p]);
        lemma_index_of_row_unique(rows.skip(1), x, p - 1);
    }
}

/// Inserting keeps every row that was present, and adds the new one.
proof fn lemma_sorted_insert_contains(s: Seq<Seq<u8>>, x: Seq<u8>, e: Seq<u8>)
    ensures
        sorted_insert(s, x).contains(e) <==> (s.contains(e) || e == x),
{
    let p = insert_pos(s, x);
    lemma_insert_pos_range(s, x);
    let t = s.insert(p, x);
    if s.contains(e) {
        let j = choose|j: int| 0 <= j < s.len() && s[j] == e;
        if j < p {
            assert(t[j] == e);
        } else {
            assert(t[j + 1] == e);
        }
    }
    assert(t[p] == x);
    if t.contains(e) {
        let j = choose|j: int| 0 <= j < t.len() && t[j] == e;
        if j < p {
            assert(s[j] == e);
        } else if j > p {
            assert(s[j - 1] == e);
        }
    }
}

/// The insertion position lies inside the run.
proof fn lemma_insert_pos_range(s: Seq<Seq<u8>>, x: Seq<u8>)
    ensures
        0 <= insert_pos(s, x) <= s.len(),
    decreases s.len(),
{
    if s.len() > 0 && !lex_lt(x, s[0]) {
        lemma_insert_pos_range(s.skip(1), x);
    }
}

/// Sorting neither adds nor removes rows.
pub proof fn lemma_sort_rows_contains(rows: Seq<Seq<u8>>, e: Seq<u8>)
    ensures
        sort_rows(rows).contains(e) <==> rows.contains(e),
    decreases rows.len(),
{
    if rows.len() > 0 {
        lemma_sort_rows_contains(rows.drop_last(), e);
        lemma_sorted_insert_contains(sort_rows(rows.drop_last()), rows.last(), e);
        if rows.contains(e) {
            let j = choose|j: int| 0 <= j < rows.len() && rows[j] == e;
            if j < rows.len() - 1 {
                assert(rows.drop_last()[j] == e);
            }
        }
        if rows.drop_last().contains(e) {
            let j = choose|j: int| 0 <= j < rows.len() - 1 && rows.drop_last()[j] == e;
            assert(rows[j] == e);
        }
    }
}

/// Every row of the sorted rotation matrix is a rotation, hence has the
/// block's length, and the matrix has one row per byte of the block.
pub proof fn lemma_sorted_rotations_shape(x: Seq<u8>)
    ensures
        sorted_rotations(x).len() == x.len(),
        forall|j: int|
            0 <= j < x.len() ==> (#[trigger] sorted_rotations(x)[j]).len() == x.len(),
{
    lemma_sort_rows_len(rotations(x));
    assert forall|j: int|
        0 <= j < x.len() implies (#[trigger] sorted_rotations(x)[j]).len() == x.len() by {
        let row = sorted_rotations(x)[j];
        assert(sorted_rotations(x).contains(row));
        lemma_sort_rows_contains(rotations(x), row);
        let i = choose|i: int| 0 <= i < rotations(x).len() && rotations(x)[i] == row;
        assert(rotation(x, i).len() == x.len());
    }
}

/// Sorting preserves the number of rows.
pub proof fn lemma_sort_rows_len(rows: Seq<Seq<u8>>)
    ensures
        sort_rows(rows).len() == rows.len(),
    decreases rows.len(),
{
    if rows.len() > 0 {
        lemma_sort_rows_len(rows.drop_last());
        lemma_insert_pos_range(sort_rows(rows.drop_last()), rows.last());
    }
}

// --------------------------- executable code --------------------------------

/// Compares the rotations of `data` starting at `i` and at `j` under strict
/// lexicographic order.
fn lex_less_rot(data: &[u8], i: usize, j: usize) -> (r: bool)
    requires
        i < data.len(),
        j < data.len(),
    ensures
        r == lex_lt(rotation(data@, i as int), rotation(data@, j as int)),
{
    let n = data.len();
    let ghost ra = rotation(data@, i as int);
    let ghost rb = rotation(data@, j as int);
    let mut k: usize = 0;
    proof {
        assert(ra.skip(0) =~= ra);
        assert(rb.skip(0) =~= rb);
    }
    loop
        invariant
            k <= n,
            n == data.len(),
            i < n,
            j < n,
            ra == rotation(data@, i as int),
            rb == rotation(data@, j as int),
            lex_lt(ra, rb) == lex_lt(ra.skip(k as int), rb.skip(k as int)),
        ensures
            !lex_lt(ra, rb),
        decreases n - k,
    {
        if k >= n {
            proof {
                assert(ra.skip(k as int) =~= Seq::<u8>::empty());
                assert(rb.skip(k as int) =~= Seq::<u8>::empty());
            }
            break;
        }
        proof {
            lemma_rotation_index(data@, i as int, k as int);
            lemma_rotation_index(data@, j as int, k as int);
        }
        let av = if k < n - i { data[i + k] } else { data[k - (n - i)] };
        let bv = if k < n - j { data[j + k] } else { data[k - (n - j)] };
        proof {
            assert(av == ra[k as int]);
            assert(bv == rb[k as int]);
            assert(ra.skip(k as int)[0] == ra[k as int]);
            assert(rb.skip(k as int)[0] == rb[k as int]);
        }
        if av != bv {
            proof {
                assert(lex_lt(ra.skip(k as int), rb.skip(k as int)) == (av < bv));
            }
            return av < bv;
        }
        proof {
            assert(ra.skip(k as int).skip(1) =~= ra.skip(k + 1));
            assert(rb.skip(k as int).skip(1) =~= rb.skip(k + 1));
        }
        k = k + 1;
    }
    proof {
        assert(!lex_lt(ra, rb));
    }
    false
}

/// Tests whether the rotations of `data` starting at `i` and at `j` are
/// equal as byte sequences.
fn rotations_equal(data: &[u8], i: usize, j: usize) -> (r: bool)
    requires
        i < data.len(),
        j < data.len(),
    ensures
        r == (rotation(data@, i as int) == rotation(data@, j as int)),
{
    let n = data.len();
    let ghost ra = rotation(data@, i as int);
    let ghost rb = rotation(data@, j as int);
    let mut k: usize = 0;
    while k < n
        invariant
            k <= n,
            n == data.len(),
            i < n,
            j < n,
            ra == rotation(data@, i as int),
            rb == rotation(data@, j as int),
            forall|m: int| 0 <= m < k ==> ra[m] == rb[m],
        decreases n - k,
    {
        proof {
            lemma_rotation_index(data@, i as int, k as int);
            lemma_rotation_index(data@, j as int, k as int);
        }
        let av = if k < n - i { data[i + k] } else { data[k - (n - i)] };
        let bv = if k < n - j { data[j + k] } else { data[k - (n - j)] };
        if av != bv {
            proof {
                assert(ra[k as int] != rb[k as int]);
            }
            return false;
        }
        k = k + 1;
    }
    proof {
        lemma_rotation_index(data@, i as int, 0);
        lemma_rotation_index(data@, j as int, 0);
        assert(ra =~= rb);
    }
    true
}

/// The rows named by a list of rotation start positions.
pub open spec fn rows_of(x: Seq<u8>, idxs: Seq<usize>) -> Seq<Seq<u8>> {
    idxs.map_values(|k: usize| rotation(x, k as int))
}

/// Stable insertion sort of the rotation start positions of `data` under
/// lexicographic order of the rotations; the rotations themselves are never
/// materialized.
fn sort_rotation_positions(data: &[u8]) -> (r: Vec<usize>)
    requires
        data.len() > 0,
    ensures
        r@.len() == data@.len(),
        forall|m: int| 0 <= m < r@.len() ==> r@[m] < data@.len(),
        rows_of(data@, r@) == sorted_rotations(data@),
{
    let n = data.len();
    let mut sorted: Vec<usize> = Vec::new();
    let mut i: usize = 0;
    proof {
        assert(rows_of(data@, sorted@) =~= sort_rows(rotations(data@).take(0)));
    }
    while i < n
        invariant
            i <= n,
            n == data.len(),
            n > 0,
            sorted@.len() == i,
            forall|m: int| 0 <= m < i ==> sorted@[m] < n,
            rows_of(data@, sorted@) == sort_rows(rotations(data@).take(i as int)),
        decreases n - i,
    {
        let ghost run = rows_of(data@, sorted@);
        let ghost xrow = rotation(data@, i as int);
        let mut pos: usize = 0;
        while pos < sorted.len() && !lex_less_rot(data, i, sorted[pos])
            invariant
                pos <= sorted@.len(),
                n == data.len(),
                i < n,
                sorted@.len() == i,
                forall|m: int| 0 <= m < i ==> sorted@[m] < n,
                run == rows_of(data@, sorted@),
                xrow == rotation(data@, i as int),
                forall|m: int| 0 <= m < pos ==> !lex_lt(xrow, run[m]),
            decreases sorted@.len() - pos,
        {
            pos = pos + 1;
        }
        proof {
            if pos < sorted@.len() {
                assert(lex_lt(xrow, run[pos as int]));
            }
            lemma_insert_pos_unique(run, xrow, pos as int);
        }
        sorted.insert(pos, i);
        i = i + 1;
        proof {
            let rots = rotations(data@);
            assert(rows_of(data@, sorted@) =~= run.insert(pos as int, xrow));
            assert(rots.take(i as int).drop_last() =~= rots.take(i - 1));
            assert(rots.take(i as int).last() == rotation(data@, i - 1));
        }
    }
    proof {
        assert(rotations(data@).take(n as int) =~= rotations(data@));
    }
    sorted
}

/// Reads the final byte of each sorted rotation off the original block.
fn extract_last_column(data: &[u8], sorted: &Vec<usize>) -> (r: Vec<u8>)
    requires
        data.len() > 0,
        sorted@.len() == data@.len(),
        forall|m: int| 0 <= m < sorted@.len() ==> sorted@[m] < data@.len(),
        rows_of(data@, sorted@) == sorted_rotations(data@),
    ensures
        r@ == bwt_last_col_spec(data@),
{
    let n = data.len();
    let ghost sorted_rows = sorted_rotations(data@);
    let mut last_col: Vec<u8> = Vec::new();
    let mut j: usize = 0;
    while j < n
        invariant
            j <= n,
            n == data.len(),
            n > 0,
            sorted@.len() == n,
            forall|m: int| 0 <= m < n ==> sorted@[m] < n,
            rows_of(data@, sorted@) == sorted_rows,
            sorted_rows == sorted_rotations(data@),
            last_col@ =~= bwt_last_col_spec(data@).take(j as int),
        decreases n - j,
    {
        let k = sorted[j];
        let v = if k == 0 { data[n - 1] } else { data[k - 1] };
        proof {
            lemma_rotation_index(data@, k as int, n - 1);
            assert(sorted_rows[j as int] == rotation(data@, k as int));
            assert(rotation(data@, k as int).last() == v);
        }
        last_col.push(v);
        j = j + 1;
    }
    proof {
        assert(last_col@ =~= bwt_last_col_spec(data@));
    }
    last_col
}

/// Finds the sorted position of the original (unrotated) block.
fn find_original_index(data: &[u8], sorted: &Vec<usize>) -> (idx: usize)
    requires
        data.len() > 0,
        sorted@.len() == data@.len(),
        forall|m: int| 0 <= m < sorted@.len() ==> sorted@[m] < data@.len(),
        rows_of(data@, sorted@) == sorted_rotations(data@),
    ensures
        idx == bwt_index_spec(data@),
        idx < data@.len(),
{
    let n = data.len();
    let ghost sorted_rows = sorted_rotations(data@);
    proof {
        let rots = rotations(data@);
        assert(rots[0] == rotation(data@, 0));
        assert(rots.contains(rotation(data@, 0)));
        lemma_sort_rows_contains(rots, rotation(data@, 0));
        assert(rotation(data@, 0) =~= data@);
        assert(sorted_rows.contains(data@));
    }
    let mut idx: usize = 0;
    loop
        invariant
            idx <= n,
            n == data.len(),
            n > 0,
            sorted@.len() == n,
            forall|m: int| 0 <= m < n ==> sorted@[m] < n,
            rows_of(data@, sorted@) == sorted_rows,
            sorted_rows == sorted_rotations(data@),
            sorted_rows.contains(data@),
            forall|m: int| 0 <= m < idx ==> sorted_rows[m] != data@,
        ensures
            idx < n,
            sorted_rows[idx as int] == data@,
            forall|m: int| 0 <= m < idx ==> sorted_rows[m] != data@,
        decreases n - idx,
    {
        proof {
            if idx == n {
                let w = choose|w: int| 0 <= w < sorted_rows.len() && sorted_rows[w] == data@;
                assert(false);
            }
        }
        if rotations_equal(data, sorted[idx], 0) {
            proof {
                assert(rotation(data@, 0) =~= data@);
                assert(sorted_rows[idx as int] == rotation(data@, sorted@[idx as int] as int));
            }
            break;
        }
        proof {
            assert(rotation(data@, 0) =~= data@);
            assert(sorted_rows[idx as int] == rotation(data@, sorted@[idx as int] as int));
        }
        idx = idx + 1;
    }
    proof {
        lemma_index_of_row_unique(sorted_rows, data@, idx as int);
    }
    idx
}

/// The forward Burrows-Wheeler transform: the last column of the sorted
/// rotation matrix together with the sorted position of the original block.
/// The empty block is rejected.
pub fn bwt_encode(data: &[u8]) -> (r: Result<(Vec<u8>, usize), CodecError>)
    ensures
        data@.len() == 0 ==> r == Err::<(Vec<u8>, usize), CodecError>(CodecError::EmptyInput),
        data@.len() > 0 ==> (r matches Ok(p) && p.0@ == bwt_last_col_spec(data@)
            && p.1 == bwt_index_spec(data@) && p.1 < data@.len()),
{
    if data.len() == 0 {
        return Err(CodecError::EmptyInput);
    }
    let sorted = sort_rotation_positions(data);
    let last_col = extract_last_column(data, &sorted);
    let idx = find_original_index(data, &sorted);
    Ok((last_col, idx))
}

// --------------------------- the inverse transform --------------------------

/// How many entries of `l` are strictly below the value `bound`.
pub open spec fn count_lt(l: Seq<u8>, bound: int) -> int
    decreases l.len(),
{
    if l.len() == 0 {
        0
    } else {
        count_lt(l.drop_last(), bound) + if l.last() < bound { 1int } else { 0int }
    }
}

/// How many entries of `l` equal the byte `b`.
pub open spec fn count_occ(l: Seq<u8>, b: u8) -> int
    decreases l.len(),
{
    if l.len() == 0 {
        0
    } else {
        count_occ(l.drop_last(), b) + if l.last() == b { 1int } else { 0int }
    }
}

/// The last-to-first mapping: the j-th occurrence of a byte in the last
/// column maps to the j-th occurrence of that byte in the sorted first
/// column, whose start is the number of strictly smaller bytes.
pub open spec fn lf_map(l: Seq<u8>, i: int) -> int {
    count_lt(l, l[i] as int) + count_occ(l.take(i), l[i])
}

/// Iterating the last-to-first mapping `k` times from `idx`.
pub open spec fn iter_lf(l: Seq<u8>, idx: int, k: nat) -> int
    decreases k,
{
    if k == 0 {
        idx
    } else {
        lf_map(l, iter_lf(l, idx, (k - 1) as nat))
    }
}

/// The last `k` bytes of the decoded block: walking the mapping backwards
/// from `idx` prepends one byte per step.
pub open spec fn bwt_walk(l: Seq<u8>, idx: int, k: nat) -> Seq<u8>
    decreases k,
{
    if k == 0 {
        Seq::empty()
    } else {
        seq![l[iter_lf(l, idx, (k - 1) as nat)]] + bwt_walk(l, idx, (k - 1) as nat)
    }
}

/// What the inverse transform returns for a last column and an index.
pub open spec fn bwt_decode_spec(l: Seq<u8>, idx: int) -> Seq<u8> {
    bwt_walk(l, idx, l.len() as nat)
}

/// Occurrence counts never exceed the length counted over.
pub proof fn lemma_count_bounds(l: Seq<u8>, b: u8, bound: int)
    ensures
        0 <= count_occ(l, b) <= l.len(),
        0 <= count_lt(l, bound) <= l.len(),
    decreases l.len(),
{
    if l.len() > 0 {
        lemma_count_bounds(l.drop_last(), b, bound);
    }
}

/// No byte value is below zero.
pub proof fn lemma_count_lt_zero(l: Seq<u8>)
    ensures
        count_lt(l, 0) == 0,
    decreases l.len(),
{
    if l.len() > 0 {
        lemma_count_lt_zero(l.drop_last());
    }
}

/// Every byte value is below 256, so `count_lt` at 256 counts everything.
pub proof fn lemma_count_lt_all(l: Seq<u8>)
    ensures
        count_lt(l, 256) == l.len(),
    decreases l.len(),
{
    if l.len() > 0 {
        lemma_count_lt_all(l.drop_last());
    }
}

/// Raising the bound by one adds exactly the occurrences of the old bound.
pub proof fn lemma_count_lt_split(l: Seq<u8>, b: u8)
    ensures
        count_lt(l, b + 1) == count_lt(l, b as int) + count_occ(l, b),
    decreases l.len(),
{
    if l.len() > 0 {
        lemma_count_lt_split(l.drop_last(), b);
    }
}

/// A prefix never holds more occurrences than the whole sequence.
pub proof fn lemma_count_occ_take_le(l: Seq<u8>, b: u8, i: int)
    requires
        0 <= i <= l.len(),
    ensures
        count_occ(l.take(i), b) <= count_occ(l, b),
    decreases l.len(),
{
    if i == l.len() {
        assert(l.take(i) =~= l);
    } else {
        assert(l.take(i) =~= l.drop_last().take(i));
        lemma_count_occ_take_le(l.drop_last(), b, i);
    }
}

/// Bytes below `b` and bytes equal to `b` are disjoint populations.
pub proof fn lemma_count_lt_occ_disjoint(l: Seq<u8>, b: u8)
    ensures
        count_lt(l, b as int) + count_occ(l, b) <= l.len(),
    decreases l.len(),
{
    if l.len() > 0 {
        lemma_count_lt_occ_disjoint(l.drop_last(), b);
    }
}

/// The last-to-first mapping stays inside the column.
pub proof fn lemma_lf_in_range(l: Seq<u8>, i: int)
    requires
        0 <= i < l.len(),
    ensures
        0 <= lf_map(l, i) < l.len(),
{
    let b = l[i];
    lemma_count_bounds(l, b, b as int);
    lemma_count_bounds(l.take(i), b, b as int);
    assert(l.take(i + 1).drop_last() =~= l.take(i));
    assert(l.take(i + 1).last() == b);
    assert(count_occ(l.take(i + 1), b) == count_occ(l.take(i), b) + 1);
    lemma_count_occ_take_le(l, b, i + 1);
    lemma_count_lt_occ_disjoint(l, b);
}

/// The inverse Burrows-Wheeler transform: rebuilds the block from its last
/// column and the sorted position of the original rotation, using one
/// occurrence counter per byte value rather than a quadratic rescan.
pub fn bwt_decode(bwt_output: &[u8], original_index: usize) -> (r: Vec<u8>)
    requires
        bwt_output@.len() > 0 ==> original_index < bwt_output@.len(),
    ensures
        r@ == bwt_decode_spec(bwt_output@, original_index as int),
{
    let n = bwt_output.len();
    let ghost l = bwt_output@;
    if n == 0 {
        let empty: Vec<u8> = Vec::new();
        proof {
            assert(empty@ =~= bwt_decode_spec(l, original_index as int));
        }
        return empty;
    }

    // Histogram of byte occurrences over the whole column.
    let mut hist: Vec<usize> = Vec::new();
    let mut b: usize = 0;
    while b < 256
        invariant
            b <= 256,
            hist@.len() == b,
            forall|c: int| 0 <= c < b ==> hist@[c] == 0,
        decreases 256 - b,
    {
        hist.push(0);
        b = b + 1;
    }
    let mut i: usize = 0;
    proof {
        assert forall|c: u8| #[trigger] count_occ(l.take(0), c) == 0 by {
            assert(l.take(0) =~= Seq::<u8>::empty());
        }
    }
    while i < n
        invariant
            i <= n,
            n == l.len(),
            l == bwt_output@,
            hist@.len() == 256,
            forall|c: u8| hist@[c as int] == count_occ(l.take(i as int), c),
        decreases n - i,
    {
        let c = bwt_output[i] as usize;
        proof {
            lemma_count_bounds(l.take(i as int), l[i as int], 0);
        }
        let h = hist[c];
        hist.set(c, h + 1);
        i = i + 1;
        proof {
            assert(l.take(i as int).drop_last() =~= l.take(i - 1));
            assert(l.take(i as int).last() == l[i - 1]);
            assert forall|c2: u8| hist@[c2 as int] == count_occ(l.take(i as int), c2) by {
                assert(count_occ(l.take(i as int), c2) == count_occ(l.take(i - 1), c2)
                    + if l[i - 1] == c2 { 1int } else { 0int });
            }
        }
    }
    proof {
        assert(l.take(n as int) =~= l);
    }

    // Start of each byte's bucket in the sorted first column.
    let mut starts: Vec<usize> = Vec::new();
    let mut acc: usize = 0;
    let mut b2: usize = 0;
    proof {
        lemma_count_lt_zero(l);
    }
    while b2 < 256
        invariant
            b2 <= 256,
            n == l.len(),
            hist@.len() == 256,
            forall|c: u8| hist@[c as int] == count_occ(l, c),
            starts@.len() == b2,
            acc == count_lt(l, b2 as int),
            forall|c: int| 0 <= c < b2 ==> starts@[c] == count_lt(l, c),
        decreases 256 - b2,
    {
        starts.push(acc);
        proof {
            lemma_count_lt_split(l, b2 as u8);
            lemma_count_bounds(l, b2 as u8, b2 + 1);
        }
        acc = acc + hist[b2];
        b2 = b2 + 1;
    }

    // Last-to-first mapping via per-byte occurrence counters.
    let mut seen: Vec<usize> = Vec::new();
    let mut b3: usize = 0;
    while b3 < 256
        invariant
            b3 <= 256,
            seen@.len() == b3,
            forall|c: int| 0 <= c < b3 ==> seen@[c] == 0,
        decreases 256 - b3,
    {
        seen.push(0);
        b3 = b3 + 1;
    }
    let mut lf_arr: Vec<usize> = Vec::new();
    let mut i2: usize = 0;
    proof {
        assert forall|c: u8| #[trigger] count_occ(l.take(0), c) == 0 by {
            assert(l.take(0) =~= Seq::<u8>::empty());
        }
    }
    while i2 < n
        invariant
            i2 <= n,
            n == l.len(),
            l == bwt_output@,
            starts@.len() == 256,
            seen@.len() == 256,
            forall|c: int| 0 <= c < 256 ==> starts@[c] == count_lt(l, c),
            forall|c: u8| seen@[c as int] == count_occ(l.take(i2 as int), c),
            lf_arr@.len() == i2,
            forall|j: int| 0 <= j < i2 ==> lf_arr@[j] == lf_map(l, j) && lf_arr@[j] < n,
        decreases n - i2,
    {
        let c = bwt_output[i2] as usize;
        proof {
            lemma_lf_in_range(l, i2 as int);
        }
        let v = starts[c] + seen[c];
        lf_arr.push(v);
        let sc = seen[c];
        seen.set(c, sc + 1);
        i2 = i2 + 1;
        proof {
            assert(l.take(i2 as int).drop_last() =~= l.take(i2 - 1));
            assert(l.take(i2 as int).last() == l[i2 - 1]);
            assert forall|c2: u8| seen@[c2 as int] == count_occ(l.take(i2 as int), c2) by {
                assert(count_occ(l.take(i2 as int), c2) == count_occ(l.take(i2 - 1), c2)
                    + if l[i2 - 1] == c2 { 1int } else { 0int });
            }
        }
    }

    // Walk the mapping backwards from the stored index, filling the block
    // right to left.
    let mut original: Vec<u8> = Vec::new();
    let mut z: usize = 0;
    while z < n
        invariant
            z <= n,
            original@.len() == z,
        decreases n - z,
    {
        original.push(0);
        z = z + 1;
    }
    let ghost idx0 = original_index as int;
    let mut idx: usize = original_index;
    let mut i3: usize = n;
    proof {
        assert(original@.skip(n as int) =~= bwt_walk(l, idx0, 0));
    }
    while i3 > 0
        invariant
            i3 <= n,
            n == l.len(),
            l == bwt_output@,
            idx < n,
            original@.len() == n,
            lf_arr@.len() == n,
            forall|j: int| 0 <= j < n ==> lf_arr@[j] == lf_map(l, j) && lf_arr@[j] < n,
            idx == iter_lf(l, idx0, (n - i3) as nat),
            original@.skip(i3 as int) == bwt_walk(l, idx0, (n - i3) as nat),
        decreases i3,
    {
        i3 = i3 - 1;
        let ghost before = original@;
        original.set(i3, bwt_output[idx]);
        proof {
            assert(original@.skip(i3 as int) =~= seq![l[idx as int]] + before.skip(i3 + 1));
            assert(iter_lf(l, idx0, (n - i3) as nat)
                == lf_map(l, iter_lf(l, idx0, (n - i3 - 1) as nat)));
        }
        idx = lf_arr[idx];
    }
    proof {
        assert(original@.skip(0) =~= original@);
    }
    original
}

} // verus!
