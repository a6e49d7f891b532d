use vstd::prelude::*;
use vstd::relations::total_ordering;
use vstd::relations::sorted_by;
use vstd::seq_lib::lemma_multiset_commutative;
use vstd::seq_lib::lemma_sorted_unique;
use crate::bwt::lex_lt;
use crate::bwt::rotation;
use crate::bwt::rotations;
use crate::bwt::sort_rows;
use crate::bwt::sorted_insert;
use crate::bwt::insert_pos;
use crate::bwt::sorted_rotations;
use crate::bwt::count_occ;
use crate::bwt::count_lt;
use crate::bwt::bwt_last_col_spec;
use crate::bwt::bwt_index_spec;
use crate::bwt::bwt_decode_spec;
use crate::bwt::bwt_walk;
use crate::bwt::iter_lf;
use crate::bwt::lf_map;
use crate::bwt::lemma_rotation_index;
use crate::bwt::lemma_sorted_rotations_shape;
use crate::bwt::lemma_sort_rows_contains;
use crate::bwt::lemma_index_of_row_works;
use crate::bwt::lemma_lf_in_range;
use crate::bwt::lemma_count_occ_take_le;

verus! {

// ---------------------------------------------------------------------------
// The inverse Burrows-Wheeler transform really inverts the forward one.
//
// This module develops the classical argument: the sorted rotation matrix
// is a sorted permutation of all rotations; its first column, read off the
// occurrence counts of the last column, locates for every row the row that
// is its right-rotation; walking that mapping backwards from the original
// block's row therefore spells the block.
// ---------------------------------------------------------------------------

/// Weak lexicographic order, as the negation of the strict one.
pub open spec fn lex_leq(a: Seq<u8>, b: Seq<u8>) -> bool {
    !lex_lt(b, a)
}

/// The order relation handed to the sorted-sequence lemmas.
pub open spec fn lex_leq_fn() -> spec_fn(Seq<u8>, Seq<u8>) -> bool {
    |a: Seq<u8>, b: Seq<u8>| lex_leq(a, b)
}

/// Strict lexicographic order never holds both ways.
proof fn lemma_lex_lt_asym(a: Seq<u8>, b: Seq<u8>)
    ensures
        !(lex_lt(a, b) && lex_lt(b, a)),
    decreases a.len(),
{
    if a.len() > 0 && b.len() > 0 && a[0] == b[0] {
        lemma_lex_lt_asym(a.skip(1), b.skip(1));
    }
}

/// Two distinct sequences compare strictly one way or the other.
proof fn lemma_lex_lt_connected(a: Seq<u8>, b: Seq<u8>)
    requires
        a != b,
    ensures
        lex_lt(a, b) || lex_lt(b, a),
    decreases a.len(),
{
    if a.len() == 0 {
        assert(b.len() > 0) by {
            if b.len() == 0 {
                assert(a =~= b);
            }
        }
    } else if b.len() > 0 && a[0] == b[0] {
        assert(a.skip(1) != b.skip(1)) by {
            if a.skip(1) == b.skip(1) {
                assert(a.skip(1).len() == a.len() - 1);
                assert(b.skip(1).len() == b.len() - 1);
                assert(a.len() == b.len());
                assert forall|i: int| 0 <= i < a.len() implies a[i] == b[i] by {
                    if i > 0 {
                        assert(a.skip(1)[i - 1] == a[i]);
                        assert(b.skip(1)[i - 1] == b[i]);
                    }
                }
                assert(a =~= b);
            }
        }
        lemma_lex_lt_connected(a.skip(1), b.skip(1));
    }
}

/// Strict lexicographic order is transitive.
proof fn lemma_lex_lt_trans(a: Seq<u8>, b: Seq<u8>, c: Seq<u8>)
    requires
        lex_lt(a, b),
        lex_lt(b, c),
    ensures
        lex_lt(a, c),
    decreases a.len(),
{
    if a.len() > 0 && b.len() > 0 && c.len() > 0 && a[0] == b[0] && b[0] == c[0] {
        lemma_lex_lt_trans(a.skip(1), b.skip(1), c.skip(1));
    }
}

/// The weak order is a total ordering in the library's sense.
proof fn lemma_lex_total_ordering()
    ensures
        total_ordering(lex_leq_fn()),
{
    let leq = lex_leq_fn();
    assert forall|x: Seq<u8>| #[trigger] leq(x, x) by {
        lemma_lex_lt_asym(x, x);
    }
    assert forall|x: Seq<u8>, y: Seq<u8>| #[trigger] leq(x, y) && #[trigger] leq(y, x)
        implies x == y by {
        if x != y {
            lemma_lex_lt_connected(x, y);
        }
    }
    assert forall|x: Seq<u8>, y: Seq<u8>, z: Seq<u8>| #[trigger] leq(x, y) && #[trigger] leq(
        y,
        z,
    ) implies leq(x, z) by {
        if lex_lt(z, x) {
            if x == y {
            } else if y == z {
            } else {
                lemma_lex_lt_connected(x, y);
                lemma_lex_lt_connected(y, z);
                lemma_lex_lt_trans(z, x, y);
                lemma_lex_lt_asym(y, z);
            }
        }
    }
    assert forall|x: Seq<u8>, y: Seq<u8>| #[trigger] leq(x, y) || #[trigger] leq(y, x) by {
        if lex_lt(y, x) {
            lemma_lex_lt_asym(x, y);
        }
    }
}

/// Where the stable insertion puts an element: after everything weakly
/// below it, before the first strictly greater run entry.
proof fn lemma_insert_pos_char(s: Seq<Seq<u8>>, x: Seq<u8>)
    ensures
        0 <= insert_pos(s, x) <= s.len(),
        forall|m: int| 0 <= m < insert_pos(s, x) ==> !lex_lt(x, s[m]),
        insert_pos(s, x) < s.len() ==> lex_lt(x, s[insert_pos(s, x)]),
    decreases s.len(),
{
    if s.len() > 0 && !lex_lt(x, s[0]) {
        lemma_insert_pos_char(s.skip(1), x);
        assert forall|m: int| 0 <= m < insert_pos(s, x) implies !lex_lt(x, s[m]) by {
            if m > 0 {
                assert(s.skip(1)[m - 1] == s[m]);
            }
        }
        if insert_pos(s, x) < s.len() {
            assert(s.skip(1)[insert_pos(s, x) - 1] == s[insert_pos(s, x)]);
        }
    }
}

/// Stable insertion keeps a run sorted.
proof fn lemma_sorted_insert_sorted(s: Seq<Seq<u8>>, x: Seq<u8>)
    requires
        sorted_by(s, lex_leq_fn()),
    ensures
        sorted_by(sorted_insert(s, x), lex_leq_fn()),
{
    let leq = lex_leq_fn();
    let p = insert_pos(s, x);
    lemma_insert_pos_char(s, x);
    let t = s.insert(p, x);
    assert forall|i: int, j: int| 0 <= i < j < t.len() implies #[trigger] leq(t[i], t[j]) by {
        if i < p && j == p {
            assert(t[i] == s[i] && t[j] == x);
        } else if i == p && j > p {
            assert(t[i] == x && t[j] == s[j - 1]);
            if lex_lt(s[j - 1], x) {
                if p < s.len() {
                    // x < s[p] <= s[j-1] < x: impossible
                    if p == j - 1 {
                        lemma_lex_lt_asym(x, s[p]);
                    } else {
                        assert(leq(s[p], s[j - 1]));
                        if s[p] == s[j - 1] {
                            lemma_lex_lt_asym(x, s[p]);
                        } else {
                            lemma_lex_lt_connected(s[p], s[j - 1]);
                            lemma_lex_lt_trans(s[j - 1], x, s[p]);
                            lemma_lex_lt_asym(s[j - 1], s[p]);
                        }
                    }
                } else {
                    assert(!lex_lt(x, s[j - 1]));
                    lemma_lex_lt_asym(x, s[j - 1]);
                }
            }
        } else if i < p && j > p {
            assert(t[i] == s[i] && t[j] == s[j - 1]);
        } else if i > p && j > p {
            assert(t[i] == s[i - 1] && t[j] == s[j - 1]);
        } else if i < p && j < p {
            assert(t[i] == s[i] && t[j] == s[j]);
        }
    }
}

/// The full insertion sort produces a sorted run.
proof fn lemma_sort_rows_sorted(rows: Seq<Seq<u8>>)
    ensures
        sorted_by(sort_rows(rows), lex_leq_fn()),
    decreases rows.len(),
{
    if rows.len() > 0 {
        lemma_sort_rows_sorted(rows.drop_last());
        lemma_sorted_insert_sorted(sort_rows(rows.drop_last()), rows.last());
    }
}

/// Inserting adds exactly one copy of the element to the multiset.
proof fn lemma_insert_multiset(s: Seq<Seq<u8>>, x: Seq<u8>)
    ensures
        sorted_insert(s, x).to_multiset() == s.to_multiset().insert(x),
{
    broadcast use vstd::seq_lib::group_to_multiset_ensures;
    broadcast use vstd::multiset::group_multiset_axioms;

    let p = insert_pos(s, x);
    lemma_insert_pos_char(s, x);
    let t = s.insert(p, x);
    assert(t.remove(p) =~= s);
    assert(t.remove(p).to_multiset() =~= t.to_multiset().remove(t[p]));
    assert(t[p] == x);
    assert(t.to_multiset().count(x) >= 1) by {
        assert(t.contains(x));
    }
    assert(t.to_multiset() =~= s.to_multiset().insert(x));
}

/// Sorting permutes the rows: the multiset is unchanged.
proof fn lemma_sort_rows_multiset(rows: Seq<Seq<u8>>)
    ensures
        sort_rows(rows).to_multiset() == rows.to_multiset(),
    decreases rows.len(),
{
    broadcast use vstd::seq_lib::group_to_multiset_ensures;

    if rows.len() > 0 {
        lemma_sort_rows_multiset(rows.drop_last());
        lemma_insert_multiset(sort_rows(rows.drop_last()), rows.last());
        assert(rows =~= rows.drop_last().push(rows.last()));
        assert(rows.drop_last().push(rows.last()).to_multiset() =~= rows.drop_last().to_multiset().insert(
            rows.last(),
        ));
    }
}

// --------------------------- counting across permutations ------------------

/// Removing one byte adjusts the occurrence count by its contribution.
proof fn lemma_count_occ_remove(s: Seq<u8>, i: int, b: u8)
    requires
        0 <= i < s.len(),
    ensures
        count_occ(s.remove(i), b) == count_occ(s, b) - (if s[i] == b {
            1int
        } else {
            0int
        }),
    decreases s.len(),
{
    if i == s.len() - 1 {
        assert(s.remove(i) =~= s.drop_last());
    } else {
        assert(s.remove(i).drop_last() =~= s.drop_last().remove(i));
        assert(s.remove(i).last() == s.last());
        lemma_count_occ_remove(s.drop_last(), i, b);
    }
}

/// Removing one byte adjusts the below-bound count by its contribution.
proof fn lemma_count_lt_remove(s: Seq<u8>, i: int, bound: int)
    requires
        0 <= i < s.len(),
    ensures
        count_lt(s.remove(i), bound) == count_lt(s, bound) - (if s[i] < bound {
            1int
        } else {
            0int
        }),
    decreases s.len(),
{
    if i == s.len() - 1 {
        assert(s.remove(i) =~= s.drop_last());
    } else {
        assert(s.remove(i).drop_last() =~= s.drop_last().remove(i));
        assert(s.remove(i).last() == s.last());
        lemma_count_lt_remove(s.drop_last(), i, bound);
    }
}

/// Byte sequences with equal multisets have equal occurrence and
/// below-bound counts.
proof fn lemma_counts_of_multiset(s1: Seq<u8>, s2: Seq<u8>, b: u8, bound: int)
    requires
        s1.to_multiset() == s2.to_multiset(),
    ensures
        count_occ(s1, b) == count_occ(s2, b),
        count_lt(s1, bound) == count_lt(s2, bound),
    decreases s1.len(),
{
    broadcast use vstd::seq_lib::group_to_multiset_ensures;
    broadcast use vstd::multiset::group_multiset_axioms;

    if s1.len() == 0 {
        assert(s1.len() == s1.to_multiset().len());
        assert(s2.len() == s2.to_multiset().len());
        assert(s2.len() == 0);
    } else {
        let a = s1.last();
        assert(s1 =~= s1.drop_last().push(a));
        assert(s1.to_multiset() =~= s1.drop_last().to_multiset().insert(a));
        assert(s1.contains(a));
        assert(s2.to_multiset().count(a) >= 1);
        assert(s2.contains(a));
        let i = choose|i: int| 0 <= i < s2.len() && s2[i] == a;
        assert(s2.remove(i).to_multiset() =~= s2.to_multiset().remove(a));
        assert(s1.drop_last().to_multiset() =~= s2.remove(i).to_multiset());
        lemma_counts_of_multiset(s1.drop_last(), s2.remove(i), b, bound);
        lemma_count_occ_remove(s2, i, b);
        lemma_count_lt_remove(s2, i, bound);
    }
}

/// Mapping commutes with removal, so equal multisets map to equal
/// multisets.
proof fn lemma_map_multiset(s1: Seq<Seq<u8>>, s2: Seq<Seq<u8>>, f: spec_fn(Seq<u8>) -> u8)
    requires
        s1.to_multiset() == s2.to_multiset(),
    ensures
        s1.map_values(f).to_multiset() == s2.map_values(f).to_multiset(),
    decreases s1.len(),
{
    broadcast use vstd::seq_lib::group_to_multiset_ensures;
    broadcast use vstd::multiset::group_multiset_axioms;

    if s1.len() == 0 {
        assert(s1.len() == s1.to_multiset().len());
        assert(s2.len() == s2.to_multiset().len());
        assert(s2.len() == 0);
        assert(s1.map_values(f) =~= s2.map_values(f));
    } else {
        let a = s1.last();
        assert(s1 =~= s1.drop_last().push(a));
        assert(s1.to_multiset() =~= s1.drop_last().to_multiset().insert(a));
        assert(s1.contains(a));
        assert(s2.to_multiset().count(a) >= 1);
        assert(s2.contains(a));
        let i = choose|i: int| 0 <= i < s2.len() && s2[i] == a;
        assert(s2.remove(i).to_multiset() =~= s2.to_multiset().remove(a));
        assert(s1.drop_last().to_multiset() =~= s2.remove(i).to_multiset());
        lemma_map_multiset(s1.drop_last(), s2.remove(i), f);
        assert(s1.map_values(f) =~= s1.drop_last().map_values(f).push(f(a)));
        assert(s1.map_values(f).to_multiset() =~= s1.drop_last().map_values(
            f,
        ).to_multiset().insert(f(a)));
        assert(s2.remove(i).map_values(f) =~= s2.map_values(f).remove(i));
        assert(s2.map_values(f).remove(i).to_multiset() =~= s2.map_values(
            f,
        ).to_multiset().remove(f(a)));
        assert(s2.map_values(f).to_multiset().count(f(a)) >= 1) by {
            assert(s2.map_values(f)[i] == f(a));
            assert(s2.map_values(f).contains(f(a)));
        }
        assert(s1.map_values(f).to_multiset() =~= s2.map_values(f).to_multiset());
    }
}

/// The first byte of each row.
pub open spec fn firsts(rows: Seq<Seq<u8>>) -> Seq<u8> {
    rows.map_values(|r: Seq<u8>| r.first())
}

/// The last byte of each row.
pub open spec fn lasts(rows: Seq<Seq<u8>>) -> Seq<u8> {
    rows.map_values(|r: Seq<u8>| r.last())
}

/// Both columns of the sorted rotation matrix are permutations of the
/// block itself, and the stored last column is the matrix's last column.
proof fn lemma_columns_multiset(x: Seq<u8>)
    requires
        x.len() > 0,
    ensures
        lasts(sorted_rotations(x)).to_multiset() == x.to_multiset(),
        firsts(sorted_rotations(x)).to_multiset() == x.to_multiset(),
        bwt_last_col_spec(x) == lasts(sorted_rotations(x)),
{
    broadcast use vstd::seq_lib::group_to_multiset_ensures;
    broadcast use vstd::multiset::group_multiset_axioms;

    let n = x.len() as int;
    let rots = rotations(x);
    let r = sorted_rotations(x);
    lemma_sort_rows_multiset(rots);
    assert(r.len() == rots.len()) by {
        assert(r.len() == r.to_multiset().len());
        assert(rots.len() == rots.to_multiset().len());
    }

    // last column as stored == map of last over sorted rows
    assert(bwt_last_col_spec(x) =~= lasts(r));

    // firsts of all rotations spell the block itself
    assert forall|j: int| 0 <= j < n implies #[trigger] firsts(rots)[j] == x[j] by {
        assert(rots[j] == rotation(x, j));
        assert(rotation(x, j)[0] == x[j]);
    }
    assert(firsts(rots) =~= x);

    // lasts of all rotations spell the rotation of the block by one
    assert forall|j: int| 0 <= j < n implies #[trigger] lasts(rots)[j] == rotation(x, n - 1)[j] by {
        assert(rots[j] == rotation(x, j));
        if j == 0 {
            assert(rotation(x, 0).last() == x[n - 1]);
            assert(rotation(x, n - 1)[0] == x[n - 1]);
        } else {
            assert(rotation(x, j).last() == x[j - 1]);
            assert(rotation(x, n - 1)[j] == x[j - 1]);
        }
    }
    assert(lasts(rots) =~= rotation(x, n - 1));
    lemma_multiset_commutative(x.skip(n - 1), x.take(n - 1));
    lemma_multiset_commutative(x.take(n - 1), x.skip(n - 1));
    assert(x.take(n - 1) + x.skip(n - 1) =~= x);
    assert(rotation(x, n - 1).to_multiset() =~= x.to_multiset());

    lemma_map_multiset(r, rots, |row: Seq<u8>| row.first());
    lemma_map_multiset(r, rots, |row: Seq<u8>| row.last());
    assert(firsts(r).to_multiset() =~= x.to_multiset());
    assert(lasts(r).to_multiset() =~= x.to_multiset());
}

// --------------------------- sorted-column structure ------------------------

/// A positive occurrence count exhibits an occurrence.
proof fn lemma_count_occ_exists(s: Seq<u8>, b: u8)
    requires
        count_occ(s, b) > 0,
    ensures
        exists|i: int| 0 <= i < s.len() && s[i] == b,
    decreases s.len(),
{
    if s.len() > 0 {
        if s.last() == b {
            assert(s[s.len() - 1] == b);
        } else {
            lemma_count_occ_exists(s.drop_last(), b);
            let i = choose|i: int| 0 <= i < s.len() - 1 && s.drop_last()[i] == b;
            assert(s[i] == b);
        }
    }
}

/// When no byte exceeds `b`, the below and equal counts cover everything.
proof fn lemma_count_cover(s: Seq<u8>, b: u8)
    requires
        forall|i: int| 0 <= i < s.len() ==> (#[trigger] s[i]) <= b,
    ensures
        count_lt(s, b as int) + count_occ(s, b) == s.len(),
    decreases s.len(),
{
    if s.len() > 0 {
        assert(forall|i: int| 0 <= i < s.len() - 1 ==> (#[trigger] s.drop_last()[i]) <= b);
        lemma_count_cover(s.drop_last(), b);
        assert(s[s.len() - 1] <= b);
    }
}

/// In a nondecreasing byte sequence, the bytes below `b` form the prefix of
/// length `count_lt`, and the bytes equal to `b` the following segment of
/// length `count_occ`.
proof fn lemma_nondecreasing_threshold(f: Seq<u8>, b: u8)
    requires
        forall|i: int, j: int| 0 <= i <= j < f.len() ==> (#[trigger] f[i]) <= (#[trigger] f[j]),
    ensures
        forall|i: int|
            0 <= i < f.len() ==> ((#[trigger] f[i]) < b <==> i < count_lt(f, b as int)),
        forall|i: int|
            0 <= i < f.len() ==> ((#[trigger] f[i]) == b <==> count_lt(f, b as int) <= i
                < count_lt(f, b as int) + count_occ(f, b)),
    decreases f.len(),
{
    if f.len() > 0 {
        let n = f.len() as int;
        let fd = f.drop_last();
        assert(forall|i: int| 0 <= i < n - 1 ==> #[trigger] fd[i] == f[i]);
        assert forall|i: int, j: int|
            0 <= i <= j < fd.len() implies (#[trigger] fd[i]) <= (#[trigger] fd[j]) by {
            assert(f[i] <= f[j]);
        }
        lemma_nondecreasing_threshold(fd, b);
        let last = f.last();
        assert(last == f[n - 1]);
        let pd = count_lt(fd, b as int);
        let md = count_occ(fd, b);
        crate::bwt::lemma_count_lt_occ_disjoint(fd, b);
        crate::bwt::lemma_count_bounds(fd, b, b as int);
        let p = count_lt(f, b as int);
        let m = count_occ(f, b);
        if last < b {
            assert forall|i: int| 0 <= i < n - 1 implies (#[trigger] fd[i]) < b by {
                assert(f[i] <= f[n - 1]);
            }
            assert(pd == fd.len()) by {
                if pd < fd.len() {
                    assert(fd[pd] < b);
                }
            }
            assert(md == 0) by {
                if md > 0 {
                    lemma_count_occ_exists(fd, b);
                    let w = choose|w: int| 0 <= w < fd.len() && fd[w] == b;
                    assert(fd[w] < b);
                }
            }
            assert(p == n && m == 0);
            assert forall|i: int|
                0 <= i < n implies ((#[trigger] f[i]) < b <==> i < p) by {
                assert(f[i] <= f[n - 1]);
            }
            assert forall|i: int|
                0 <= i < n implies ((#[trigger] f[i]) == b <==> p <= i < p + m) by {
                assert(f[i] <= f[n - 1]);
                assert(f[i] < b);
            }
        } else if last == b {
            assert forall|i: int| 0 <= i < n - 1 implies (#[trigger] fd[i]) <= b by {
                assert(f[i] <= f[n - 1]);
            }
            lemma_count_cover(fd, b);
            assert(pd + md == n - 1);
            assert(p == pd && m == md + 1);
            assert forall|i: int|
                0 <= i < n implies ((#[trigger] f[i]) < b <==> i < p) by {
                if i < n - 1 {
                    assert(fd[i] == f[i]);
                    assert(fd[i] < b <==> i < pd);
                } else {
                    assert(p <= n - 1);
                }
            }
            assert forall|i: int|
                0 <= i < n implies ((#[trigger] f[i]) == b <==> p <= i < p + m) by {
                if i < n - 1 {
                    assert(fd[i] == f[i]);
                    assert(fd[i] == b <==> pd <= i < pd + md);
                } else {
                    assert(f[i] == b);
                    assert(p <= n - 1 < p + m);
                }
            }
        } else {
            assert(p == pd && m == md);
            assert(pd + md <= n - 1);
            assert forall|i: int|
                0 <= i < n implies ((#[trigger] f[i]) < b <==> i < p) by {
                if i < n - 1 {
                    assert(fd[i] == f[i]);
                    assert(fd[i] < b <==> i < pd);
                } else {
                    assert(!(f[i] < b));
                    assert(p <= n - 1);
                }
            }
            assert forall|i: int|
                0 <= i < n implies ((#[trigger] f[i]) == b <==> p <= i < p + m) by {
                if i < n - 1 {
                    assert(fd[i] == f[i]);
                    assert(fd[i] == b <==> pd <= i < pd + md);
                } else {
                    assert(f[i] != b);
                    assert(p + m <= n - 1);
                }
            }
        }
    }
}

/// A filtered sequence keeps only (some of) the original's elements.
proof fn lemma_filter_element_source(s: Seq<Seq<u8>>, pred: spec_fn(Seq<u8>) -> bool, k: int)
    requires
        0 <= k < s.filter(pred).len(),
    ensures
        exists|j: int| 0 <= j < s.len() && #[trigger] s[j] == s.filter(pred)[k],
    decreases s.len(),
{
    reveal(Seq::filter);
    if s.len() > 0 {
        if pred(s.last()) && k == s.filter(pred).len() - 1 {
            assert(s[s.len() - 1] == s.filter(pred)[k]);
        } else {
            lemma_filter_element_source(s.drop_last(), pred, k);
            let j = choose|j: int|
                0 <= j < s.len() - 1 && #[trigger] s.drop_last()[j] == s.drop_last().filter(
                    pred,
                )[k];
            assert(s[j] == s.filter(pred)[k]);
        }
    }
}

/// Filtering keeps a sorted run sorted.
proof fn lemma_filter_sorted(s: Seq<Seq<u8>>, pred: spec_fn(Seq<u8>) -> bool)
    requires
        sorted_by(s, lex_leq_fn()),
    ensures
        sorted_by(s.filter(pred), lex_leq_fn()),
    decreases s.len(),
{
    reveal(Seq::filter);
    let leq = lex_leq_fn();
    if s.len() > 0 {
        assert(sorted_by(s.drop_last(), leq));
        lemma_filter_sorted(s.drop_last(), pred);
        let fd = s.drop_last().filter(pred);
        if pred(s.last()) {
            assert forall|i: int, j: int|
                0 <= i < j < s.filter(pred).len() implies #[trigger] leq(
                s.filter(pred)[i],
                s.filter(pred)[j],
            ) by {
                if j < fd.len() {
                    assert(leq(fd[i], fd[j]));
                } else {
                    assert(s.filter(pred)[j] == s.last());
                    lemma_filter_element_source(s.drop_last(), pred, i);
                    let w = choose|w: int|
                        0 <= w < s.len() - 1 && #[trigger] s.drop_last()[w] == fd[i];
                    assert(leq(s[w], s[s.len() - 1]));
                }
            }
        }
    }
}

/// Filtering a run where nothing matches gives the empty run.
proof fn lemma_filter_none(s: Seq<Seq<u8>>, pred: spec_fn(Seq<u8>) -> bool)
    requires
        forall|i: int| 0 <= i < s.len() ==> !pred(#[trigger] s[i]),
    ensures
        s.filter(pred) == Seq::<Seq<u8>>::empty(),
    decreases s.len(),
{
    reveal(Seq::filter);
    if s.len() > 0 {
        assert(forall|i: int| 0 <= i < s.len() - 1 ==> !pred(#[trigger] s.drop_last()[i]));
        lemma_filter_none(s.drop_last(), pred);
        assert(!pred(s[s.len() - 1]));
    }
}

/// Filtering a run where everything matches changes nothing.
proof fn lemma_filter_all(s: Seq<Seq<u8>>, pred: spec_fn(Seq<u8>) -> bool)
    requires
        forall|i: int| 0 <= i < s.len() ==> pred(#[trigger] s[i]),
    ensures
        s.filter(pred) == s,
    decreases s.len(),
{
    reveal(Seq::filter);
    if s.len() > 0 {
        assert(forall|i: int| 0 <= i < s.len() - 1 ==> pred(#[trigger] s.drop_last()[i]));
        lemma_filter_all(s.drop_last(), pred);
        assert(pred(s[s.len() - 1]));
        assert(s.filter(pred) =~= s);
    }
}

/// Where the matching element at index `i` lands in the filtered run: right
/// after the matches of the prefix before it.
proof fn lemma_filter_index(s: Seq<Seq<u8>>, pred: spec_fn(Seq<u8>) -> bool, i: int)
    requires
        0 <= i < s.len(),
        pred(s[i]),
    ensures
        s.take(i).filter(pred).len() < s.filter(pred).len(),
        s.filter(pred)[s.take(i).filter(pred).len() as int] == s[i],
    decreases s.len(),
{
    reveal(Seq::filter);
    if i == s.len() - 1 {
        assert(s.take(i) =~= s.drop_last());
    } else {
        assert(s.take(i) =~= s.drop_last().take(i));
        lemma_filter_index(s.drop_last(), pred, i);
        assert(s.drop_last()[i] == s[i]);
        let k = s.take(i).filter(pred).len() as int;
        if pred(s.last()) {
            assert(s.filter(pred)[k] == s.drop_last().filter(pred)[k]);
        }
    }
}

// --------------------------- the last-to-first mapping ----------------------

/// The right-rotation of a row: its last byte moves to the front.
pub open spec fn rot_right(r: Seq<u8>) -> Seq<u8> {
    seq![r.last()] + r.drop_last()
}

/// The right-rotation as a mapping function.
pub open spec fn rot_right_fn() -> spec_fn(Seq<u8>) -> Seq<u8> {
    |r: Seq<u8>| rot_right(r)
}

/// Rows ending with `b`.
pub open spec fn ends_with(b: u8) -> spec_fn(Seq<u8>) -> bool {
    |r: Seq<u8>| r.len() > 0 && r.last() == b
}

/// Rows starting with `b`.
pub open spec fn starts_with(b: u8) -> spec_fn(Seq<u8>) -> bool {
    |r: Seq<u8>| r.len() > 0 && r[0] == b
}

/// Rotating a rotation right steps its start one position back.
proof fn lemma_rr_rotation(x: Seq<u8>, j: int)
    requires
        x.len() > 0,
        0 <= j < x.len(),
    ensures
        rot_right(rotation(x, j)) == rotation(
            x,
            if j == 0 {
                x.len() - 1
            } else {
                j - 1
            },
        ),
{
    let n = x.len() as int;
    let j2: int = if j == 0 { n - 1 } else { j - 1 };
    let u = rot_right(rotation(x, j));
    let v = rotation(x, j2);
    lemma_rotation_index(x, j, n - 1);
    assert forall|k: int| 0 <= k < n implies u[k] == v[k] by {
        lemma_rotation_index(x, j2, k);
        if k == 0 {
            assert(u[0] == rotation(x, j).last());
        } else {
            assert(u[k] == rotation(x, j)[k - 1]);
            lemma_rotation_index(x, j, k - 1);
        }
    }
    assert(u =~= v);
}

/// Prepending the same byte preserves strict comparison in both directions.
proof fn lemma_lex_lt_cons(c: u8, a: Seq<u8>, b: Seq<u8>)
    ensures
        lex_lt(seq![c] + a, seq![c] + b) == lex_lt(a, b),
{
    let u = seq![c] + a;
    let v = seq![c] + b;
    assert(u[0] == c && v[0] == c);
    assert(u.skip(1) =~= a);
    assert(v.skip(1) =~= b);
}

/// Strict comparison of equal-length rows with the same final byte drops to
/// their fronts.
proof fn lemma_lex_lt_same_last(u: Seq<u8>, v: Seq<u8>)
    requires
        u.len() == v.len(),
        u.len() >= 1,
        u.last() == v.last(),
        lex_lt(u, v),
    ensures
        u.drop_last() == v.drop_last() || lex_lt(u.drop_last(), v.drop_last()),
    decreases u.len(),
{
    if u.len() == 1 {
        assert(u[0] == u.last());
        assert(v[0] == v.last());
        assert(u[0] == v[0]);
        assert(lex_lt(u, v) == lex_lt(u.skip(1), v.skip(1)));
        assert(u.skip(1) =~= Seq::<u8>::empty());
        assert(v.skip(1) =~= Seq::<u8>::empty());
        assert(!lex_lt(Seq::<u8>::empty(), Seq::<u8>::empty()));
        assert(false);
    } else {
        if u[0] == v[0] {
            assert(lex_lt(u.skip(1), v.skip(1)));
            assert(u.skip(1).last() == u.last());
            assert(v.skip(1).last() == v.last());
            lemma_lex_lt_same_last(u.skip(1), v.skip(1));
            assert(u.skip(1).drop_last() =~= u.drop_last().skip(1));
            assert(v.skip(1).drop_last() =~= v.drop_last().skip(1));
            assert(u.drop_last()[0] == u[0]);
            assert(v.drop_last()[0] == v[0]);
            if u.skip(1).drop_last() == v.skip(1).drop_last() {
                assert forall|k: int| 0 <= k < u.len() - 1 implies u.drop_last()[k]
                    == v.drop_last()[k] by {
                    if k > 0 {
                        assert(u.drop_last().skip(1)[k - 1] == u.drop_last()[k]);
                        assert(v.drop_last().skip(1)[k - 1] == v.drop_last()[k]);
                    }
                }
                assert(u.drop_last() =~= v.drop_last());
            }
        } else {
            assert(u[0] < v[0]);
            assert(u.drop_last()[0] == u[0]);
            assert(v.drop_last()[0] == v[0]);
        }
    }
}

/// Right-rotation preserves the order of equal-length rows sharing their
/// final byte.
proof fn lemma_rr_monotone(u: Seq<u8>, v: Seq<u8>)
    requires
        u.len() == v.len(),
        u.len() >= 1,
        u.last() == v.last(),
        lex_leq(u, v),
    ensures
        lex_leq(rot_right(u), rot_right(v)),
{
    if u == v {
        lemma_lex_lt_asym(rot_right(u), rot_right(v));
    } else {
        lemma_lex_lt_connected(u, v);
        assert(lex_lt(u, v));
        lemma_lex_lt_same_last(u, v);
        if u.drop_last() == v.drop_last() {
            assert(rot_right(u) == rot_right(v));
            lemma_lex_lt_asym(rot_right(u), rot_right(v));
        } else {
            lemma_lex_lt_cons(u.last(), u.drop_last(), v.drop_last());
            lemma_lex_lt_asym(rot_right(u), rot_right(v));
        }
    }
}

/// Filtering after removing one element: the element's matches leave the
/// filtered multiset, nothing else moves.
proof fn lemma_filter_remove(s: Seq<Seq<u8>>, i: int, pred: spec_fn(Seq<u8>) -> bool)
    requires
        0 <= i < s.len(),
    ensures
        pred(s[i]) ==> s.remove(i).filter(pred).to_multiset() == s.filter(
            pred,
        ).to_multiset().remove(s[i]),
        !pred(s[i]) ==> s.remove(i).filter(pred).to_multiset() == s.filter(pred).to_multiset(),
    decreases s.len(),
{
    reveal(Seq::filter);
    broadcast use vstd::seq_lib::group_to_multiset_ensures;
    broadcast use vstd::multiset::group_multiset_axioms;

    if i == s.len() - 1 {
        assert(s.remove(i) =~= s.drop_last());
        if pred(s[i]) {
            assert(s.filter(pred) == s.drop_last().filter(pred).push(s.last()));
            assert(s.filter(pred).to_multiset() =~= s.drop_last().filter(
                pred,
            ).to_multiset().insert(s.last()));
            assert(s.drop_last().filter(pred).to_multiset() =~= s.filter(
                pred,
            ).to_multiset().remove(s[i]));
        }
    } else {
        assert(s.remove(i).drop_last() =~= s.drop_last().remove(i));
        assert(s.remove(i).last() == s.last());
        lemma_filter_remove(s.drop_last(), i, pred);
        assert(s.drop_last()[i] == s[i]);
        if pred(s[i]) {
            assert(s.drop_last().filter(pred).to_multiset().count(s[i]) >= 1) by {
                assert(s.drop_last().filter(pred).contains(s[i])) by {
                    s.drop_last().lemma_filter_contains(pred, i);
                }
            }
        }
        if pred(s.last()) {
            assert(s.filter(pred) == s.drop_last().filter(pred).push(s.last()));
            assert(s.remove(i).filter(pred) == s.drop_last().remove(i).filter(pred).push(
                s.last(),
            ));
            assert(s.filter(pred).to_multiset() =~= s.drop_last().filter(
                pred,
            ).to_multiset().insert(s.last()));
            assert(s.remove(i).filter(pred).to_multiset() =~= s.drop_last().remove(i).filter(
                pred,
            ).to_multiset().insert(s.last()));
            if pred(s[i]) {
                assert(s.remove(i).filter(pred).to_multiset() =~= s.filter(
                    pred,
                ).to_multiset().remove(s[i]));
            }
        } else {
            assert(s.filter(pred) == s.drop_last().filter(pred));
            assert(s.remove(i).filter(pred) == s.drop_last().remove(i).filter(pred));
        }
    }
}

/// Equal multisets filter to equal multisets.
proof fn lemma_filter_multiset(s1: Seq<Seq<u8>>, s2: Seq<Seq<u8>>, pred: spec_fn(Seq<u8>) -> bool)
    requires
        s1.to_multiset() == s2.to_multiset(),
    ensures
        s1.filter(pred).to_multiset() == s2.filter(pred).to_multiset(),
    decreases s1.len(),
{
    reveal(Seq::filter);
    broadcast use vstd::seq_lib::group_to_multiset_ensures;
    broadcast use vstd::multiset::group_multiset_axioms;

    if s1.len() == 0 {
        assert(s1.len() == s1.to_multiset().len());
        assert(s2.len() == s2.to_multiset().len());
        assert(s2.len() == 0);
    } else {
        let a = s1.last();
        assert(s1 =~= s1.drop_last().push(a));
        assert(s1.to_multiset() =~= s1.drop_last().to_multiset().insert(a));
        assert(s1.contains(a));
        assert(s2.to_multiset().count(a) >= 1);
        assert(s2.contains(a));
        let i = choose|i: int| 0 <= i < s2.len() && s2[i] == a;
        assert(s2.remove(i).to_multiset() =~= s2.to_multiset().remove(a));
        assert(s1.drop_last().to_multiset() =~= s2.remove(i).to_multiset());
        lemma_filter_multiset(s1.drop_last(), s2.remove(i), pred);
        lemma_filter_remove(s2, i, pred);
        if pred(a) {
            assert(s1.filter(pred) == s1.drop_last().filter(pred).push(a));
            assert(s1.filter(pred).to_multiset() =~= s1.drop_last().filter(
                pred,
            ).to_multiset().insert(a));
            assert(s2.filter(pred).to_multiset().count(a) >= 1) by {
                assert(s2.filter(pred).contains(a)) by {
                    s2.lemma_filter_contains(pred, i);
                }
            }
            assert(s1.filter(pred).to_multiset() =~= s2.filter(pred).to_multiset());
        } else {
            assert(s1.filter(pred) == s1.drop_last().filter(pred));
        }
    }
}

/// Mapping rows to rows commutes with removal, so equal multisets map to
/// equal multisets.
proof fn lemma_map_rows_multiset(
    s1: Seq<Seq<u8>>,
    s2: Seq<Seq<u8>>,
    f: spec_fn(Seq<u8>) -> Seq<u8>,
)
    requires
        s1.to_multiset() == s2.to_multiset(),
    ensures
        s1.map_values(f).to_multiset() == s2.map_values(f).to_multiset(),
    decreases s1.len(),
{
    broadcast use vstd::seq_lib::group_to_multiset_ensures;
    broadcast use vstd::multiset::group_multiset_axioms;

    if s1.len() == 0 {
        assert(s1.len() == s1.to_multiset().len());
        assert(s2.len() == s2.to_multiset().len());
        assert(s2.len() == 0);
        assert(s1.map_values(f) =~= s2.map_values(f));
    } else {
        let a = s1.last();
        assert(s1 =~= s1.drop_last().push(a));
        assert(s1.to_multiset() =~= s1.drop_last().to_multiset().insert(a));
        assert(s1.contains(a));
        assert(s2.to_multiset().count(a) >= 1);
        assert(s2.contains(a));
        let i = choose|i: int| 0 <= i < s2.len() && s2[i] == a;
        assert(s2.remove(i).to_multiset() =~= s2.to_multiset().remove(a));
        assert(s1.drop_last().to_multiset() =~= s2.remove(i).to_multiset());
        lemma_map_rows_multiset(s1.drop_last(), s2.remove(i), f);
        assert(s1.map_values(f) =~= s1.drop_last().map_values(f).push(f(a)));
        assert(s1.map_values(f).to_multiset() =~= s1.drop_last().map_values(
            f,
        ).to_multiset().insert(f(a)));
        assert(s2.remove(i).map_values(f) =~= s2.map_values(f).remove(i));
        assert(s2.map_values(f).remove(i).to_multiset() =~= s2.map_values(
            f,
        ).to_multiset().remove(f(a)));
        assert(s2.map_values(f).to_multiset().count(f(a)) >= 1) by {
            assert(s2.map_values(f)[i] == f(a));
            assert(s2.map_values(f).contains(f(a)));
        }
        assert(s1.map_values(f).to_multiset() =~= s2.map_values(f).to_multiset());
    }
}

/// Rotating every row right before filtering for a leading byte equals
/// filtering for that trailing byte first.
proof fn lemma_map_filter_commute(s: Seq<Seq<u8>>, b: u8)
    requires
        forall|i: int| 0 <= i < s.len() ==> (#[trigger] s[i]).len() > 0,
    ensures
        s.filter(ends_with(b)).map_values(rot_right_fn()) == s.map_values(rot_right_fn()).filter(
            starts_with(b),
        ),
    decreases s.len(),
{
    reveal(Seq::filter);
    if s.len() == 0 {
        assert(s.filter(ends_with(b)).map_values(rot_right_fn()) =~= s.map_values(
            rot_right_fn(),
        ).filter(starts_with(b)));
    } else {
        assert(forall|i: int| 0 <= i < s.len() - 1 ==> (#[trigger] s.drop_last()[i]).len() > 0);
        lemma_map_filter_commute(s.drop_last(), b);
        let last = s.last();
        assert(s[s.len() - 1] == last);
        assert(last.len() > 0);
        let rlast = rot_right(last);
        assert(rlast[0] == last.last());
        assert(rlast.len() == last.len());
        assert(ends_with(b)(last) == starts_with(b)(rlast));
        assert(s.map_values(rot_right_fn()).drop_last() =~= s.drop_last().map_values(
            rot_right_fn(),
        ));
        assert(s.map_values(rot_right_fn()).last() == rlast);
        assert(s.map_values(rot_right_fn()) == s.map_values(rot_right_fn()).drop_last().push(
            rlast,
        )) by {
            assert(s.map_values(rot_right_fn()) =~= s.map_values(
                rot_right_fn(),
            ).drop_last().push(rlast));
        }
        if ends_with(b)(last) {
            assert(s.filter(ends_with(b)) == s.drop_last().filter(ends_with(b)).push(last));
            assert(s.filter(ends_with(b)).map_values(rot_right_fn()) =~= s.drop_last().filter(
                ends_with(b),
            ).map_values(rot_right_fn()).push(rlast));
            assert(s.map_values(rot_right_fn()).filter(starts_with(b)) == s.map_values(
                rot_right_fn(),
            ).drop_last().filter(starts_with(b)).push(rlast));
        } else {
            assert(s.filter(ends_with(b)) == s.drop_last().filter(ends_with(b)));
            assert(s.map_values(rot_right_fn()).filter(starts_with(b)) == s.map_values(
                rot_right_fn(),
            ).drop_last().filter(starts_with(b)));
        }
    }
}

/// The prefix of the filtered run counts the trailing-byte occurrences of
/// the prefix of the last column.
proof fn lemma_filter_prefix_count(r: Seq<Seq<u8>>, b: u8, i: int)
    requires
        0 <= i <= r.len(),
        forall|m: int| 0 <= m < r.len() ==> (#[trigger] r[m]).len() > 0,
    ensures
        r.take(i).filter(ends_with(b)).len() == count_occ(lasts(r).take(i), b),
    decreases i,
{
    reveal(Seq::filter);
    if i > 0 {
        lemma_filter_prefix_count(r, b, i - 1);
        assert(r.take(i).drop_last() =~= r.take(i - 1));
        assert(r.take(i).last() == r[i - 1]);
        assert(lasts(r).take(i).drop_last() =~= lasts(r).take(i - 1));
        assert(lasts(r).take(i).last() == lasts(r)[i - 1]);
        assert(lasts(r)[i - 1] == r[i - 1].last());
        assert(ends_with(b)(r[i - 1]) == (r[i - 1].last() == b));
    } else {
        assert(r.take(0) =~= Seq::<Seq<u8>>::empty());
        assert(lasts(r).take(0) =~= Seq::<u8>::empty());
    }
}

/// The last-to-first mapping really maps each row of the sorted rotation
/// matrix to the row that is its right-rotation: the j-th occurrence of a
/// byte in the last column lines up with the j-th occurrence of that byte
/// leading the sorted first column.
#[verifier::rlimit(100)]
proof fn lemma_lf_maps(x: Seq<u8>, i: int)
    requires
        x.len() > 0,
        0 <= i < x.len(),
    ensures
        0 <= lf_map(bwt_last_col_spec(x), i) < x.len(),
        sorted_rotations(x)[lf_map(bwt_last_col_spec(x), i)] == rot_right(
            sorted_rotations(x)[i],
        ),
{
    broadcast use vstd::seq_lib::group_to_multiset_ensures;
    broadcast use vstd::seq_lib::group_filter_ensures;
    broadcast use vstd::multiset::group_multiset_axioms;

    let n = x.len() as int;
    let r = sorted_rotations(x);
    let ll = bwt_last_col_spec(x);
    let leq = lex_leq_fn();
    lemma_sorted_rotations_shape(x);
    lemma_columns_multiset(x);
    lemma_sort_rows_sorted(rotations(x));
    let ff = firsts(r);
    let b = ll[i];
    assert(ll.len() == n);
    assert(ff.len() == n);
    assert(r.len() == n);

    // The first column is nondecreasing because the rows are sorted.
    assert forall|a: int, c: int|
        0 <= a <= c < n implies (#[trigger] ff[a]) <= (#[trigger] ff[c]) by {
        if a < c {
            assert(leq(r[a], r[c]));
            assert(ff[a] == r[a].first());
            assert(ff[c] == r[c].first());
            assert(r[a].len() == n && r[c].len() == n);
            if ff[a] > ff[c] {
                assert(r[c][0] < r[a][0]);
                assert(lex_lt(r[c], r[a]));
            }
        }
    }

    // Both columns hold the block's bytes, so their counts agree.
    lemma_counts_of_multiset(ll, ff, b, b as int);
    let p = count_lt(ll, b as int);
    let m = count_occ(ll, b);
    lemma_nondecreasing_threshold(ff, b);
    crate::bwt::lemma_count_bounds(ll, b, b as int);
    crate::bwt::lemma_count_lt_occ_disjoint(ll, b);

    // This row carries the (k+1)-th occurrence of `b` in the last column.
    let k = count_occ(ll.take(i), b);
    assert(ll[i] == r[i].last());
    assert(count_occ(ll.take(i + 1), b) == k + 1) by {
        assert(ll.take(i + 1).drop_last() =~= ll.take(i));
        assert(ll.take(i + 1).last() == ll[i]);
    }
    lemma_count_occ_take_le(ll, b, i + 1);
    crate::bwt::lemma_count_bounds(ll.take(i), b, b as int);
    assert(0 <= k < m);

    // Rows ending with `b`, in sorted order; r[i] is their k-th entry.
    let endsb = ends_with(b);
    let startsb = starts_with(b);
    let fe = r.filter(endsb);
    assert(forall|mm: int| 0 <= mm < n ==> (#[trigger] r[mm]).len() == n);
    lemma_filter_prefix_count(r, b, n);
    assert(r.take(n) =~= r);
    assert(lasts(r).take(n) =~= ll);
    assert(fe.len() == m);
    assert(endsb(r[i]));
    lemma_filter_index(r, endsb, i);
    lemma_filter_prefix_count(r, b, i);
    assert(lasts(r).take(i) =~= ll.take(i));
    assert(fe[k] == r[i]);

    // Rows starting with `b` form exactly the segment [p, p + m).
    let seg = r.subrange(p, p + m);
    assert(r =~= r.take(p) + seg + r.skip(p + m));
    assert forall|mm: int| 0 <= mm < p implies !startsb(#[trigger] r.take(p)[mm]) by {
        assert(r.take(p)[mm] == r[mm]);
        assert(ff[mm] < b);
        assert(ff[mm] == r[mm].first());
    }
    lemma_filter_none(r.take(p), startsb);
    assert forall|mm: int| 0 <= mm < m implies startsb(#[trigger] seg[mm]) by {
        assert(seg[mm] == r[p + mm]);
        assert(ff[p + mm] == b);
        assert(ff[p + mm] == r[p + mm].first());
    }
    lemma_filter_all(seg, startsb);
    assert forall|mm: int|
        0 <= mm < n - p - m implies !startsb(#[trigger] r.skip(p + m)[mm]) by {
        assert(r.skip(p + m)[mm] == r[p + m + mm]);
        assert(ff[p + m + mm] != b);
        assert(!(ff[p + m + mm] < b));
        assert(ff[p + m + mm] == r[p + m + mm].first());
    }
    lemma_filter_none(r.skip(p + m), startsb);
    Seq::filter_distributes_over_add(r.take(p) + seg, r.skip(p + m), startsb);
    Seq::filter_distributes_over_add(r.take(p), seg, startsb);
    assert(r.filter(startsb) =~= seg);

    // Rotating the `b`-final rows right gives, as a multiset, exactly the
    // `b`-initial rows.
    let rots = rotations(x);
    let rr = rot_right_fn();
    lemma_sort_rows_multiset(rots);
    assert(forall|mm: int| 0 <= mm < n ==> (#[trigger] rots[mm]).len() == n) by {
        assert(forall|mm: int|
            0 <= mm < n ==> (#[trigger] rots[mm]) == rotation(x, mm));
    }
    lemma_filter_multiset(r, rots, endsb);
    lemma_map_filter_commute(rots, b);
    let mapped = rots.map_values(rr);
    assert forall|j: int| 0 <= j < n implies #[trigger] mapped[j] == (seq![rots[n - 1]]
        + rots.drop_last())[j] by {
        lemma_rr_rotation(x, j);
        if j == 0 {
            assert(mapped[0] == rot_right(rotation(x, 0)));
        } else {
            assert(mapped[j] == rot_right(rotation(x, j)));
            assert((seq![rots[n - 1]] + rots.drop_last())[j] == rots[j - 1]);
        }
    }
    assert(mapped =~= seq![rots[n - 1]] + rots.drop_last());
    lemma_multiset_commutative(seq![rots[n - 1]], rots.drop_last());
    lemma_multiset_commutative(rots.drop_last(), seq![rots[n - 1]]);
    assert(rots =~= rots.drop_last() + seq![rots[n - 1]]);
    assert(mapped.to_multiset() == rots.to_multiset());
    lemma_filter_multiset(mapped, rots, startsb);
    lemma_filter_multiset(rots, r, startsb);
    let sseq = fe.map_values(rr);
    lemma_map_rows_multiset(fe, rots.filter(endsb), rr);
    assert(sseq.to_multiset() == seg.to_multiset());

    // Both runs are sorted, so they are equal.
    lemma_filter_sorted(r, endsb);
    assert forall|a: int, c: int|
        0 <= a < c < sseq.len() implies #[trigger] leq(sseq[a], sseq[c]) by {
        assert(leq(fe[a], fe[c]));
        lemma_filter_element_source(r, endsb, a);
        lemma_filter_element_source(r, endsb, c);
        let wa = choose|w: int| 0 <= w < r.len() && #[trigger] r[w] == fe[a];
        let wc = choose|w: int| 0 <= w < r.len() && #[trigger] r[w] == fe[c];
        assert(fe[a].len() == n && fe[c].len() == n);
        assert(endsb(fe[a]) && endsb(fe[c]));
        lemma_rr_monotone(fe[a], fe[c]);
        assert(sseq[a] == rr(fe[a]));
        assert(sseq[c] == rr(fe[c]));
    }
    assert(sorted_by(sseq, leq));
    assert forall|a: int, c: int|
        0 <= a < c < seg.len() implies #[trigger] leq(seg[a], seg[c]) by {
        assert(seg[a] == r[p + a]);
        assert(seg[c] == r[p + c]);
    }
    assert(sorted_by(seg, leq));
    lemma_lex_total_ordering();
    lemma_sorted_unique(sseq, seg, leq);

    // Read the mapping off at position k.
    assert(sseq[k] == rr(fe[k]));
    assert(seg[k] == r[p + k]);
    assert(r[p + k] == rot_right(r[i]));
    assert(lf_map(ll, i) == p + k);
    lemma_lf_in_range(ll, i);
}

/// Walking the mapping backwards `k` times lands on the row holding the
/// rotation that starts `k` positions before the block's start, and spells
/// the block's last `k` bytes.
#[verifier::rlimit(100)]
proof fn lemma_bwt_walk_spells(x: Seq<u8>, k: int)
    requires
        x.len() > 0,
        0 <= k <= x.len(),
    ensures
        0 <= iter_lf(bwt_last_col_spec(x), bwt_index_spec(x), k as nat) < x.len(),
        sorted_rotations(x)[iter_lf(bwt_last_col_spec(x), bwt_index_spec(x), k as nat)]
            == rotation(
            x,
            if k == 0 {
                0int
            } else {
                x.len() - k
            },
        ),
        bwt_walk(bwt_last_col_spec(x), bwt_index_spec(x), k as nat) == x.skip(x.len() - k),
    decreases k,
{
    let n = x.len() as int;
    let r = sorted_rotations(x);
    let ll = bwt_last_col_spec(x);
    let idx0 = bwt_index_spec(x);
    lemma_sorted_rotations_shape(x);
    if k == 0 {
        // the original block sits at the stored index
        let rots = rotations(x);
        assert(rots[0] == rotation(x, 0));
        assert(rots.contains(rotation(x, 0)));
        lemma_sort_rows_contains(rots, rotation(x, 0));
        assert(rotation(x, 0) =~= x);
        assert(r.contains(x));
        lemma_index_of_row_works(r, x);
        assert(r[idx0] == x);
        assert(x =~= rotation(x, 0));
        assert(bwt_walk(ll, idx0, 0) =~= x.skip(n));
    } else {
        lemma_bwt_walk_spells(x, k - 1);
        let prev = iter_lf(ll, idx0, (k - 1) as nat);
        let jprev: int = if k - 1 == 0 {
            0
        } else {
            n - (k - 1)
        };
        assert(r[prev] == rotation(x, jprev));
        lemma_lf_maps(x, prev);
        let cur = iter_lf(ll, idx0, k as nat);
        assert(cur == lf_map(ll, prev));
        assert(r[cur] == rot_right(r[prev]));
        lemma_rr_rotation(x, jprev);
        let jcur: int = if jprev == 0 {
            n - 1
        } else {
            jprev - 1
        };
        assert(r[cur] == rotation(x, jcur));
        assert(jcur == n - k);

        // one more walked byte: the last byte of the previous row
        assert(ll[prev] == r[prev].last());
        lemma_rotation_index(x, jprev, n - 1);
        let emitted: u8 = if jprev == 0 {
            x[n - 1]
        } else {
            x[jprev - 1]
        };
        assert(r[prev].last() == emitted);
        assert(emitted == x[n - k]);
        assert(bwt_walk(ll, idx0, k as nat) == seq![ll[prev]] + bwt_walk(
            ll,
            idx0,
            (k - 1) as nat,
        ));
        assert(seq![x[n - k]] + x.skip(n - (k - 1)) =~= x.skip(n - k));
    }
}

/// The stored index always lies inside the block.
pub proof fn lemma_bwt_index_in_range(x: Seq<u8>)
    requires
        x.len() > 0,
    ensures
        0 <= bwt_index_spec(x) < x.len(),
{
    let r = sorted_rotations(x);
    let rots = rotations(x);
    lemma_sorted_rotations_shape(x);
    assert(rots[0] == rotation(x, 0));
    assert(rots.contains(rotation(x, 0)));
    lemma_sort_rows_contains(rots, rotation(x, 0));
    assert(rotation(x, 0) =~= x);
    assert(r.contains(x));
    lemma_index_of_row_works(r, x);
}

/// The Burrows-Wheeler involution: decoding the last column at the stored
/// index recovers the block, for every non-empty block including ones made
/// of a single repeated byte.
pub proof fn lemma_bwt_round_trip(x: Seq<u8>)
    requires
        x.len() > 0,
    ensures
        bwt_decode_spec(bwt_last_col_spec(x), bwt_index_spec(x)) == x,
{
    let n = x.len() as int;
    lemma_bwt_walk_spells(x, n);
    assert(bwt_last_col_spec(x).len() == n);
    assert(x.skip(0) =~= x);
}

} // verus!
