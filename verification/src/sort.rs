//! Stable sort of points by one coordinate axis.
//!
//! Construction splits a batch of points at the median of a sort along the
//! cycling axis.  The sort must be stable — ties keep their original
//! relative order — so that building from the same batch twice yields the
//! same tree.  The specification is a recursive insertion sort: each point
//! is inserted after every point already placed whose key is at most its
//! own, which is exactly stability; the executable sort mirrors it.

use crate::dbmodel::Vector;
use vstd::multiset::Multiset;
use vstd::prelude::*;
use vstd::seq_lib::lemma_multiset_commutative;

verus! {

/// Views of a sequence of vectors.
pub open spec fn views(vs: Seq<Vector>) -> Seq<Seq<i64>> {
    vs.map(|i: int, v: Vector| v@)
}

/// Insert `p` into `s` directly before the first entry whose coordinate on
/// `axis` strictly exceeds `p`'s, i.e. after every entry with an equal or
/// smaller key.
pub open spec fn insert_sorted(s: Seq<Seq<i64>>, p: Seq<i64>, axis: int) -> Seq<Seq<i64>>
    decreases s.len(),
{
    if s.len() == 0 {
        seq![p]
    } else if p[axis] < s[0][axis] {
        seq![p] + s
    } else {
        seq![s[0]] + insert_sorted(s.drop_first(), p, axis)
    }
}

/// Stable insertion sort by the coordinate on `axis`, ascending.
pub open spec fn sort_by_axis(s: Seq<Seq<i64>>, axis: int) -> Seq<Seq<i64>>
    decreases s.len(),
{
    if s.len() == 0 {
        Seq::empty()
    } else {
        insert_sorted(sort_by_axis(s.drop_last(), axis), s.last(), axis)
    }
}

/// Ascending by the coordinate on `axis`.
pub open spec fn sorted_by_axis(s: Seq<Seq<i64>>, axis: int) -> bool {
    forall|i: int, j: int| 0 <= i <= j < s.len() ==> s[i][axis] <= s[j][axis]
}

pub proof fn lemma_insert_sorted_len(s: Seq<Seq<i64>>, p: Seq<i64>, axis: int)
    ensures
        insert_sorted(s, p, axis).len() == s.len() + 1,
    decreases s.len(),
{
    if s.len() == 0 {
    } else if p[axis] < s[0][axis] {
    } else {
        lemma_insert_sorted_len(s.drop_first(), p, axis);
    }
}

pub proof fn lemma_sort_len(s: Seq<Seq<i64>>, axis: int)
    ensures
        sort_by_axis(s, axis).len() == s.len(),
    decreases s.len(),
{
    if s.len() == 0 {
    } else {
        lemma_sort_len(s.drop_last(), axis);
        lemma_insert_sorted_len(sort_by_axis(s.drop_last(), axis), s.last(), axis);
    }
}

/// Inserting adds exactly the one point to the contents.
pub proof fn lemma_insert_sorted_multiset(s: Seq<Seq<i64>>, p: Seq<i64>, axis: int)
    ensures
        insert_sorted(s, p, axis).to_multiset() =~= s.to_multiset().insert(p),
    decreases s.len(),
{
    broadcast use vstd::seq_lib::group_to_multiset_ensures;
    broadcast use vstd::multiset::group_multiset_axioms;

    if s.len() == 0 {
        assert(insert_sorted(s, p, axis) =~= s.insert(0, p));
        vstd::seq_lib::to_multiset_insert(s, 0, p);
        assert(insert_sorted(s, p, axis).to_multiset() =~= s.to_multiset().insert(p));
    } else if p[axis] < s[0][axis] {
        assert(insert_sorted(s, p, axis) =~= s.insert(0, p));
        vstd::seq_lib::to_multiset_insert(s, 0, p);
        assert(insert_sorted(s, p, axis).to_multiset() =~= s.to_multiset().insert(p));
    } else {
        let tail = s.drop_first();
        let it = insert_sorted(tail, p, axis);
        lemma_insert_sorted_multiset(tail, p, axis);
        lemma_multiset_commutative(seq![s[0]], it);
        assert(s =~= seq![s[0]] + tail);
        lemma_multiset_commutative(seq![s[0]], tail);
        assert(insert_sorted(s, p, axis) == seq![s[0]] + it);
        assert forall|x: Seq<i64>|
            insert_sorted(s, p, axis).to_multiset().count(x) == s.to_multiset().insert(p).count(
                x,
            ) by {
            assert((seq![s[0]] + it).to_multiset().count(x) == seq![s[0]].to_multiset().count(x)
                + it.to_multiset().count(x));
            assert(it.to_multiset().count(x) == tail.to_multiset().insert(p).count(x));
            assert(tail.to_multiset().insert(p).count(x) == tail.to_multiset().count(x)
                + Multiset::<Seq<i64>>::singleton(p).count(x));
            assert(s.to_multiset().count(x) == seq![s[0]].to_multiset().count(x)
                + tail.to_multiset().count(x));
            assert(s.to_multiset().insert(p).count(x) == s.to_multiset().count(x) + Multiset::<
                Seq<i64>,
            >::singleton(p).count(x));
        }
    }
}

/// Sorting keeps exactly the input points.
pub proof fn lemma_sort_multiset(s: Seq<Seq<i64>>, axis: int)
    ensures
        sort_by_axis(s, axis).to_multiset() =~= s.to_multiset(),
    decreases s.len(),
{
    broadcast use vstd::seq_lib::group_to_multiset_ensures;
    broadcast use vstd::multiset::group_multiset_axioms;

    if s.len() == 0 {
    } else {
        lemma_sort_multiset(s.drop_last(), axis);
        lemma_insert_sorted_multiset(sort_by_axis(s.drop_last(), axis), s.last(), axis);
        assert(s =~= s.drop_last().push(s.last()));
    }
}

/// A point of a sequence is in its contents.
pub proof fn lemma_index_in_multiset(s: Seq<Seq<i64>>, k: int)
    requires
        0 <= k < s.len(),
    ensures
        s.to_multiset().contains(s[k]),
{
    broadcast use vstd::seq_lib::group_to_multiset_ensures;
    broadcast use vstd::multiset::group_multiset_axioms;

    assert(s.contains(s[k]));
}

/// Inserting into a sorted sequence keeps it sorted.
pub proof fn lemma_insert_sorted_sorted(s: Seq<Seq<i64>>, p: Seq<i64>, axis: int)
    requires
        sorted_by_axis(s, axis),
    ensures
        sorted_by_axis(insert_sorted(s, p, axis), axis),
    decreases s.len(),
{
    broadcast use vstd::seq_lib::group_to_multiset_ensures;
    broadcast use vstd::multiset::group_multiset_axioms;

    if s.len() == 0 {
    } else if p[axis] < s[0][axis] {
        let r = seq![p] + s;
        assert forall|i: int, j: int| 0 <= i <= j < r.len() implies r[i][axis] <= r[j][axis] by {
            if i == 0 {
                if j > 0 {
                    assert(r[j] == s[j - 1]);
                    assert(s[0][axis] <= s[j - 1][axis]);
                }
            } else {
                assert(r[i] == s[i - 1] && r[j] == s[j - 1]);
            }
        }
    } else {
        let tail = s.drop_first();
        assert(sorted_by_axis(tail, axis)) by {
            assert(forall|i: int, j: int|
                0 <= i <= j < tail.len() ==> tail[i] == s[i + 1] && tail[j] == s[j + 1]);
        }
        lemma_insert_sorted_sorted(tail, p, axis);
        lemma_insert_sorted_multiset(tail, p, axis);
        let it = insert_sorted(tail, p, axis);
        let r = seq![s[0]] + it;
        // every entry of the new tail is either `p` or an entry of the old
        // tail, and both have keys at least the head's
        assert forall|j: int| 0 <= j < it.len() implies s[0][axis] <= it[j][axis] by {
            lemma_index_in_multiset(it, j);
            assert(it.to_multiset().contains(it[j]));
            if it[j] == p {
            } else {
                assert(tail.to_multiset().contains(it[j]));
                assert(tail.contains(it[j]));
                let w = choose|w: int| 0 <= w < tail.len() && tail[w] == it[j];
                assert(tail[w] == s[w + 1]);
                assert(s[0][axis] <= s[w + 1][axis]);
            }
        }
        assert forall|i: int, j: int| 0 <= i <= j < r.len() implies r[i][axis] <= r[j][axis] by {
            if i == 0 {
                if j > 0 {
                    assert(r[j] == it[j - 1]);
                }
            } else {
                assert(r[i] == it[i - 1] && r[j] == it[j - 1]);
            }
        }
    }
}

/// The sort's result is sorted.
pub proof fn lemma_sort_sorted(s: Seq<Seq<i64>>, axis: int)
    ensures
        sorted_by_axis(sort_by_axis(s, axis), axis),
    decreases s.len(),
{
    if s.len() == 0 {
    } else {
        lemma_sort_sorted(s.drop_last(), axis);
        lemma_insert_sorted_sorted(sort_by_axis(s.drop_last(), axis), s.last(), axis);
    }
}

/// Scanning to the first entry with a strictly larger key and inserting
/// there is what `insert_sorted` does.
proof fn lemma_insert_sorted_at(s: Seq<Seq<i64>>, p: Seq<i64>, axis: int, k: int)
    requires
        0 <= k <= s.len(),
        forall|j: int| 0 <= j < k ==> !(p[axis] < #[trigger] s[j][axis]),
        k < s.len() ==> p[axis] < s[k][axis],
    ensures
        insert_sorted(s, p, axis) == s.insert(k, p),
    decreases s.len(),
{
    if s.len() == 0 {
        assert(insert_sorted(s, p, axis) =~= s.insert(0, p));
    } else if k == 0 {
        assert(p[axis] < s[0][axis]);
        assert(seq![p] + s =~= s.insert(0, p));
    } else {
        assert(!(p[axis] < s[0][axis]));
        let tail = s.drop_first();
        assert(forall|j: int| 0 <= j < k - 1 ==> tail[j] == s[j + 1]);
        assert(k - 1 < tail.len() ==> tail[k - 1] == s[k]);
        lemma_insert_sorted_at(tail, p, axis, k - 1);
        assert(seq![s[0]] + tail.insert(k - 1, p) =~= s.insert(k, p));
    }
}

/// Inserts a point into a vector batch directly before the first entry
/// whose coordinate on `axis` strictly exceeds the point's.
fn insert_vector_sorted(vs: Vec<Vector>, x: Vector, axis: usize) -> (r: Vec<Vector>)
    requires
        (axis as int) < x@.len(),
        forall|i: int| 0 <= i < vs@.len() ==> (axis as int) < (#[trigger] vs@[i])@.len(),
    ensures
        views(r@) == insert_sorted(views(vs@), x@, axis as int),
        r@.len() == vs@.len() + 1,
        forall|i: int|
            0 <= i < r@.len() ==> (#[trigger] r@[i])@ == x@ || exists|j: int|
                0 <= j < vs@.len() && r@[i]@ == (#[trigger] vs@[j])@,
{
    let mut vs = vs;
    let ghost orig = vs@;
    let mut k: usize = 0;
    while k < vs.len() && !(x.coordinates[axis] < vs[k].coordinates[axis])
        invariant
            vs@ == orig,
            (axis as int) < x@.len(),
            forall|i: int| 0 <= i < vs@.len() ==> (axis as int) < (#[trigger] vs@[i])@.len(),
            0 <= k <= vs@.len(),
            forall|j: int| 0 <= j < k ==> !(x@[axis as int] < (#[trigger] vs@[j])@[axis as int]),
        decreases vs@.len() - k,
    {
        k = k + 1;
    }
    proof {
        assert(forall|j: int|
            0 <= j < k ==> views(orig)[j] == (#[trigger] orig[j])@);
        assert((k as int) < orig.len() ==> views(orig)[k as int] == orig[k as int]@);
        lemma_insert_sorted_at(views(orig), x@, axis as int, k as int);
    }
    vs.insert(k, x);
    proof {
        assert(views(vs@) =~= insert_sorted(views(orig), x@, axis as int)) by {
            assert(vs@ == orig.insert(k as int, x));
            assert(forall|i: int|
                0 <= i < vs@.len() ==> views(vs@)[i] == (#[trigger] vs@[i])@);
        }
        assert forall|i: int| 0 <= i < vs@.len() implies (#[trigger] vs@[i])@ == x@ || exists|j: int|
            0 <= j < orig.len() && vs@[i]@ == (#[trigger] orig[j])@ by {
            if i < k {
                assert(vs@[i] == orig[i]);
            } else if i == k {
                assert(vs@[i] == x);
            } else {
                assert(vs@[i] == orig[i - 1]);
            }
        }
    }
    vs
}

/// Stable sort of a vector batch by the coordinate on `axis`, ascending.
pub(crate) fn sort_vectors(vs: Vec<Vector>, axis: usize) -> (r: Vec<Vector>)
    requires
        forall|i: int| 0 <= i < vs@.len() ==> (axis as int) < (#[trigger] vs@[i])@.len(),
    ensures
        views(r@) == sort_by_axis(views(vs@), axis as int),
        r@.len() == vs@.len(),
        forall|i: int|
            0 <= i < r@.len() ==> exists|j: int|
                0 <= j < vs@.len() && (#[trigger] r@[i])@ == vs@[j]@,
{
    let mut out: Vec<Vector> = Vec::new();
    let mut i: usize = 0;
    while i < vs.len()
        invariant
            forall|t: int| 0 <= t < vs@.len() ==> (axis as int) < (#[trigger] vs@[t])@.len(),
            0 <= i <= vs@.len(),
            out@.len() == i,
            views(out@) == sort_by_axis(views(vs@).take(i as int), axis as int),
            forall|t: int|
                0 <= t < out@.len() ==> exists|j: int|
                    0 <= j < vs@.len() && (#[trigger] out@[t])@ == vs@[j]@,
        decreases vs@.len() - i,
    {
        let x = vs[i].clone();
        let ghost prev = out@;
        proof {
            assert(forall|t: int|
                0 <= t < out@.len() ==> (axis as int) < (#[trigger] out@[t])@.len());
        }
        out = insert_vector_sorted(out, x, axis);
        proof {
            let tk = views(vs@).take(i + 1);
            assert(tk.drop_last() =~= views(vs@).take(i as int));
            assert(tk.last() == views(vs@)[i as int]);
            assert(views(vs@)[i as int] == vs@[i as int]@);
            assert(views(out@) == sort_by_axis(tk, axis as int));
        }
        i = i + 1;
    }
    proof {
        assert(views(vs@).take(vs@.len() as int) =~= views(vs@));
    }
    out
}

/// A point drawn from a sequence's contents is one of its entries.
pub proof fn lemma_multiset_member_index(s: Seq<Seq<i64>>, p: Seq<i64>)
    requires
        s.to_multiset().contains(p),
    ensures
        exists|j: int| 0 <= j < s.len() && s[j] == p,
{
    broadcast use vstd::seq_lib::group_to_multiset_ensures;
    broadcast use vstd::multiset::group_multiset_axioms;

    assert(s.contains(p));
}

} // verus!
