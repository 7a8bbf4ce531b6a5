//! The spatial index: build-once KD-tree construction and the
//! nearest-neighbour-by-similarity search.

use crate::dbmodel::{next_axis, points_of, tree_dim, wf_point, wf_tree, Node, Vector};
use crate::sim::{gap_exceeds, gap_gt_sim, more_similar, sim_gt};
use crate::sort::{
    lemma_index_in_multiset, lemma_multiset_member_index, lemma_sort_len, lemma_sort_multiset,
    lemma_sort_sorted, sort_by_axis, sort_vectors, views,
};
use vstd::multiset::Multiset;
use vstd::prelude::*;

verus! {

/// The view of an optional search result.
pub open spec fn opt_view(o: Option<Vector>) -> Option<Seq<i64>> {
    match o {
        None => None,
        Some(v) => Some(v@),
    }
}

/// What construction produces from the batch `s` when the subtree's root
/// splits on `axis`: the batch is stably sorted by the coordinate on `axis`,
/// the lower median becomes the node's point, and the two halves around it
/// become the subtrees, splitting on the next axis of the cycle.  For a
/// given batch exactly one tree satisfies this relation.
pub open spec fn is_build(t: Option<Box<Node>>, s: Seq<Seq<i64>>, axis: nat, dim: nat) -> bool
    decreases t,
{
    match t {
        None => s.len() == 0,
        Some(n) => {
            let sorted = sort_by_axis(s, axis as int);
            let m = s.len() as int / 2;
            &&& s.len() > 0
            &&& n.vector@ == sorted[m]
            &&& is_build(n.left, sorted.take(m), next_axis(axis, dim), dim)
            &&& is_build(n.right, sorted.skip(m + 1), next_axis(axis, dim), dim)
        },
    }
}

/// What the search returns on a subtree whose root splits on `axis`: descend
/// into the half-space containing the query, adopt the better of that
/// result and the node's own point, and visit the far branch only when the
/// coordinate gap at the split axis exceeds the similarity of the best
/// candidate so far, replacing it only by a strictly more similar point.
pub open spec fn nn_spec(t: Option<Box<Node>>, q: Seq<i64>, axis: nat, dim: nat) -> Option<
    Seq<i64>,
>
    decreases t,
{
    match t {
        None => None,
        Some(n) => {
            let a = axis as int;
            let go_left = q[a] < n.vector@[a];
            let primary = if go_left {
                n.left
            } else {
                n.right
            };
            let secondary = if go_left {
                n.right
            } else {
                n.left
            };
            let sub = nn_spec(primary, q, next_axis(axis, dim), dim);
            let best = if sub is None || sim_gt(n.vector@, sub.unwrap(), q) {
                n.vector@
            } else {
                sub.unwrap()
            };
            let gap = if q[a] >= n.vector@[a] {
                (q[a] - n.vector@[a]) as int
            } else {
                (n.vector@[a] - q[a]) as int
            };
            if gap_gt_sim(gap, best, q) {
                let sub2 = nn_spec(secondary, q, next_axis(axis, dim), dim);
                if sub2 is Some && sim_gt(sub2.unwrap(), best, q) {
                    sub2
                } else {
                    Some(best)
                }
            } else {
                Some(best)
            }
        },
    }
}

/// Stepping the axis cycle agrees with taking the depth modulo the
/// dimension at the next depth.
pub proof fn lemma_next_axis_mod(d: nat, dim: nat)
    requires
        dim >= 1,
    ensures
        next_axis(d % dim, dim) == (d + 1) % dim,
{
    vstd::arithmetic::div_mod::lemma_add_mod_noop(d as int, 1, dim as int);
    let a = (d % dim) as int;
    vstd::arithmetic::div_mod::lemma_mod_bound(d as int, dim as int);
    if dim == 1 {
        vstd::arithmetic::div_mod::lemma_mod_self_0(1);
    } else {
        vstd::arithmetic::div_mod::lemma_small_mod(1, dim);
        if a + 1 == dim {
            vstd::arithmetic::div_mod::lemma_mod_self_0(dim as int);
        } else {
            vstd::arithmetic::div_mod::lemma_small_mod((a + 1) as nat, dim);
        }
    }
}

/// The error of the index: the points handed to construction, or a query
/// point, do not share one dimension.
#[derive(Clone, Copy, Debug, PartialEq, Eq, Structural)]
pub enum KdError {
    DimensionMismatch,
}

/// The spatial index: an optional root node, built once and then only
/// queried.
#[derive(Debug)]
pub struct KDTree {
    root: Option<Box<Node>>,
}

impl KDTree {
    /// The tree this index owns.
    pub closed spec fn spec_tree(self) -> Option<Box<Node>> {
        self.root
    }

    /// The dimension of the index's points; 0 for an empty index.
    pub open spec fn dim(self) -> nat {
        tree_dim(self.spec_tree())
    }

    /// The points the index holds.
    pub open spec fn contents(self) -> Multiset<Seq<i64>> {
        points_of(self.spec_tree())
    }

    /// The index satisfies the KD-tree ordering invariant at its own
    /// dimension.
    pub open spec fn wf(self) -> bool {
        wf_tree(self.spec_tree(), 0, self.dim())
    }

    /// Builds the subtree for the batch `vectors`, whose root splits on
    /// axis `depth mod dimension`.
    pub fn construct_kd_tree(vectors: Vec<Vector>, depth: usize) -> (r: Option<Box<Node>>)
        requires
            forall|i: int| 0 <= i < vectors@.len() ==> (#[trigger] vectors@[i]).wf(),
            forall|i: int|
                0 <= i < vectors@.len() ==> (#[trigger] vectors@[i])@.len()
                    == vectors@[0]@.len(),
            depth + vectors@.len() <= usize::MAX,
        ensures
            r is None <==> vectors@.len() == 0,
            vectors@.len() > 0 ==> is_build(
                r,
                views(vectors@),
                (depth as nat) % vectors@[0]@.len(),
                vectors@[0]@.len(),
            ),
        decreases vectors@.len(),
    {
        if vectors.len() == 0 {
            return None;
        }
        let ghost orig = views(vectors@);
        let ghost n0 = vectors@.len() as int;
        let dim = vectors[0].coordinates.len();
        let axis = depth % dim;
        proof {
            assert(forall|i: int|
                0 <= i < vectors@.len() ==> (axis as int) < (#[trigger] vectors@[i])@.len());
        }
        let sorted = sort_vectors(vectors, axis);
        let ghost sv = sort_by_axis(orig, axis as int);
        proof {
            assert(orig.len() == n0);
            lemma_sort_len(orig, axis as int);
        }
        let m = sorted.len() / 2;
        let mut left = sorted;
        let mut rest = left.split_off(m);
        let right = rest.split_off(1);
        let median = rest.pop().unwrap();
        proof {
            assert(views(left@) =~= sv.take(m as int)) by {
                assert(forall|i: int|
                    0 <= i < left@.len() ==> views(left@)[i] == (#[trigger] left@[i])@);
            }
            assert(views(right@) =~= sv.skip(m as int + 1)) by {
                assert(forall|i: int|
                    0 <= i < right@.len() ==> views(right@)[i] == (#[trigger] right@[i])@);
            }
            assert(median@ == sv[m as int]);
            // the halves inherit well-formedness and the common dimension
            assert(forall|i: int|
                0 <= i < left@.len() ==> (#[trigger] left@[i]).wf() && left@[i]@.len()
                    == dim);
            assert(forall|i: int|
                0 <= i < right@.len() ==> (#[trigger] right@[i]).wf() && right@[i]@.len()
                    == dim);
            assert(left@.len() > 0 ==> left@[0]@.len() == dim);
            assert(right@.len() > 0 ==> right@[0]@.len() == dim);
        }
        let mut node = Node::new(median);
        node.left = Self::construct_kd_tree(left, depth + 1);
        node.right = Self::construct_kd_tree(right, depth + 1);
        proof {
            lemma_next_axis_mod(depth as nat, dim as nat);
            assert(node.left is None <==> sv.take(m as int).len() == 0);
            assert(node.right is None <==> sv.skip(m as int + 1).len() == 0);
            assert(is_build(
                node.left,
                sv.take(m as int),
                next_axis((depth as nat) % (dim as nat), dim as nat),
                dim as nat,
            ));
            assert(is_build(
                node.right,
                sv.skip(m as int + 1),
                next_axis((depth as nat) % (dim as nat), dim as nat),
                dim as nat,
            ));
            assert(m as int == orig.len() as int / 2);
        }
        Some(Box::new(node))
    }

    /// Builds the index from a batch of points, all of one dimension.  The
    /// resulting tree is the one `is_build` describes; it satisfies the
    /// ordering invariant and holds exactly the input points.
    pub fn new(vectors: Vec<Vector>) -> (t: KDTree)
        requires
            forall|i: int| 0 <= i < vectors@.len() ==> (#[trigger] vectors@[i]).wf(),
            forall|i: int|
                0 <= i < vectors@.len() ==> (#[trigger] vectors@[i])@.len()
                    == vectors@[0]@.len(),
        ensures
            t.spec_tree() is None <==> vectors@.len() == 0,
            vectors@.len() > 0 ==> is_build(
                t.spec_tree(),
                views(vectors@),
                0,
                vectors@[0]@.len(),
            ),
            vectors@.len() > 0 ==> t.dim() == vectors@[0]@.len(),
            t.wf(),
            t.contents() == views(vectors@).to_multiset(),
    {
        let n = vectors.len();
        let ghost dim = vectors@[0]@.len();
        let root = Self::construct_kd_tree(vectors, 0);
        proof {
            broadcast use vstd::seq_lib::group_to_multiset_ensures;
            broadcast use vstd::multiset::group_multiset_axioms;

            if n > 0 {
                vstd::arithmetic::div_mod::lemma_small_mod(0, dim);
                assert(is_build(root, views(vectors@), 0, dim));
                assert(forall|i: int|
                    0 <= i < views(vectors@).len() ==> #[trigger] views(vectors@)[i]
                        == vectors@[i]@);
                lemma_build_wf(root, views(vectors@), 0, dim);
                assert(tree_dim(root) == dim) by {
                    match root {
                        None => {
                            assert(false);
                        },
                        Some(nd) => {},
                    }
                }
            } else {
                assert(views(vectors@).len() == 0);
                assert(views(vectors@).to_multiset().len() == 0);
                assert(points_of(root) =~= views(vectors@).to_multiset());
            }
        }
        KDTree { root }
    }

    /// Builds the index, rejecting a batch whose points do not all share
    /// the dimension of its first point.
    pub fn build(vectors: Vec<Vector>) -> (r: Result<KDTree, KdError>)
        requires
            forall|i: int| 0 <= i < vectors@.len() ==> (#[trigger] vectors@[i]).wf(),
        ensures
            (r is Ok) <==> (forall|i: int|
                0 <= i < vectors@.len() ==> (#[trigger] vectors@[i])@.len()
                    == vectors@[0]@.len()),
            r is Err ==> r == Result::<KDTree, KdError>::Err(KdError::DimensionMismatch),
            r is Ok ==> {
                let t = r.unwrap();
                &&& t.wf()
                &&& (t.spec_tree() is None <==> vectors@.len() == 0)
                &&& t.contents() == views(vectors@).to_multiset()
                &&& (vectors@.len() > 0 ==> is_build(
                    t.spec_tree(),
                    views(vectors@),
                    0,
                    vectors@[0]@.len(),
                ) && t.dim() == vectors@[0]@.len())
            },
    {
        if vectors.len() == 0 {
            return Ok(Self::new(vectors));
        }
        let d0 = vectors[0].coordinates.len();
        let mut i: usize = 1;
        while i < vectors.len()
            invariant
                1 <= i <= vectors@.len(),
                d0 == vectors@[0]@.len(),
                forall|j: int| 0 <= j < i ==> (#[trigger] vectors@[j])@.len() == d0,
            decreases vectors@.len() - i,
        {
            if vectors[i].coordinates.len() != d0 {
                return Err(KdError::DimensionMismatch);
            }
            i = i + 1;
        }
        Ok(Self::new(vectors))
    }

    /// Answers a nearest-neighbour query; the caller must supply a query
    /// point of the index's dimension.
    pub fn nearest_neighbor(&self, query_vector: &Vector) -> (r: Option<Vector>)
        requires
            query_vector.wf(),
            self.wf(),
            self.spec_tree() is Some ==> self.dim() == query_vector@.len(),
        ensures
            opt_view(r) == nn_spec(self.spec_tree(), query_vector@, 0, query_vector@.len()),
            (r is Some) <==> (self.spec_tree() is Some),
            r is Some ==> r.unwrap().wf() && r.unwrap()@.len() == query_vector@.len(),
    {
        proof {
            vstd::arithmetic::div_mod::lemma_small_mod(0, query_vector@.len());
            crate::laws::lemma_query_some(self.root, query_vector@, 0, query_vector@.len());
        }
        self._nearest_neighbor(&self.root, query_vector, 0)
    }

    /// Answers a nearest-neighbour query, rejecting a query point whose
    /// dimension differs from the index's.  An empty index answers every
    /// query with no result.
    pub fn query(&self, query_vector: &Vector) -> (r: Result<Option<Vector>, KdError>)
        requires
            query_vector.wf(),
            self.wf(),
        ensures
            (r is Ok) <==> (self.spec_tree() is None || self.dim() == query_vector@.len()),
            r is Err ==> r == Result::<Option<Vector>, KdError>::Err(KdError::DimensionMismatch),
            self.spec_tree() is None ==> r is Ok && r.unwrap() is None,
            self.spec_tree() is Some && self.dim() == query_vector@.len() ==> r is Ok
                && opt_view(r.unwrap()) == nn_spec(
                self.spec_tree(),
                query_vector@,
                0,
                query_vector@.len(),
            ) && r.unwrap() is Some,
    {
        match &self.root {
            None => Ok(None),
            Some(n) => {
                if query_vector.coordinates.len() != n.vector.coordinates.len() {
                    Err(KdError::DimensionMismatch)
                } else {
                    proof {
                        vstd::arithmetic::div_mod::lemma_small_mod(0, query_vector@.len());
                    }
                    Ok(self._nearest_neighbor(&self.root, query_vector, 0))
                }
            },
        }
    }

    /// The recursive search on a subtree reached at `depth`, which splits
    /// on axis `depth mod dimension`.
    pub fn _nearest_neighbor(
        &self,
        node: &Option<Box<Node>>,
        query_vector: &Vector,
        depth: usize,
    ) -> (r: Option<Vector>)
        requires
            query_vector.wf(),
            wf_tree(*node, (depth as nat) % query_vector@.len(), query_vector@.len()),
        ensures
            opt_view(r) == nn_spec(
                *node,
                query_vector@,
                (depth as nat) % query_vector@.len(),
                query_vector@.len(),
            ),
            r is Some ==> r.unwrap().wf() && r.unwrap()@.len() == query_vector@.len(),
    {
        let dim = query_vector.coordinates.len();
        let axis = depth % dim;
        Self::nn_search(node, query_vector, axis)
    }

    /// The search worker, recursing on the axis cycle.
    fn nn_search(node: &Option<Box<Node>>, query_vector: &Vector, axis: usize) -> (r: Option<
        Vector,
    >)
        requires
            query_vector.wf(),
            (axis as int) < query_vector@.len(),
            wf_tree(*node, axis as nat, query_vector@.len()),
        ensures
            opt_view(r) == nn_spec(*node, query_vector@, axis as nat, query_vector@.len()),
            r is Some ==> r.unwrap().wf() && r.unwrap()@.len() == query_vector@.len(),
        decreases node,
    {
        match node {
            None => None,
            Some(n) => {
                let dim = query_vector.coordinates.len();
                let go_left = query_vector.coordinates[axis] < n.vector.coordinates[axis];
                let primary = if go_left {
                    &n.left
                } else {
                    &n.right
                };
                let secondary = if go_left {
                    &n.right
                } else {
                    &n.left
                };
                let next = if axis + 1 == dim {
                    0
                } else {
                    axis + 1
                };
                let sub = Self::nn_search(primary, query_vector, next);
                let mut nearest: Vector = match sub {
                    None => n.vector.clone(),
                    Some(s) => {
                        if more_similar(&n.vector, &s, query_vector) {
                            n.vector.clone()
                        } else {
                            s
                        }
                    },
                };
                let qa = query_vector.coordinates[axis];
                let na = n.vector.coordinates[axis];
                let diff = if qa >= na {
                    qa - na
                } else {
                    na - qa
                };
                if gap_exceeds(diff, &nearest, query_vector) {
                    let sub2 = Self::nn_search(secondary, query_vector, next);
                    if let Some(s2) = sub2 {
                        if more_similar(&s2, &nearest, query_vector) {
                            nearest = s2;
                        }
                    }
                }
                Some(nearest)
            },
        }
    }
}

/// A tree that construction describes satisfies the ordering invariant and
/// holds exactly the points of its batch.
pub proof fn lemma_build_wf(t: Option<Box<Node>>, s: Seq<Seq<i64>>, axis: nat, dim: nat)
    requires
        is_build(t, s, axis, dim),
        axis < dim,
        forall|i: int| 0 <= i < s.len() ==> (#[trigger] s[i]).len() == dim && wf_point(s[i]),
    ensures
        wf_tree(t, axis, dim),
        points_of(t) =~= s.to_multiset(),
    decreases t,
{
    broadcast use vstd::seq_lib::group_to_multiset_ensures;
    broadcast use vstd::multiset::group_multiset_axioms;

    match t {
        None => {
            assert(s.len() == 0);
            assert(s.to_multiset().len() == 0);
        },
        Some(n) => {
            let a = axis as int;
            let sorted = sort_by_axis(s, a);
            let m = s.len() as int / 2;
            lemma_sort_len(s, a);
            lemma_sort_multiset(s, a);
            lemma_sort_sorted(s, a);
            assert forall|k: int| 0 <= k < sorted.len() implies (#[trigger] sorted[k]).len()
                == dim && wf_point(sorted[k]) by {
                lemma_index_in_multiset(sorted, k);
                lemma_multiset_member_index(s, sorted[k]);
            }
            let left = sorted.take(m);
            let right = sorted.skip(m + 1);
            assert(forall|i: int| 0 <= i < left.len() ==> #[trigger] left[i] == sorted[i]);
            assert(forall|i: int|
                0 <= i < right.len() ==> #[trigger] right[i] == sorted[i + m + 1]);
            lemma_build_wf(n.left, left, next_axis(axis, dim), dim);
            lemma_build_wf(n.right, right, next_axis(axis, dim), dim);
            // the ordering of the sorted batch gives the subtree bounds
            assert forall|p: Seq<i64>| points_of(n.left).contains(p) implies p[a]
                <= n.vector@[a] by {
                lemma_multiset_member_index(left, p);
                let k = choose|k: int| 0 <= k < left.len() && left[k] == p;
                assert(sorted[k][a] <= sorted[m][a]);
            }
            assert forall|p: Seq<i64>| points_of(n.right).contains(p) implies p[a]
                >= n.vector@[a] by {
                lemma_multiset_member_index(right, p);
                let k = choose|k: int| 0 <= k < right.len() && right[k] == p;
                assert(sorted[m][a] <= sorted[k + m + 1][a]);
            }
            assert(wf_tree(t, axis, dim));
            // the three parts of the sorted batch are exactly its contents
            assert(sorted =~= left + (seq![sorted[m]] + right));
            vstd::seq_lib::lemma_multiset_commutative(left, seq![sorted[m]] + right);
            vstd::seq_lib::lemma_multiset_commutative(seq![sorted[m]], right);
            assert(seq![sorted[m]] =~= Seq::<Seq<i64>>::empty().insert(0, sorted[m]));
            vstd::seq_lib::to_multiset_insert(Seq::<Seq<i64>>::empty(), 0, sorted[m]);
            assert(points_of(t) =~= s.to_multiset()) by {
                assert(points_of(t) == points_of(n.left).insert(n.vector@).add(
                    points_of(n.right),
                ));
                assert forall|x: Seq<i64>| points_of(t).count(x) == s.to_multiset().count(
                    x,
                ) by {
                    assert(points_of(n.left).insert(n.vector@).add(points_of(n.right)).count(x)
                        == points_of(n.left).count(x) + Multiset::<Seq<i64>>::singleton(
                        n.vector@,
                    ).count(x) + points_of(n.right).count(x));
                    assert(sorted.to_multiset().count(x) == left.to_multiset().count(x) + (
                    seq![sorted[m]] + right).to_multiset().count(x));
                    assert((seq![sorted[m]] + right).to_multiset().count(x)
                        == seq![sorted[m]].to_multiset().count(x) + right.to_multiset().count(x));
                    assert(seq![sorted[m]].to_multiset().count(x) == Multiset::<
                        Seq<i64>,
                    >::empty().insert(sorted[m]).count(x));
                }
            }
        },
    }
}

} // verus!
