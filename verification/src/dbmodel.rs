//! The data model: points (`Vector`) and tree nodes (`Node`), together with
//! the spec-level description of a tree's contents and of the KD-tree
//! ordering invariant.

use vstd::multiset::Multiset;
use vstd::prelude::*;

verus! {

/// Largest coordinate magnitude the index accepts.  Keeping every coordinate
/// within this bound lets each similarity comparison be decided exactly in
/// 128-bit integer arithmetic, with no possibility of overflow.
pub const COORD_LIMIT: i64 = 65536;

/// Largest dimension the index accepts, for the same overflow bound.
pub const MAX_DIM: usize = 1024;

/// A coordinate sequence with every entry within `COORD_LIMIT`.
pub open spec fn bounded_seq(s: Seq<i64>) -> bool {
    forall|i: int| 0 <= i < s.len() ==> -COORD_LIMIT <= #[trigger] s[i] <= COORD_LIMIT
}

/// A well-formed coordinate sequence: dimension between 1 and `MAX_DIM`,
/// every coordinate within `COORD_LIMIT`.
pub open spec fn wf_point(s: Seq<i64>) -> bool {
    &&& 1 <= s.len() <= MAX_DIM
    &&& bounded_seq(s)
}

/// A point of the index: an immutable fixed-dimension coordinate vector.
#[derive(Debug, PartialEq)]
pub struct Vector {
    pub coordinates: Vec<i64>,
}

impl View for Vector {
    type V = Seq<i64>;

    open spec fn view(&self) -> Seq<i64> {
        self.coordinates@
    }
}

impl Vector {
    /// The dimension is between 1 and `MAX_DIM` and every coordinate is
    /// within `COORD_LIMIT`.
    pub open spec fn wf(self) -> bool {
        wf_point(self@)
    }

    pub fn new(coordinates: Vec<i64>) -> (v: Vector)
        ensures
            v@ == coordinates@,
    {
        Vector { coordinates }
    }
}

impl Clone for Vector {
    fn clone(&self) -> (res: Self)
        ensures
            res@ == self@,
    {
        let c = self.coordinates.clone();
        proof {
            assert(c@ =~= self.coordinates@);
        }
        Vector { coordinates: c }
    }
}

/// One tree node: it owns one point and up to two subtrees.
#[derive(Debug)]
pub struct Node {
    pub vector: Vector,
    pub left: Option<Box<Node>>,
    pub right: Option<Box<Node>>,
}

impl Node {
    pub(crate) fn new(vector: Vector) -> (n: Node)
        ensures
            n.vector == vector,
            n.left is None,
            n.right is None,
    {
        Node { vector, left: None, right: None }
    }
}

/// The points a tree holds, as a multiset of coordinate sequences.
pub open spec fn points_of(t: Option<Box<Node>>) -> Multiset<Seq<i64>>
    decreases t,
{
    match t {
        None => Multiset::empty(),
        Some(n) => points_of(n.left).insert(n.vector@).add(points_of(n.right)),
    }
}

/// The dimension of the tree's points; 0 for the empty tree.
pub open spec fn tree_dim(t: Option<Box<Node>>) -> nat {
    match t {
        None => 0,
        Some(n) => n.vector@.len(),
    }
}

/// The axis the children of a node split on, when the node splits on `axis`:
/// axes cycle through 0, 1, ..., dim - 1 as the depth grows.
pub open spec fn next_axis(axis: nat, dim: nat) -> nat {
    if axis + 1 == dim {
        0
    } else {
        axis + 1
    }
}

/// The KD-tree ordering invariant for a subtree whose root splits on `axis`:
/// every point of the left subtree is at most the node's coordinate on that
/// axis, every point of the right subtree at least it, every point is a
/// well-formed vector of dimension `dim`, and the children satisfy the same
/// invariant on the next axis of the cycle.  The search's pruning decision
/// is sound against exactly this ordering.
pub open spec fn wf_tree(t: Option<Box<Node>>, axis: nat, dim: nat) -> bool
    decreases t,
{
    match t {
        None => true,
        Some(n) => {
            &&& n.vector.wf()
            &&& n.vector@.len() == dim
            &&& forall|p: Seq<i64>|
                points_of(n.left).contains(p) ==> p[axis as int] <= n.vector@[axis as int]
            &&& forall|p: Seq<i64>|
                points_of(n.right).contains(p) ==> p[axis as int] >= n.vector@[axis as int]
            &&& wf_tree(n.left, next_axis(axis, dim), dim)
            &&& wf_tree(n.right, next_axis(axis, dim), dim)
        },
    }
}

/// Every point of a well-formed tree is a well-formed vector of the tree's
/// dimension.
pub proof fn lemma_wf_tree_points(t: Option<Box<Node>>, axis: nat, dim: nat)
    requires
        wf_tree(t, axis, dim),
    ensures
        forall|p: Seq<i64>|
            points_of(t).contains(p) ==> p.len() == dim && bounded_seq(p) && 1 <= dim <= MAX_DIM,
    decreases t,
{
    match t {
        None => {},
        Some(n) => {
            lemma_wf_tree_points(n.left, next_axis(axis, dim), dim);
            lemma_wf_tree_points(n.right, next_axis(axis, dim), dim);
        },
    }
}

} // verus!
