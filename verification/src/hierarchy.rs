//! What it means for the nodes of a scene to form a hierarchy over its
//! objects, and what the hierarchy is that building gives.

use vstd::prelude::*;
use crate::camera::Camera;
use crate::node::Node;
use crate::obj_mesh::ObjMesh;
use crate::scalar::Scalar;
use crate::scene::{Object, SceneView};

verus! {

/// The node with its box grown to hold the object: a sphere reaches from
/// its centre less its radius to its centre plus its radius, a triangle as
/// far as its corners.
pub open spec fn grown(node: Node, object: Object) -> Node {
    match object {
        Object::Sphere(sphere) => node.spec_grow(
            sphere.center.spec_sub_scalar(sphere.radius),
            sphere.center.spec_add_scalar(sphere.radius),
        ),
        Object::Triangle(triangle) => node.spec_grow(
            triangle.corners[0],
            triangle.corners[0],
        ).spec_grow(triangle.corners[1], triangle.corners[1]).spec_grow(
            triangle.corners[2],
            triangle.corners[2],
        ),
    }
}

/// The node grown by the objects that entries `start..end` of the index
/// array refer to, in that order.
pub open spec fn grown_over(
    node: Node,
    objects: Seq<Object>,
    indices: Seq<usize>,
    start: int,
    end: int,
) -> Node
    decreases end - start,
{
    if end <= start {
        node
    } else {
        grown(grown_over(node, objects, indices, start, end - 1), objects[indices[end - 1] as int])
    }
}

/// The index array after entries `i..j` have been sorted about `split`:
/// looked at from the left, an entry whose object stands below `split`
/// stays, and any other changes places with the last entry not looked at
/// yet.
pub open spec fn parted(
    objects: Seq<Object>,
    indices: Seq<usize>,
    axis: usize,
    split: Scalar,
    i: int,
    j: int,
) -> Seq<usize>
    decreases j - i,
{
    if i >= j {
        indices
    } else if objects[indices[i] as int].spec_position(axis).spec_lt(split) {
        parted(objects, indices, axis, split, i + 1, j)
    } else {
        parted(
            objects,
            indices.update(i, indices[j - 1]).update(j - 1, indices[i]),
            axis,
            split,
            i,
            j - 1,
        )
    }
}

/// Where, after that sorting, the entries begin whose objects do not stand
/// below `split`.
pub open spec fn parted_at(
    objects: Seq<Object>,
    indices: Seq<usize>,
    axis: usize,
    split: Scalar,
    i: int,
    j: int,
) -> int
    decreases j - i,
{
    if i >= j {
        i
    } else if objects[indices[i] as int].spec_position(axis).spec_lt(split) {
        parted_at(objects, indices, axis, split, i + 1, j)
    } else {
        parted_at(
            objects,
            indices.update(i, indices[j - 1]).update(j - 1, indices[i]),
            axis,
            split,
            i,
            j - 1,
        )
    }
}

/// Objects that stand below `split` on an axis.
pub open spec fn left_of(axis: usize, split: Scalar) -> spec_fn(Object) -> bool {
    |object: Object| object.spec_position(axis).spec_lt(split)
}

/// Objects that do not stand below `split` on an axis.
pub open spec fn right_of(axis: usize, split: Scalar) -> spec_fn(Object) -> bool {
    |object: Object| !object.spec_position(axis).spec_lt(split)
}

/// `after` holds what `before` holds, with entries `lo..hi` in another
/// order: nothing comes or goes, and what was there once is there once.
#[verifier::opaque]
pub open spec fn rearranged(before: Seq<usize>, after: Seq<usize>, lo: int, hi: int) -> bool {
    &&& after.len() == before.len()
    &&& forall|k: int| 0 <= k < lo || hi <= k < before.len() ==> after[k] == before[k]
    &&& forall|k: int| lo <= k < hi ==> found_in(before, lo, hi, #[trigger] after[k])
    &&& forall|k: int| lo <= k < hi ==> found_in(after, lo, hi, #[trigger] before[k])
    &&& distinct_in(before, lo, hi) ==> distinct_in(after, lo, hi)
}

/// Some entry among `lo..hi` is `value`.
pub open spec fn found_in(entries: Seq<usize>, lo: int, hi: int, value: usize) -> bool {
    exists|k: int| lo <= k < hi && #[trigger] entries[k] == value
}

/// No two entries among `lo..hi` are the same.
pub open spec fn distinct_in(entries: Seq<usize>, lo: int, hi: int) -> bool {
    forall|j: int, k: int| lo <= j < k < hi ==> #[trigger] entries[j] != #[trigger] entries[k]
}

impl SceneView {
    /// The object that entry `k` of the index array refers to.
    pub open spec fn object_at(self, k: int) -> Object {
        self.objects[self.object_indices[k] as int]
    }

    /// Every object of entries `lo..hi` has the property.
    pub open spec fn all_in_run(self, lo: int, hi: int, property: spec_fn(Object) -> bool) -> bool {
        forall|k: int| lo <= k < hi ==> property(#[trigger] self.object_at(k))
    }

    /// Some object of entries `lo..hi` has the property.
    pub open spec fn some_in_run(self, lo: int, hi: int, property: spec_fn(Object) -> bool) -> bool {
        exists|k: int| lo <= k < hi && property(#[trigger] self.object_at(k))
    }

    /// Every entry of the index array refers to an object.
    pub open spec fn indices_in_range(self) -> bool {
        forall|k: int|
            0 <= k < self.object_indices.len() ==> #[trigger] self.object_indices[k]
                < self.objects.len()
    }

    /// The run that the node names lies inside the index array.
    pub open spec fn run_in_range(self, node: Node) -> bool {
        &&& 0 <= node.left_child
        &&& node.left_child + node.object_count <= self.object_indices.len()
    }
}

impl SceneView {
    /// The scene with the box of node `i` grown by every object of its run.
    pub open spec fn bounded(self, i: int) -> SceneView {
        let node = self.nodes[i];
        SceneView {
            nodes: self.nodes.update(
                i,
                grown_over(
                    node,
                    self.objects,
                    self.object_indices,
                    node.run_start(),
                    node.run_end(),
                ),
            ),
            ..self
        }
    }

    /// The scene with the run of node `p` sorted about the middle of its
    /// box on `axis`.
    pub open spec fn sorted_on(self, p: int, axis: usize) -> SceneView {
        let node = self.nodes[p];
        SceneView {
            object_indices: parted(
                self.objects,
                self.object_indices,
                axis,
                node.middle(axis),
                node.run_start(),
                node.run_end(),
            ),
            ..self
        }
    }

    /// Where, in the run of node `p` sorted on `axis`, the objects begin
    /// that do not stand below the middle.
    pub open spec fn sorted_at_on(self, p: int, axis: usize) -> int {
        let node = self.nodes[p];
        parted_at(
            self.objects,
            self.object_indices,
            axis,
            node.middle(axis),
            node.run_start(),
            node.run_end(),
        )
    }
}

/// Entries `lo..hi` of the index array: the objects below one node.
pub struct Run {
    pub lo: int,
    pub hi: int,
}

impl Run {
    /// Every entry of `other` is an entry of `self`.
    pub open spec fn holds(self, other: Run) -> bool {
        self.lo <= other.lo && other.hi <= self.hi
    }

    /// No entry is in both.
    pub open spec fn misses(self, other: Run) -> bool {
        self.hi <= other.lo || other.hi <= self.lo
    }
}

/// Objects whose own box lies in the box of `node`.
pub open spec fn enclosed_by(node: Node) -> spec_fn(Object) -> bool {
    |object: Object| node.encloses(object.bounds())
}

/// Objects whose own box ends where the box of `node` ends, on one side of
/// one axis.
pub open spec fn touched_by(node: Node, axis: usize, upper: bool) -> spec_fn(Object) -> bool {
    |object: Object| node.touches(object.bounds(), axis, upper)
}

/// How many of the first `n` nodes are inner nodes.
pub open spec fn inner_count(nodes: Seq<Node>, n: int) -> int
    decreases n,
{
    if n <= 0 {
        0
    } else {
        inner_count(nodes, n - 1) + if nodes[n - 1].object_count == 0 {
            1int
        } else {
            0int
        }
    }
}

/// How many objects the first `n` nodes name between them. An inner node
/// names none.
pub open spec fn object_total(nodes: Seq<Node>, n: int) -> int
    decreases n,
{
    if n <= 0 {
        0
    } else {
        object_total(nodes, n - 1) + nodes[n - 1].object_count
    }
}

/// Each of `0..n` stands exactly once in `entries`.
#[verifier::opaque]
pub open spec fn is_permutation(entries: Seq<usize>, n: int) -> bool {
    &&& entries.len() == n
    &&& forall|k: int| 0 <= k < n ==> #[trigger] entries[k] < n
    &&& distinct_in(entries, 0, n)
    &&& forall|v: usize| v < n ==> found_in(entries, 0, n, v)
}

impl SceneView {
    /// The array sizes fit the number of objects, and the index array is a
    /// permutation.
    pub open spec fn sized(self) -> bool {
        &&& self.objects.len() >= 1
        &&& self.nodes.len() == 2 * self.objects.len() - 1
        &&& self.nodes.len() <= i32::MAX
        &&& 1 <= self.nodes_used <= self.nodes.len()
        &&& is_permutation(self.object_indices, self.objects.len() as int)
        &&& forall|j: int|
            self.nodes_used <= j < self.nodes.len() ==> #[trigger] self.nodes[j] == Node::empty()
    }

    /// Node `i` has a run that is not empty. A leaf names its run. An inner
    /// node names two later nodes, and its run is theirs, one after the
    /// other.
    pub open spec fn node_shaped(self, runs: Seq<Run>, i: int) -> bool {
        let node = self.nodes[i];
        let c = node.left_child as int;
        &&& 0 <= runs[i].lo < runs[i].hi <= self.objects.len()
        &&& node.object_count > 0 ==> c == runs[i].lo && node.object_count == runs[i].hi
            - runs[i].lo
        &&& node.object_count == 0 ==> {
            &&& i < c
            &&& c + 1 < self.nodes_used
            &&& runs[c].lo == runs[i].lo
            &&& runs[c].hi == runs[c + 1].lo
            &&& runs[c + 1].hi == runs[i].hi
        }
    }

    /// The box of node `i` is the least box around the objects of its run:
    /// it encloses the box of each, and on each side of each axis it ends
    /// where the box of one of them ends.
    pub open spec fn node_bounded(self, runs: Seq<Run>, i: int) -> bool {
        let node = self.nodes[i];
        let lo = runs[i].lo;
        let hi = runs[i].hi;
        &&& self.all_in_run(lo, hi, enclosed_by(node))
        &&& self.some_in_run(lo, hi, touched_by(node, 0, false))
        &&& self.some_in_run(lo, hi, touched_by(node, 1, false))
        &&& self.some_in_run(lo, hi, touched_by(node, 2, false))
        &&& self.some_in_run(lo, hi, touched_by(node, 0, true))
        &&& self.some_in_run(lo, hi, touched_by(node, 1, true))
        &&& self.some_in_run(lo, hi, touched_by(node, 2, true))
    }

    /// An inner node `i` parts its objects at the middle of its box on its
    /// widest axis: those of its first child stand below the middle, those
    /// of its second child do not.
    pub open spec fn node_parted(self, runs: Seq<Run>, i: int) -> bool {
        let node = self.nodes[i];
        let c = node.left_child as int;
        let axis = node.widest_axis();
        let split = node.middle(axis);
        node.object_count == 0 ==> {
            &&& self.all_in_run(runs[c].lo, runs[c].hi, left_of(axis, split))
            &&& self.all_in_run(runs[c + 1].lo, runs[c + 1].hi, right_of(axis, split))
        }
    }

    /// The objects of the run of `node` all stand on one side of the middle
    /// of its box on its widest axis.
    #[verifier::opaque]
    pub open spec fn one_sided(self, node: Node) -> bool {
        let lo = node.run_start();
        let hi = node.run_end();
        let axis = node.widest_axis();
        let split = node.middle(axis);
        self.all_in_run(lo, hi, left_of(axis, split)) || self.all_in_run(
            lo,
            hi,
            right_of(axis, split),
        )
    }

    /// Node `i` is as small as it gets: it is an inner node, or a leaf of
    /// at most two objects, or a leaf that the middle of its box cannot
    /// part.
    pub open spec fn node_settled(self, i: int) -> bool {
        self.nodes[i].object_count > 2 ==> self.one_sided(self.nodes[i])
    }

    /// Node `j` is one of the two children of the inner node `i`.
    pub open spec fn is_child_of(self, j: int, i: int) -> bool {
        &&& self.nodes[i].object_count == 0
        &&& (self.nodes[i].left_child == j || self.nodes[i].left_child + 1 == j)
    }

    /// A node before node `j` has it as a child.
    pub open spec fn has_parent(self, j: int) -> bool {
        exists|i: int| 0 <= i < j && #[trigger] self.is_child_of(j, i)
    }

    /// If `i` and `j` are two inner nodes, they share no child.
    pub open spec fn siblings_apart(self, i: int, j: int) -> bool {
        self.nodes[i].object_count == 0 && self.nodes[j].object_count == 0 && i != j ==> {
            ||| self.nodes[i].left_child + 1 < self.nodes[j].left_child
            ||| self.nodes[j].left_child + 1 < self.nodes[i].left_child
        }
    }

    /// If `i` and `j` are two leaves, their runs share no entry.
    pub open spec fn leaves_apart(self, runs: Seq<Run>, i: int, j: int) -> bool {
        self.nodes[i].object_count > 0 && self.nodes[j].object_count > 0 && i != j
            ==> runs[i].misses(runs[j])
    }

    /// Entry `k` of the index array is in the run of leaf `i`.
    pub open spec fn in_leaf(self, runs: Seq<Run>, k: int, i: int) -> bool {
        self.nodes[i].object_count > 0 && runs[i].lo <= k < runs[i].hi
    }

    /// Entry `k` of the index array is in the run of some leaf.
    pub open spec fn covered(self, runs: Seq<Run>, k: int) -> bool {
        exists|i: int| 0 <= i < self.nodes_used && #[trigger] self.in_leaf(runs, k, i)
    }

    /// If `p` is a leaf, the run of any node `j` holds all of its run or
    /// none of it.
    pub open spec fn leaf_whole(self, runs: Seq<Run>, p: int, j: int) -> bool {
        self.nodes[p].object_count > 0 ==> runs[j].holds(runs[p]) || runs[j].misses(runs[p])
    }

    /// The nodes in use form a binary tree over the index array, with
    /// `runs` telling which entries lie below each node.
    #[verifier::opaque]
    pub open spec fn tree_inv(self, runs: Seq<Run>) -> bool {
        let n = self.nodes_used;
        &&& self.sized()
        &&& runs.len() == n
        &&& runs[0] == (Run { lo: 0, hi: self.objects.len() as int })
        &&& forall|i: int| 0 <= i < n ==> #[trigger] self.node_shaped(runs, i)
        &&& forall|i: int| 0 <= i < n ==> #[trigger] self.node_bounded(runs, i)
        &&& forall|i: int| 0 <= i < n ==> #[trigger] self.node_parted(runs, i)
        &&& forall|j: int| 1 <= j < n ==> #[trigger] self.has_parent(j)
        &&& forall|i: int, j: int| 0 <= i < n && 0 <= j < n ==> #[trigger] self.siblings_apart(i, j)
        &&& forall|i: int, j: int|
            0 <= i < n && 0 <= j < n ==> #[trigger] self.leaves_apart(runs, i, j)
        &&& forall|k: int| 0 <= k < self.objects.len() ==> #[trigger] self.covered(runs, k)
        &&& forall|p: int, j: int|
            0 <= p < n && 0 <= j < n ==> #[trigger] self.leaf_whole(runs, p, j)
        &&& n == 2 * inner_count(self.nodes, n) + 1
        &&& object_total(self.nodes, n) == self.objects.len()
    }

    /// The nodes in use form a hierarchy over the objects.
    pub open spec fn is_hierarchy(self) -> bool {
        exists|runs: Seq<Run>| #[trigger] self.tree_inv(runs)
    }

    /// The nodes in use form a hierarchy in which nothing is left to split.
    pub open spec fn is_built(self) -> bool {
        &&& self.is_hierarchy()
        &&& forall|j: int| 0 <= j < self.nodes_used ==> #[trigger] self.node_settled(j)
    }

    /// Entry `k` of the index array lies below node `i`: in its run if it is
    /// a leaf, below one of its two children if it is an inner node.
    pub open spec fn below(self, i: int, k: int) -> bool
        decreases self.nodes.len() - i,
    {
        if 0 <= i < self.nodes.len() {
            let node = self.nodes[i];
            if node.object_count > 0 {
                node.left_child <= k < node.left_child + node.object_count
            } else if i < node.left_child && node.left_child + 1 < self.nodes.len() {
                self.below(node.left_child as int, k) || self.below(node.left_child + 1, k)
            } else {
                false
            }
        } else {
            false
        }
    }
}

/// A fresh leaf over entries `lo..hi`, before its box is grown.
pub open spec fn fresh_leaf(lo: int, hi: int) -> Node {
    Node {
        min_corner: Node::empty().min_corner,
        left_child: lo as i32,
        max_corner: Node::empty().max_corner,
        object_count: (hi - lo) as usize,
    }
}

/// The scene with the run of leaf `p` sorted about the middle of its box on
/// its widest axis.
pub open spec fn sorted(s: SceneView, p: int) -> SceneView {
    s.sorted_on(p, s.nodes[p].widest_axis())
}

/// Where, in the sorted run of leaf `p`, the objects begin that do not
/// stand below the middle.
pub open spec fn sorted_at(s: SceneView, p: int) -> int {
    s.sorted_at_on(p, s.nodes[p].widest_axis())
}

/// The scene after leaf `p` has become an inner node over two new leaves,
/// which take the next two free nodes: the first gets the run of `p` up to
/// `mid`, the second the rest, and each gets the least box around its run.
pub open spec fn split_at(s: SceneView, p: int, mid: int) -> SceneView {
    let node = s.nodes[p];
    let n = s.nodes_used;
    let lo = node.run_start();
    let hi = node.run_end();
    SceneView {
        nodes: s.nodes.update(
            n,
            grown_over(fresh_leaf(lo, mid), s.objects, s.object_indices, lo, mid),
        ).update(
            n + 1,
            grown_over(fresh_leaf(mid, hi), s.objects, s.object_indices, mid, hi),
        ).update(
            p,
            Node {
                min_corner: node.min_corner,
                left_child: n as i32,
                max_corner: node.max_corner,
                object_count: 0,
            },
        ),
        nodes_used: n + 2,
        ..s
    }
}

/// The scene after leaf `p` of `count` objects has been subdivided: a leaf
/// of more than two objects is sorted about the middle of its box; if that
/// puts objects on both sides, the leaf is split, and first the one new
/// leaf is subdivided, then the other.
#[verifier::opaque]
pub open spec fn subdivided(s: SceneView, p: int, count: nat) -> SceneView
    decreases count,
{
    let lo = s.nodes[p].left_child as int;
    let hi = lo + count;
    let mid = sorted_at(s, p);
    if count <= 2 {
        s
    } else if lo < mid < hi {
        subdivided(
            subdivided(split_at(sorted(s, p), p, mid), s.nodes_used, (mid - lo) as nat),
            s.nodes_used + 1,
            (hi - mid) as nat,
        )
    } else {
        sorted(s, p)
    }
}

/// `t` is `s` grown below leaf `p`, and nowhere else: objects, camera and
/// sizes are the same; no node in use but `p` has changed, and `p` has kept
/// its box; the run of `p` is rearranged and no other entry has moved; and
/// `p`, every new node, and every node that was settled is settled.
pub open spec fn regrown(s: SceneView, t: SceneView, p: int) -> bool {
    let node = s.nodes[p];
    &&& t == (SceneView {
        nodes: t.nodes,
        nodes_used: t.nodes_used,
        object_indices: t.object_indices,
        ..s
    })
    &&& t.nodes.len() == s.nodes.len()
    &&& s.nodes_used <= t.nodes_used <= s.nodes_used + 2 * node.object_count - 2
    &&& forall|j: int| 0 <= j < s.nodes_used && j != p ==> #[trigger] t.nodes[j] == s.nodes[j]
    &&& t.nodes[p].min_corner == node.min_corner
    &&& t.nodes[p].max_corner == node.max_corner
    &&& t.nodes_used == s.nodes_used ==> t.nodes == s.nodes
    &&& t.nodes_used > s.nodes_used ==> t.nodes[p].object_count == 0
    &&& rearranged(s.object_indices, t.object_indices, node.run_start(), node.run_end())
    &&& forall|j: int|
        0 <= j < s.nodes_used && j != p && s.node_settled(j) ==> #[trigger] t.node_settled(j)
    &&& forall|j: int| s.nodes_used <= j < t.nodes_used ==> #[trigger] t.node_settled(j)
    &&& t.node_settled(p)
}

/// The scene before anything is split: the index array names every object
/// in turn, and the first of `2n - 1` nodes is a leaf over all `n` objects
/// with the least box around them.
#[verifier::opaque]
pub open spec fn first_leaf(
    objects: Seq<Object>,
    camera: Camera,
    max_bounces: usize,
    object_meshes: Seq<ObjMesh>,
) -> SceneView {
    let n = objects.len() as int;
    let indices = Seq::new(objects.len(), |k: int| k as usize);
    SceneView {
        objects,
        camera,
        nodes: Seq::new((2 * n - 1) as nat, |j: int| Node::empty()).update(
            0,
            grown_over(fresh_leaf(0, n), objects, indices, 0, n),
        ),
        nodes_used: 1,
        object_indices: indices,
        max_bounces,
        object_meshes,
    }
}

/// The scene with the hierarchy built over the objects.
pub open spec fn built(
    objects: Seq<Object>,
    camera: Camera,
    max_bounces: usize,
    object_meshes: Seq<ObjMesh>,
) -> SceneView {
    subdivided(first_leaf(objects, camera, max_bounces, object_meshes), 0, objects.len())
}

} // verus!
