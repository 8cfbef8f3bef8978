//! Why building a hierarchy keeps the nodes of a scene a hierarchy: what
//! growing a box, sorting a run and splitting a leaf leave true.

use vstd::prelude::*;
use crate::hierarchy::{
    distinct_in, enclosed_by, found_in, fresh_leaf, grown, grown_over, inner_count,
    is_permutation, left_of, object_total, parted, parted_at, rearranged, regrown, right_of, sorted,
    sorted_at,
    split_at, subdivided, touched_by, Run,
};
use crate::node::Node;
use crate::scalar::{Scalar, INFINITE, SIGN};
use crate::scene::{Object, SceneView};

verus! {

/// The lesser of a number and up to three candidates, against the lesser
/// of positive infinity and the same candidates.
pub proof fn lemma_min_chain(n: Scalar, first: Scalar, second: Scalar, third: Scalar)
    requires
        !n.spec_is_nan(),
    ensures
        ({
            let top = Scalar { bits: INFINITE };
            let r1 = n.spec_min(first);
            let q1 = top.spec_min(first);
            let r3 = r1.spec_min(second).spec_min(third);
            let q3 = q1.spec_min(second).spec_min(third);
            &&& !r1.spec_is_nan() && !q1.spec_is_nan()
            &&& !r3.spec_is_nan() && !q3.spec_is_nan()
            &&& r1.key() == if q1.key() < n.key() {
                q1.key()
            } else {
                n.key()
            }
            &&& r3.key() == if q3.key() < n.key() {
                q3.key()
            } else {
                n.key()
            }
        }),
{
}

/// The greater of a number and up to three candidates, against the greater
/// of negative infinity and the same candidates.
pub proof fn lemma_max_chain(n: Scalar, first: Scalar, second: Scalar, third: Scalar)
    requires
        !n.spec_is_nan(),
    ensures
        ({
            let bottom = Scalar { bits: (SIGN + INFINITE) as u32 };
            let r1 = n.spec_max(first);
            let q1 = bottom.spec_max(first);
            let r3 = r1.spec_max(second).spec_max(third);
            let q3 = q1.spec_max(second).spec_max(third);
            &&& !r1.spec_is_nan() && !q1.spec_is_nan()
            &&& !r3.spec_is_nan() && !q3.spec_is_nan()
            &&& r1.key() == if q1.key() > n.key() {
                q1.key()
            } else {
                n.key()
            }
            &&& r3.key() == if q3.key() > n.key() {
                q3.key()
            } else {
                n.key()
            }
        }),
{
}

/// The lower end of a box on an axis, as an order key.
pub open spec fn low_key(node: Node, axis: usize) -> int {
    node.min_corner.spec_axis(axis).key()
}

/// The upper end of a box on an axis, as an order key.
pub open spec fn high_key(node: Node, axis: usize) -> int {
    node.max_corner.spec_axis(axis).key()
}

/// What [`lemma_grown`] states of one axis.
pub open spec fn grown_on_axis(node: Node, object: Object, axis: usize) -> bool {
    &&& low_key(grown(node, object), axis) == if low_key(object.bounds(), axis) < low_key(
        node,
        axis,
    ) {
        low_key(object.bounds(), axis)
    } else {
        low_key(node, axis)
    }
    &&& high_key(grown(node, object), axis) == if high_key(object.bounds(), axis) > high_key(
        node,
        axis,
    ) {
        high_key(object.bounds(), axis)
    } else {
        high_key(node, axis)
    }
}

/// Growing a box by an object gives the least box around both: each lower
/// end is the lesser of the two lower ends, each upper end the greater of
/// the two upper ends.
pub proof fn lemma_grown(node: Node, object: Object)
    requires
        node.is_ordered(),
    ensures
        grown(node, object).is_ordered(),
        grown(node, object).left_child == node.left_child,
        grown(node, object).object_count == node.object_count,
        object.bounds().is_ordered(),
        grown_on_axis(node, object, 0),
        grown_on_axis(node, object, 1),
        grown_on_axis(node, object, 2),
{
    match object {
        Object::Sphere(sphere) => {
            let a = sphere.center.spec_sub_scalar(sphere.radius);
            let b = sphere.center.spec_add_scalar(sphere.radius);
            lemma_min_chain(node.min_corner.0, a.0, a.0, a.0);
            lemma_min_chain(node.min_corner.1, a.1, a.1, a.1);
            lemma_min_chain(node.min_corner.2, a.2, a.2, a.2);
            lemma_max_chain(node.max_corner.0, b.0, b.0, b.0);
            lemma_max_chain(node.max_corner.1, b.1, b.1, b.1);
            lemma_max_chain(node.max_corner.2, b.2, b.2, b.2);
        },
        Object::Triangle(triangle) => {
            let c0 = triangle.corners[0];
            let c1 = triangle.corners[1];
            let c2 = triangle.corners[2];
            lemma_min_chain(node.min_corner.0, c0.0, c1.0, c2.0);
            lemma_min_chain(node.min_corner.1, c0.1, c1.1, c2.1);
            lemma_min_chain(node.min_corner.2, c0.2, c1.2, c2.2);
            lemma_max_chain(node.max_corner.0, c0.0, c1.0, c2.0);
            lemma_max_chain(node.max_corner.1, c0.1, c1.1, c2.1);
            lemma_max_chain(node.max_corner.2, c0.2, c1.2, c2.2);
        },
    }
}

/// Growing the box of a node changes neither its link nor its count.
pub proof fn lemma_grown_over_links(
    first: Node,
    objects: Seq<Object>,
    indices: Seq<usize>,
    lo: int,
    hi: int,
)
    ensures
        grown_over(first, objects, indices, lo, hi).left_child == first.left_child,
        grown_over(first, objects, indices, lo, hi).object_count == first.object_count,
    decreases hi - lo,
{
    if lo < hi {
        lemma_grown_over_links(first, objects, indices, lo, hi - 1);
    }
}

/// What [`lemma_grown_over`] states of one side of one axis: the grown box
/// ends where the first box ended, or where the box of an object of the run
/// ends.
pub open spec fn reached(
    s: SceneView,
    first: Node,
    lo: int,
    hi: int,
    axis: usize,
    upper: bool,
) -> bool {
    let r = grown_over(first, s.objects, s.object_indices, lo, hi);
    r.touches(first, axis, upper) || s.some_in_run(lo, hi, touched_by(r, axis, upper))
}

/// A box grown over a run encloses the box it grew from and the box of
/// every object of the run, and it is no larger than that asks for.
pub proof fn lemma_grown_over(s: SceneView, first: Node, lo: int, hi: int)
    requires
        first.is_ordered(),
        lo <= hi,
    ensures
        ({
            let r = grown_over(first, s.objects, s.object_indices, lo, hi);
            &&& r.is_ordered()
            &&& r.left_child == first.left_child
            &&& r.object_count == first.object_count
            &&& r.encloses(first)
            &&& s.all_in_run(lo, hi, enclosed_by(r))
            &&& reached(s, first, lo, hi, 0, false)
            &&& reached(s, first, lo, hi, 1, false)
            &&& reached(s, first, lo, hi, 2, false)
            &&& reached(s, first, lo, hi, 0, true)
            &&& reached(s, first, lo, hi, 1, true)
            &&& reached(s, first, lo, hi, 2, true)
        }),
    decreases hi - lo,
{
    let r = grown_over(first, s.objects, s.object_indices, lo, hi);
    if lo < hi {
        let before = grown_over(first, s.objects, s.object_indices, lo, hi - 1);
        let object = s.object_at(hi - 1);
        lemma_grown_over(s, first, lo, hi - 1);
        lemma_grown(before, object);
        assert(r == grown(before, object));
        assert(grown_on_axis(before, object, 0));
        assert(grown_on_axis(before, object, 1));
        assert(grown_on_axis(before, object, 2));
        assert(r.encloses(before));
        assert(r.encloses(object.bounds()));
        assert forall|k: int| lo <= k < hi implies enclosed_by(r)(#[trigger] s.object_at(k)) by {
            if k < hi - 1 {
                assert(enclosed_by(before)(s.object_at(k)));
            }
        }
        lemma_reached_step(s, first, lo, hi, 0, false);
        lemma_reached_step(s, first, lo, hi, 1, false);
        lemma_reached_step(s, first, lo, hi, 2, false);
        lemma_reached_step(s, first, lo, hi, 0, true);
        lemma_reached_step(s, first, lo, hi, 1, true);
        lemma_reached_step(s, first, lo, hi, 2, true);
    }
}

/// One more object keeps [`reached`] true.
proof fn lemma_reached_step(s: SceneView, first: Node, lo: int, hi: int, axis: usize, upper: bool)
    requires
        lo < hi,
        axis < 3,
        reached(s, first, lo, hi - 1, axis, upper),
        grown_on_axis(
            grown_over(first, s.objects, s.object_indices, lo, hi - 1),
            s.object_at(hi - 1),
            axis,
        ),
    ensures
        reached(s, first, lo, hi, axis, upper),
{
    let before = grown_over(first, s.objects, s.object_indices, lo, hi - 1);
    let object = s.object_at(hi - 1);
    let r = grown_over(first, s.objects, s.object_indices, lo, hi);
    assert(r == grown(before, object));
    if r.touches(object.bounds(), axis, upper) {
        assert(touched_by(r, axis, upper)(s.object_at(hi - 1)));
    } else {
        assert(r.touches(before, axis, upper));
        if before.touches(first, axis, upper) {
        } else {
            let k = choose|k: int|
                lo <= k < hi - 1 && touched_by(before, axis, upper)(#[trigger] s.object_at(k));
            assert(touched_by(r, axis, upper)(s.object_at(k)));
        }
    }
}

/// A box grown from the empty box over a run that is not empty is the
/// least box around the objects of the run.
pub proof fn lemma_grown_from_empty(s: SceneView, first: Node, lo: int, hi: int)
    requires
        first.min_corner == Node::empty().min_corner,
        first.max_corner == Node::empty().max_corner,
        lo < hi,
    ensures
        ({
            let r = grown_over(first, s.objects, s.object_indices, lo, hi);
            &&& r.left_child == first.left_child
            &&& r.object_count == first.object_count
            &&& s.all_in_run(lo, hi, enclosed_by(r))
            &&& s.some_in_run(lo, hi, touched_by(r, 0, false))
            &&& s.some_in_run(lo, hi, touched_by(r, 1, false))
            &&& s.some_in_run(lo, hi, touched_by(r, 2, false))
            &&& s.some_in_run(lo, hi, touched_by(r, 0, true))
            &&& s.some_in_run(lo, hi, touched_by(r, 1, true))
            &&& s.some_in_run(lo, hi, touched_by(r, 2, true))
        }),
{
    let r = grown_over(first, s.objects, s.object_indices, lo, hi);
    lemma_grown_over(s, first, lo, hi);
    let object = s.object_at(lo);
    lemma_grown(first, object);
    assert(enclosed_by(r)(s.object_at(lo)));
    lemma_reached_from_empty(s, first, lo, hi, 0, false);
    lemma_reached_from_empty(s, first, lo, hi, 1, false);
    lemma_reached_from_empty(s, first, lo, hi, 2, false);
    lemma_reached_from_empty(s, first, lo, hi, 0, true);
    lemma_reached_from_empty(s, first, lo, hi, 1, true);
    lemma_reached_from_empty(s, first, lo, hi, 2, true);
}

/// Where the grown box still ends at infinity, the box of the first object
/// of the run ends there too.
proof fn lemma_reached_from_empty(
    s: SceneView,
    first: Node,
    lo: int,
    hi: int,
    axis: usize,
    upper: bool,
)
    requires
        first.min_corner == Node::empty().min_corner,
        first.max_corner == Node::empty().max_corner,
        lo < hi,
        axis < 3,
        reached(s, first, lo, hi, axis, upper),
        grown_over(first, s.objects, s.object_indices, lo, hi).encloses(s.object_at(lo).bounds()),
        s.object_at(lo).bounds().is_ordered(),
    ensures
        s.some_in_run(
            lo,
            hi,
            touched_by(grown_over(first, s.objects, s.object_indices, lo, hi), axis, upper),
        ),
{
    let r = grown_over(first, s.objects, s.object_indices, lo, hi);
    if r.touches(first, axis, upper) {
        assert(touched_by(r, axis, upper)(s.object_at(lo)));
    }
}

/// Exchanging two entries of a run keeps the array a rearrangement of what
/// it was.
pub proof fn lemma_swap_rearranged(
    first: Seq<usize>,
    before: Seq<usize>,
    after: Seq<usize>,
    lo: int,
    hi: int,
    i: int,
    j: int,
)
    requires
        0 <= lo <= i < hi <= before.len(),
        lo <= j < hi,
        rearranged(first, before, lo, hi),
        after == before.update(i, before[j]).update(j, before[i]),
    ensures
        rearranged(first, after, lo, hi),
{
    reveal(rearranged);
    assert forall|k: int| lo <= k < hi implies found_in(first, lo, hi, #[trigger] after[k]) by {
        if k == i {
            assert(after[k] == before[j]);
        } else if k == j {
            assert(after[k] == before[i]);
        } else {
            assert(after[k] == before[k]);
        }
    }
    assert forall|k: int| lo <= k < hi implies found_in(after, lo, hi, #[trigger] first[k]) by {
        assert(found_in(before, lo, hi, first[k]));
        let w = choose|w: int| lo <= w < hi && before[w] == first[k];
        if w == i {
            assert(after[j] == first[k]);
        } else if w == j {
            assert(after[i] == first[k]);
        } else {
            assert(after[w] == first[k]);
        }
    }
    if distinct_in(first, lo, hi) {
        assert forall|a: int, b: int| lo <= a < b < hi implies #[trigger] after[a]
            != #[trigger] after[b] by {
            let a0 = if a == i {
                j
            } else if a == j {
                i
            } else {
                a
            };
            let b0 = if b == i {
                j
            } else if b == j {
                i
            } else {
                b
            };
            assert(after[a] == before[a0]);
            assert(after[b] == before[b0]);
            if a0 < b0 {
                assert(before[a0] != before[b0]);
            } else {
                assert(before[b0] != before[a0]);
            }
        }
    }
}

/// Putting the entries `lo..hi` in another order changes nothing about a
/// run that holds them all or none of them: what held of all its objects
/// still does, and what held of one of them still does.
pub proof fn lemma_rearranged_run(
    a: SceneView,
    b: SceneView,
    lo: int,
    hi: int,
    run: Run,
    property: spec_fn(Object) -> bool,
)
    requires
        b.objects == a.objects,
        0 <= lo <= hi <= a.object_indices.len(),
        rearranged(a.object_indices, b.object_indices, lo, hi),
        0 <= run.lo <= run.hi <= a.object_indices.len(),
        run.holds(Run { lo, hi }) || run.misses(Run { lo, hi }),
    ensures
        a.all_in_run(run.lo, run.hi, property) ==> b.all_in_run(run.lo, run.hi, property),
        a.some_in_run(run.lo, run.hi, property) ==> b.some_in_run(run.lo, run.hi, property),
{
    reveal(rearranged);
    if a.all_in_run(run.lo, run.hi, property) {
        assert forall|k: int| run.lo <= k < run.hi implies property(#[trigger] b.object_at(k)) by {
            if lo <= k < hi {
                assert(found_in(a.object_indices, lo, hi, b.object_indices[k]));
                let w = choose|w: int| lo <= w < hi && a.object_indices[w] == b.object_indices[k];
                assert(b.object_at(k) == a.object_at(w));
            } else {
                assert(b.object_at(k) == a.object_at(k));
            }
        }
    }
    if a.some_in_run(run.lo, run.hi, property) {
        let k = choose|k: int| run.lo <= k < run.hi && property(#[trigger] a.object_at(k));
        if lo <= k < hi {
            assert(found_in(b.object_indices, lo, hi, a.object_indices[k]));
            let w = choose|w: int| lo <= w < hi && b.object_indices[w] == a.object_indices[k];
            assert(b.object_at(w) == a.object_at(k));
        } else {
            assert(b.object_at(k) == a.object_at(k));
        }
    }
}

/// Putting some entries of a permutation in another order leaves a
/// permutation.
pub proof fn lemma_rearranged_permutation(
    before: Seq<usize>,
    after: Seq<usize>,
    lo: int,
    hi: int,
    n: int,
)
    requires
        0 <= lo <= hi <= n,
        is_permutation(before, n),
        rearranged(before, after, lo, hi),
    ensures
        is_permutation(after, n),
{
    reveal(is_permutation);
    reveal(rearranged);
    assert(distinct_in(before, lo, hi));
    assert forall|k: int| 0 <= k < n implies #[trigger] after[k] < n by {
        if lo <= k < hi {
            assert(found_in(before, lo, hi, after[k]));
        }
    }
    assert forall|j: int, k: int| 0 <= j < k < n implies #[trigger] after[j]
        != #[trigger] after[k] by {
        let j0 = if lo <= j < hi {
            assert(found_in(before, lo, hi, after[j]));
            choose|w: int| lo <= w < hi && before[w] == after[j]
        } else {
            j
        };
        let k0 = if lo <= k < hi {
            assert(found_in(before, lo, hi, after[k]));
            choose|w: int| lo <= w < hi && before[w] == after[k]
        } else {
            k
        };
        if lo <= j < hi && lo <= k < hi {
        } else {
            if j0 < k0 {
                assert(before[j0] != before[k0]);
            } else {
                assert(before[k0] != before[j0]);
            }
        }
    }
    assert forall|v: usize| v < n implies found_in(after, 0, n, v) by {
        assert(found_in(before, 0, n, v));
        let k = choose|k: int| 0 <= k < n && before[k] == v;
        if lo <= k < hi {
            assert(found_in(after, lo, hi, before[k]));
            let w = choose|w: int| lo <= w < hi && after[w] == before[k];
            assert(after[w] == v);
        } else {
            assert(after[k] == v);
        }
    }
}

/// Leaving every entry where it is rearranges nothing.
pub proof fn lemma_rearranged_same(entries: Seq<usize>, lo: int, hi: int)
    requires
        0 <= lo <= hi <= entries.len(),
    ensures
        rearranged(entries, entries, lo, hi),
{
    reveal(rearranged);
    assert forall|k: int| lo <= k < hi implies found_in(entries, lo, hi, #[trigger] entries[k]) by {
    }
}

/// Rearranging one part of a run and then another rearranges the run.
pub proof fn lemma_rearranged_twice(
    first: Seq<usize>,
    second: Seq<usize>,
    third: Seq<usize>,
    lo: int,
    hi: int,
    lo1: int,
    hi1: int,
    lo2: int,
    hi2: int,
)
    requires
        0 <= lo <= lo1 <= hi1 <= hi <= first.len(),
        lo <= lo2 <= hi2 <= hi,
        hi1 <= lo2 || lo1 == lo && hi1 == hi,
        rearranged(first, second, lo1, hi1),
        rearranged(second, third, lo2, hi2),
    ensures
        rearranged(first, third, lo, hi),
{
    reveal(rearranged);
    assert forall|k: int| lo <= k < hi implies found_in(first, lo, hi, #[trigger] third[k]) by {
        let k2 = if lo2 <= k < hi2 {
            assert(found_in(second, lo2, hi2, third[k]));
            choose|w: int| lo2 <= w < hi2 && second[w] == third[k]
        } else {
            k
        };
        assert(second[k2] == third[k]);
        let k1 = if lo1 <= k2 < hi1 {
            assert(found_in(first, lo1, hi1, second[k2]));
            choose|w: int| lo1 <= w < hi1 && first[w] == second[k2]
        } else {
            k2
        };
        assert(first[k1] == third[k]);
    }
    assert forall|k: int| lo <= k < hi implies found_in(third, lo, hi, #[trigger] first[k]) by {
        let k1 = if lo1 <= k < hi1 {
            assert(found_in(second, lo1, hi1, first[k]));
            choose|w: int| lo1 <= w < hi1 && second[w] == first[k]
        } else {
            k
        };
        assert(second[k1] == first[k]);
        let k2 = if lo2 <= k1 < hi2 {
            assert(found_in(third, lo2, hi2, second[k1]));
            choose|w: int| lo2 <= w < hi2 && third[w] == second[k1]
        } else {
            k1
        };
        assert(third[k2] == first[k]);
    }
    if distinct_in(first, lo, hi) {
        lemma_rearranged_distinct(first, second, lo, hi, lo1, hi1);
        lemma_rearranged_distinct(second, third, lo, hi, lo2, hi2);
    }
}

/// Rearranging a part of a run without repeats leaves it without repeats.
pub proof fn lemma_rearranged_distinct(
    before: Seq<usize>,
    after: Seq<usize>,
    lo: int,
    hi: int,
    lo1: int,
    hi1: int,
)
    requires
        0 <= lo <= lo1 <= hi1 <= hi <= before.len(),
        rearranged(before, after, lo1, hi1),
        distinct_in(before, lo, hi),
    ensures
        distinct_in(after, lo, hi),
{
    reveal(rearranged);
    assert(distinct_in(before, lo1, hi1));
    assert forall|j: int, k: int| lo <= j < k < hi implies #[trigger] after[j]
        != #[trigger] after[k] by {
        let j0 = if lo1 <= j < hi1 {
            assert(found_in(before, lo1, hi1, after[j]));
            choose|w: int| lo1 <= w < hi1 && before[w] == after[j]
        } else {
            j
        };
        let k0 = if lo1 <= k < hi1 {
            assert(found_in(before, lo1, hi1, after[k]));
            choose|w: int| lo1 <= w < hi1 && before[w] == after[k]
        } else {
            k
        };
        if lo1 <= j < hi1 && lo1 <= k < hi1 {
        } else {
            if j0 < k0 {
                assert(before[j0] != before[k0]);
            } else {
                assert(before[k0] != before[j0]);
            }
        }
    }
}

/// `b` is `a` with the run of leaf `p` in another order.
pub open spec fn reordered(a: SceneView, b: SceneView, runs: Seq<Run>, p: int) -> bool {
    &&& a.tree_inv(runs)
    &&& 0 <= p < a.nodes_used
    &&& a.nodes[p].object_count > 0
    &&& b == (SceneView { object_indices: b.object_indices, ..a })
    &&& rearranged(a.object_indices, b.object_indices, runs[p].lo, runs[p].hi)
}

/// Another order in a run keeps the shape of the tree.
proof fn lemma_reordered_shape(a: SceneView, b: SceneView, runs: Seq<Run>, p: int)
    requires
        reordered(a, b, runs, p),
    ensures
        b.sized(),
        forall|i: int| 0 <= i < b.nodes_used ==> #[trigger] b.node_shaped(runs, i),
        forall|j: int| 1 <= j < b.nodes_used ==> #[trigger] b.has_parent(j),
        forall|i: int, j: int|
            0 <= i < b.nodes_used && 0 <= j < b.nodes_used ==> #[trigger] b.siblings_apart(i, j),
{
    reveal(SceneView::tree_inv);
    let n = a.nodes_used;
    assert(a.node_shaped(runs, p));
    lemma_rearranged_permutation(
        a.object_indices,
        b.object_indices,
        runs[p].lo,
        runs[p].hi,
        a.objects.len() as int,
    );
    assert forall|i: int| 0 <= i < n implies #[trigger] b.node_shaped(runs, i) by {
        assert(a.node_shaped(runs, i));
    }
    assert forall|j: int| 1 <= j < n implies #[trigger] b.has_parent(j) by {
        assert(a.has_parent(j));
        let i = choose|i: int| 0 <= i < j && #[trigger] a.is_child_of(j, i);
        assert(b.is_child_of(j, i));
    }
    assert forall|i: int, j: int| 0 <= i < n && 0 <= j < n implies #[trigger] b.siblings_apart(
        i,
        j,
    ) by {
        assert(a.siblings_apart(i, j));
    }
}

/// Another order in a run keeps the leaves apart, all entries covered, and
/// every run whole.
proof fn lemma_reordered_runs(a: SceneView, b: SceneView, runs: Seq<Run>, p: int)
    requires
        reordered(a, b, runs, p),
    ensures
        forall|i: int, j: int|
            0 <= i < b.nodes_used && 0 <= j < b.nodes_used ==> #[trigger] b.leaves_apart(
                runs,
                i,
                j,
            ),
        forall|k: int| 0 <= k < b.objects.len() ==> #[trigger] b.covered(runs, k),
        forall|q: int, j: int|
            0 <= q < b.nodes_used && 0 <= j < b.nodes_used ==> #[trigger] b.leaf_whole(runs, q, j),
{
    reveal(SceneView::tree_inv);
    let n = a.nodes_used;
    assert forall|i: int, j: int| 0 <= i < n && 0 <= j < n implies #[trigger] b.leaves_apart(
        runs,
        i,
        j,
    ) by {
        assert(a.leaves_apart(runs, i, j));
    }
    assert forall|k: int| 0 <= k < b.objects.len() implies #[trigger] b.covered(runs, k) by {
        assert(a.covered(runs, k));
        let i = choose|i: int| 0 <= i < n && #[trigger] a.in_leaf(runs, k, i);
        assert(b.in_leaf(runs, k, i));
    }
    assert forall|q: int, j: int| 0 <= q < n && 0 <= j < n implies #[trigger] b.leaf_whole(
        runs,
        q,
        j,
    ) by {
        assert(a.leaf_whole(runs, q, j));
    }
}

/// Another order in a run keeps the box of node `i` the least box around
/// its run.
proof fn lemma_reordered_bounded(a: SceneView, b: SceneView, runs: Seq<Run>, p: int, i: int)
    requires
        reordered(a, b, runs, p),
        0 <= i < a.nodes_used,
    ensures
        b.node_bounded(runs, i),
{
    reveal(SceneView::tree_inv);
    let lo = runs[p].lo;
    let hi = runs[p].hi;
    assert(a.node_shaped(runs, p));
    assert(a.node_shaped(runs, i));
    assert(a.node_bounded(runs, i));
    assert(a.leaf_whole(runs, p, i));
    assert(a.object_indices.len() == a.objects.len()) by {
        reveal(is_permutation);
    }
    let node = a.nodes[i];
    lemma_rearranged_run(a, b, lo, hi, runs[i], enclosed_by(node));
    lemma_rearranged_run(a, b, lo, hi, runs[i], touched_by(node, 0, false));
    lemma_rearranged_run(a, b, lo, hi, runs[i], touched_by(node, 1, false));
    lemma_rearranged_run(a, b, lo, hi, runs[i], touched_by(node, 2, false));
    lemma_rearranged_run(a, b, lo, hi, runs[i], touched_by(node, 0, true));
    lemma_rearranged_run(a, b, lo, hi, runs[i], touched_by(node, 1, true));
    lemma_rearranged_run(a, b, lo, hi, runs[i], touched_by(node, 2, true));
}

/// Another order in a run keeps the inner node `i` parted.
proof fn lemma_reordered_parted(a: SceneView, b: SceneView, runs: Seq<Run>, p: int, i: int)
    requires
        reordered(a, b, runs, p),
        0 <= i < a.nodes_used,
    ensures
        b.node_parted(runs, i),
{
    reveal(SceneView::tree_inv);
    let lo = runs[p].lo;
    let hi = runs[p].hi;
    assert(a.node_shaped(runs, p));
    assert(a.node_shaped(runs, i));
    assert(a.node_parted(runs, i));
    assert(a.object_indices.len() == a.objects.len()) by {
        reveal(is_permutation);
    }
    let node = a.nodes[i];
    if node.object_count == 0 {
        let c = node.left_child as int;
        let axis = node.widest_axis();
        let split = node.middle(axis);
        assert(a.node_shaped(runs, c));
        assert(a.node_shaped(runs, c + 1));
        assert(a.leaf_whole(runs, p, c));
        assert(a.leaf_whole(runs, p, c + 1));
        lemma_rearranged_run(a, b, lo, hi, runs[c], left_of(axis, split));
        lemma_rearranged_run(a, b, lo, hi, runs[c + 1], right_of(axis, split));
    }
}

/// Another order in a run keeps a leaf one-sided that was so, be it the
/// leaf of the run or another.
proof fn lemma_reordered_one_sided(a: SceneView, b: SceneView, runs: Seq<Run>, p: int, j: int)
    requires
        reordered(a, b, runs, p),
        0 <= j < a.nodes_used,
        a.nodes[j].object_count > 0,
        a.one_sided(a.nodes[j]),
    ensures
        b.one_sided(b.nodes[j]),
{
    reveal(SceneView::tree_inv);
    reveal(SceneView::one_sided);
    let lo = runs[p].lo;
    let hi = runs[p].hi;
    assert(a.node_shaped(runs, p));
    assert(a.node_shaped(runs, j));
    assert(a.leaves_apart(runs, j, p));
    assert(a.object_indices.len() == a.objects.len()) by {
        reveal(is_permutation);
    }
    let node = a.nodes[j];
    let axis = node.widest_axis();
    let split = node.middle(axis);
    lemma_rearranged_run(a, b, lo, hi, runs[j], left_of(axis, split));
    lemma_rearranged_run(a, b, lo, hi, runs[j], right_of(axis, split));
}

/// Putting the run of a leaf in another order leaves the tree a tree, and
/// every other node as settled as it was.
pub proof fn lemma_rearranged_tree(a: SceneView, b: SceneView, runs: Seq<Run>, p: int)
    requires
        a.tree_inv(runs),
        0 <= p < a.nodes_used,
        a.nodes[p].object_count > 0,
        b == (SceneView { object_indices: b.object_indices, ..a }),
        rearranged(a.object_indices, b.object_indices, runs[p].lo, runs[p].hi),
    ensures
        b.tree_inv(runs),
        forall|j: int|
            0 <= j < a.nodes_used && j != p && a.node_settled(j) ==> #[trigger] b.node_settled(j),
        a.one_sided(a.nodes[p]) ==> b.one_sided(b.nodes[p]),
{
    let n = a.nodes_used;
    lemma_reordered_shape(a, b, runs, p);
    lemma_reordered_runs(a, b, runs, p);
    assert forall|i: int| 0 <= i < n implies #[trigger] b.node_bounded(runs, i) by {
        lemma_reordered_bounded(a, b, runs, p, i);
    }
    assert forall|i: int| 0 <= i < n implies #[trigger] b.node_parted(runs, i) by {
        lemma_reordered_parted(a, b, runs, p, i);
    }
    assert forall|j: int| 0 <= j < n && j != p && a.node_settled(j) implies #[trigger] b.node_settled(
        j,
    ) by {
        if a.nodes[j].object_count > 2 {
            lemma_reordered_one_sided(a, b, runs, p, j);
        }
    }
    if a.one_sided(a.nodes[p]) {
        lemma_reordered_one_sided(a, b, runs, p, p);
    }
    assert(b.tree_inv(runs)) by {
        reveal(SceneView::tree_inv);
    }
}

/// Turning one leaf into an inner node adds one to the count of inner
/// nodes at and beyond it.
pub proof fn lemma_inner_count_update(before: Seq<Node>, after: Seq<Node>, p: int, n: int)
    requires
        0 <= p < n <= before.len(),
        after.len() == before.len(),
        before[p].object_count > 0,
        after[p].object_count == 0,
        forall|i: int| 0 <= i < n && i != p ==> #[trigger] after[i].object_count == before[i].object_count,
    ensures
        inner_count(after, n) == inner_count(before, n) + 1,
    decreases n,
{
    if n - 1 == p {
        lemma_inner_count_same(before, after, n - 1);
    } else {
        lemma_inner_count_update(before, after, p, n - 1);
    }
}

/// Nodes that agree on what is a leaf have the same count of inner nodes.
pub proof fn lemma_inner_count_same(before: Seq<Node>, after: Seq<Node>, n: int)
    requires
        0 <= n <= before.len(),
        after.len() == before.len(),
        forall|i: int| 0 <= i < n ==> #[trigger] after[i].object_count == before[i].object_count,
    ensures
        inner_count(after, n) == inner_count(before, n),
    decreases n,
{
    if n > 0 {
        lemma_inner_count_same(before, after, n - 1);
    }
}

/// Nodes that name as many objects each name as many between them.
pub proof fn lemma_object_total_same(before: Seq<Node>, after: Seq<Node>, n: int)
    requires
        0 <= n <= before.len(),
        after.len() == before.len(),
        forall|i: int| 0 <= i < n ==> #[trigger] after[i].object_count == before[i].object_count,
    ensures
        object_total(after, n) == object_total(before, n),
    decreases n,
{
    if n > 0 {
        lemma_object_total_same(before, after, n - 1);
    }
}

/// Turning one leaf into an inner node takes its objects from the total.
pub proof fn lemma_object_total_update(before: Seq<Node>, after: Seq<Node>, p: int, n: int)
    requires
        0 <= p < n <= before.len(),
        after.len() == before.len(),
        after[p].object_count == 0,
        forall|i: int| 0 <= i < n && i != p ==> #[trigger] after[i].object_count == before[i].object_count,
    ensures
        object_total(after, n) == object_total(before, n) - before[p].object_count,
    decreases n,
{
    if n - 1 == p {
        lemma_object_total_same(before, after, n - 1);
    } else {
        lemma_object_total_update(before, after, p, n - 1);
    }
}

/// Every leaf names at least one object: the first `n` nodes name at least
/// as many objects as there are leaves among them, and as many more as
/// leaf `p` names beyond its first.
pub proof fn lemma_object_total_least(nodes: Seq<Node>, p: int, n: int)
    requires
        0 <= p < n <= nodes.len(),
        nodes[p].object_count > 0,
    ensures
        object_total(nodes, n) >= n - inner_count(nodes, n) + nodes[p].object_count - 1,
        object_total(nodes, p) >= p - inner_count(nodes, p),
    decreases n,
{
    lemma_object_total_leaves(nodes, p);
    if n - 1 > p {
        lemma_object_total_least(nodes, p, n - 1);
    }
}

/// The first `n` nodes name at least as many objects as there are leaves
/// among them.
pub proof fn lemma_object_total_leaves(nodes: Seq<Node>, n: int)
    requires
        0 <= n <= nodes.len(),
    ensures
        object_total(nodes, n) >= n - inner_count(nodes, n),
    decreases n,
{
    if n > 0 {
        lemma_object_total_leaves(nodes, n - 1);
    }
}

/// The runs of a tree after leaf `p` got two children that share its run
/// at `mid`.
pub open spec fn runs_after(runs: Seq<Run>, p: int, mid: int) -> Seq<Run> {
    runs.push(Run { lo: runs[p].lo, hi: mid }).push(Run { lo: mid, hi: runs[p].hi })
}

/// `b` is `a` after leaf `p`, whose run was sorted at `mid` about the
/// middle of its box, became an inner node over two new leaves.
#[verifier::opaque]
pub open spec fn split_of(a: SceneView, b: SceneView, runs: Seq<Run>, p: int, mid: int) -> bool {
    let n = a.nodes_used;
    let lo = runs[p].lo;
    let hi = runs[p].hi;
    let axis = a.nodes[p].widest_axis();
    let split = a.nodes[p].middle(axis);
    &&& a.tree_inv(runs)
    &&& 0 <= p < n
    &&& a.nodes[p].object_count > 0
    &&& lo < mid < hi
    &&& n + 2 <= a.nodes.len()
    &&& b == (SceneView { nodes: b.nodes, nodes_used: n + 2, ..a })
    &&& b.nodes.len() == a.nodes.len()
    &&& forall|i: int|
        0 <= i < a.nodes.len() && i != p && i != n && i != n + 1 ==> #[trigger] b.nodes[i]
            == a.nodes[i]
    &&& b.nodes[p].min_corner == a.nodes[p].min_corner
    &&& b.nodes[p].max_corner == a.nodes[p].max_corner
    &&& b.nodes[p].left_child == n
    &&& b.nodes[p].object_count == 0
    &&& b.nodes[n] == grown_over(fresh_leaf(lo, mid), a.objects, a.object_indices, lo, mid)
    &&& b.nodes[n + 1] == grown_over(fresh_leaf(mid, hi), a.objects, a.object_indices, mid, hi)
    &&& a.all_in_run(lo, mid, left_of(axis, split))
    &&& a.all_in_run(mid, hi, right_of(axis, split))
}

/// Scenes with the same objects in the same order agree on every run.
pub proof fn lemma_same_run(
    a: SceneView,
    b: SceneView,
    lo: int,
    hi: int,
    property: spec_fn(Object) -> bool,
)
    requires
        b.objects == a.objects,
        b.object_indices == a.object_indices,
    ensures
        a.all_in_run(lo, hi, property) == b.all_in_run(lo, hi, property),
        a.some_in_run(lo, hi, property) == b.some_in_run(lo, hi, property),
{
    assert forall|k: int| a.object_at(k) == b.object_at(k) by {
    }
    if a.all_in_run(lo, hi, property) {
        assert forall|k: int| lo <= k < hi implies property(#[trigger] b.object_at(k)) by {
            assert(property(a.object_at(k)));
        }
    }
    if b.all_in_run(lo, hi, property) {
        assert forall|k: int| lo <= k < hi implies property(#[trigger] a.object_at(k)) by {
            assert(property(b.object_at(k)));
        }
    }
    if a.some_in_run(lo, hi, property) {
        let k = choose|k: int| lo <= k < hi && property(#[trigger] a.object_at(k));
        assert(property(b.object_at(k)));
    }
    if b.some_in_run(lo, hi, property) {
        let k = choose|k: int| lo <= k < hi && property(#[trigger] b.object_at(k));
        assert(property(a.object_at(k)));
    }
}

/// Two nodes with the same box bound the same runs.
pub proof fn lemma_same_box(s: SceneView, m: Node, n: Node, lo: int, hi: int)
    requires
        m.min_corner == n.min_corner,
        m.max_corner == n.max_corner,
    ensures
        s.all_in_run(lo, hi, enclosed_by(m)) == s.all_in_run(lo, hi, enclosed_by(n)),
        forall|axis: usize, upper: bool|
            s.some_in_run(lo, hi, #[trigger] touched_by(m, axis, upper)) == s.some_in_run(
                lo,
                hi,
                touched_by(n, axis, upper),
            ),
{
    assert(enclosed_by(m) =~= enclosed_by(n));
    assert forall|axis: usize, upper: bool| #[trigger]
        touched_by(m, axis, upper) == touched_by(n, axis, upper) by {
        assert(touched_by(m, axis, upper) =~= touched_by(n, axis, upper));
    }
}

/// Splitting a leaf keeps the shape of the tree.
proof fn lemma_split_shape(a: SceneView, b: SceneView, runs: Seq<Run>, p: int, mid: int)
    requires
        split_of(a, b, runs, p, mid),
    ensures
        b.sized(),
        runs_after(runs, p, mid).len() == b.nodes_used,
        runs_after(runs, p, mid)[0] == (Run { lo: 0, hi: b.objects.len() as int }),
        forall|i: int|
            0 <= i < b.nodes_used ==> #[trigger] b.node_shaped(runs_after(runs, p, mid), i),
        forall|j: int| 1 <= j < b.nodes_used ==> #[trigger] b.has_parent(j),
        forall|i: int, j: int|
            0 <= i < b.nodes_used && 0 <= j < b.nodes_used ==> #[trigger] b.siblings_apart(i, j),
        b.nodes_used == 2 * inner_count(b.nodes, b.nodes_used) + 1,
        object_total(b.nodes, b.nodes_used) == b.objects.len(),
{
    reveal(split_of);
    reveal(SceneView::tree_inv);
    let n = a.nodes_used;
    let lo = runs[p].lo;
    let hi = runs[p].hi;
    let runs2 = runs_after(runs, p, mid);
    assert(a.node_shaped(runs, p));
    lemma_grown_over_links(fresh_leaf(lo, mid), a.objects, a.object_indices, lo, mid);
    lemma_grown_over_links(fresh_leaf(mid, hi), a.objects, a.object_indices, mid, hi);
    assert forall|j: int| b.nodes_used <= j < b.nodes.len() implies #[trigger] b.nodes[j]
        == Node::empty() by {
        assert(a.nodes[j] == Node::empty());
    }
    assert forall|i: int| 0 <= i < b.nodes_used implies #[trigger] b.node_shaped(runs2, i) by {
        if i < n && i != p {
            assert(a.node_shaped(runs, i));
        }
    }
    assert forall|j: int| 1 <= j < b.nodes_used implies #[trigger] b.has_parent(j) by {
        if j < n {
            assert(a.has_parent(j));
            let i = choose|i: int| 0 <= i < j && #[trigger] a.is_child_of(j, i);
            assert(b.is_child_of(j, i));
        } else {
            assert(b.is_child_of(j, p));
        }
    }
    assert forall|i: int, j: int|
        0 <= i < b.nodes_used && 0 <= j < b.nodes_used implies #[trigger] b.siblings_apart(
        i,
        j,
    ) by {
        if i < n && j < n {
            assert(a.siblings_apart(i, j));
            assert(a.node_shaped(runs, i));
            assert(a.node_shaped(runs, j));
        }
    }
    lemma_inner_count_update(a.nodes, b.nodes, p, n);
    assert(inner_count(b.nodes, n + 2) == inner_count(b.nodes, n + 1));
    assert(inner_count(b.nodes, n + 1) == inner_count(b.nodes, n));
    lemma_object_total_update(a.nodes, b.nodes, p, n);
    assert(object_total(b.nodes, n + 2) == object_total(b.nodes, n + 1) + b.nodes[n
        + 1].object_count);
    assert(object_total(b.nodes, n + 1) == object_total(b.nodes, n) + b.nodes[n].object_count);
}

/// Splitting a leaf keeps the leaves apart, all entries covered, and every
/// run whole.
proof fn lemma_split_runs(a: SceneView, b: SceneView, runs: Seq<Run>, p: int, mid: int)
    requires
        split_of(a, b, runs, p, mid),
    ensures
        forall|i: int, j: int|
            0 <= i < b.nodes_used && 0 <= j < b.nodes_used ==> #[trigger] b.leaves_apart(
                runs_after(runs, p, mid),
                i,
                j,
            ),
        forall|k: int|
            0 <= k < b.objects.len() ==> #[trigger] b.covered(runs_after(runs, p, mid), k),
        forall|q: int, j: int|
            0 <= q < b.nodes_used && 0 <= j < b.nodes_used ==> #[trigger] b.leaf_whole(
                runs_after(runs, p, mid),
                q,
                j,
            ),
{
    reveal(split_of);
    reveal(SceneView::tree_inv);
    let n = a.nodes_used;
    let lo = runs[p].lo;
    let hi = runs[p].hi;
    let runs2 = runs_after(runs, p, mid);
    assert(a.node_shaped(runs, p));
    lemma_grown_over_links(fresh_leaf(lo, mid), a.objects, a.object_indices, lo, mid);
    lemma_grown_over_links(fresh_leaf(mid, hi), a.objects, a.object_indices, mid, hi);
    assert forall|i: int, j: int|
        0 <= i < b.nodes_used && 0 <= j < b.nodes_used implies #[trigger] b.leaves_apart(
        runs2,
        i,
        j,
    ) by {
        if i < n && j < n {
            assert(a.leaves_apart(runs, i, j));
        } else if i < n {
            assert(a.leaves_apart(runs, i, p));
        } else if j < n {
            assert(a.leaves_apart(runs, p, j));
        }
    }
    assert forall|k: int| 0 <= k < b.objects.len() implies #[trigger] b.covered(runs2, k) by {
        assert(a.covered(runs, k));
        let i = choose|i: int| 0 <= i < n && #[trigger] a.in_leaf(runs, k, i);
        if i != p {
            assert(b.in_leaf(runs2, k, i));
        } else if k < mid {
            assert(b.in_leaf(runs2, k, n));
        } else {
            assert(b.in_leaf(runs2, k, n + 1));
        }
    }
    assert forall|q: int, j: int|
        0 <= q < b.nodes_used && 0 <= j < b.nodes_used implies #[trigger] b.leaf_whole(
        runs2,
        q,
        j,
    ) by {
        if q < n && j < n {
            assert(a.leaf_whole(runs, q, j));
        } else if q < n {
            assert(a.leaves_apart(runs, q, p));
        } else if j < n {
            assert(a.leaf_whole(runs, p, j));
        }
    }
}

/// Splitting a leaf keeps the box of node `i` the least box around its
/// run, and gives each new leaf such a box.
proof fn lemma_split_bounded(a: SceneView, b: SceneView, runs: Seq<Run>, p: int, mid: int, i: int)
    requires
        split_of(a, b, runs, p, mid),
        0 <= i < b.nodes_used,
    ensures
        b.node_bounded(runs_after(runs, p, mid), i),
{
    reveal(SceneView::tree_inv);
    reveal(split_of);
    let n = a.nodes_used;
    let lo = runs[p].lo;
    let hi = runs[p].hi;
    let runs2 = runs_after(runs, p, mid);
    let node = b.nodes[i];
    let r = runs2[i];
    lemma_same_run(a, b, r.lo, r.hi, enclosed_by(node));
    lemma_same_run(a, b, r.lo, r.hi, touched_by(node, 0, false));
    lemma_same_run(a, b, r.lo, r.hi, touched_by(node, 1, false));
    lemma_same_run(a, b, r.lo, r.hi, touched_by(node, 2, false));
    lemma_same_run(a, b, r.lo, r.hi, touched_by(node, 0, true));
    lemma_same_run(a, b, r.lo, r.hi, touched_by(node, 1, true));
    lemma_same_run(a, b, r.lo, r.hi, touched_by(node, 2, true));
    if i < n {
        assert(a.node_bounded(runs, i));
        if i == p {
            lemma_same_box(a, a.nodes[p], b.nodes[p], lo, hi);
        }
    } else if i == n {
        lemma_grown_from_empty(a, fresh_leaf(lo, mid), lo, mid);
    } else {
        lemma_grown_from_empty(a, fresh_leaf(mid, hi), mid, hi);
    }
}

/// Splitting a leaf keeps every inner node parted, and the split node is
/// parted too.
proof fn lemma_split_parted(a: SceneView, b: SceneView, runs: Seq<Run>, p: int, mid: int, i: int)
    requires
        split_of(a, b, runs, p, mid),
        0 <= i < b.nodes_used,
    ensures
        b.node_parted(runs_after(runs, p, mid), i),
{
    reveal(SceneView::tree_inv);
    reveal(split_of);
    let n = a.nodes_used;
    let lo = runs[p].lo;
    let hi = runs[p].hi;
    let runs2 = runs_after(runs, p, mid);
    let node = b.nodes[i];
    let axis = node.widest_axis();
    let split = node.middle(axis);
    if i < n && i != p {
        assert(a.node_parted(runs, i));
        assert(a.node_shaped(runs, i));
        if node.object_count == 0 {
            let c = node.left_child as int;
            lemma_same_run(a, b, runs[c].lo, runs[c].hi, left_of(axis, split));
            lemma_same_run(a, b, runs[c + 1].lo, runs[c + 1].hi, right_of(axis, split));
        }
    } else if i == p {
        assert(axis == a.nodes[p].widest_axis() && split == a.nodes[p].middle(axis)) by {
            reveal(Node::widest_axis);
            reveal(Node::middle);
        }
        lemma_same_run(a, b, lo, mid, left_of(axis, split));
        lemma_same_run(a, b, mid, hi, right_of(axis, split));
    } else {
        lemma_grown_over_links(fresh_leaf(lo, mid), a.objects, a.object_indices, lo, mid);
        lemma_grown_over_links(fresh_leaf(mid, hi), a.objects, a.object_indices, mid, hi);
        assert(a.node_shaped(runs, p));
    }
}

/// Splitting a leaf leaves every other node as settled as it was.
proof fn lemma_split_settled(a: SceneView, b: SceneView, runs: Seq<Run>, p: int, mid: int, j: int)
    requires
        split_of(a, b, runs, p, mid),
        0 <= j < a.nodes_used,
        j != p,
        a.node_settled(j),
    ensures
        b.node_settled(j),
{
    reveal(split_of);
    reveal(SceneView::one_sided);
    let node = a.nodes[j];
    let axis = node.widest_axis();
    let split = node.middle(axis);
    let l = node.left_child as int;
    let h = node.left_child + node.object_count;
    lemma_same_run(a, b, l, h, left_of(axis, split));
    lemma_same_run(a, b, l, h, right_of(axis, split));
}

/// Splitting a leaf keeps every box the least box around its run, keeps
/// every inner node parted, the split one too, and every other node as
/// settled as it was.
proof fn lemma_split_boxes(a: SceneView, b: SceneView, runs: Seq<Run>, p: int, mid: int)
    requires
        split_of(a, b, runs, p, mid),
    ensures
        forall|i: int|
            0 <= i < b.nodes_used ==> #[trigger] b.node_bounded(runs_after(runs, p, mid), i),
        forall|i: int|
            0 <= i < b.nodes_used ==> #[trigger] b.node_parted(runs_after(runs, p, mid), i),
        forall|j: int|
            0 <= j < a.nodes_used && j != p && a.node_settled(j) ==> #[trigger] b.node_settled(j),
        b.node_settled(p),
{
    let runs2 = runs_after(runs, p, mid);
    assert forall|i: int| 0 <= i < b.nodes_used implies #[trigger] b.node_bounded(runs2, i) by {
        lemma_split_bounded(a, b, runs, p, mid, i);
    }
    assert forall|i: int| 0 <= i < b.nodes_used implies #[trigger] b.node_parted(runs2, i) by {
        lemma_split_parted(a, b, runs, p, mid, i);
    }
    assert forall|j: int|
        0 <= j < a.nodes_used && j != p && a.node_settled(j) implies #[trigger] b.node_settled(
        j,
    ) by {
        lemma_split_settled(a, b, runs, p, mid, j);
    }
    assert(b.node_settled(p)) by {
        reveal(split_of);
    }
}

/// Splitting a leaf leaves the tree a tree.
pub proof fn lemma_split_tree(a: SceneView, b: SceneView, runs: Seq<Run>, p: int, mid: int)
    requires
        split_of(a, b, runs, p, mid),
    ensures
        b.tree_inv(runs_after(runs, p, mid)),
        forall|j: int|
            0 <= j < a.nodes_used && j != p && a.node_settled(j) ==> #[trigger] b.node_settled(j),
        b.node_settled(p),
{
    lemma_split_shape(a, b, runs, p, mid);
    lemma_split_runs(a, b, runs, p, mid);
    lemma_split_boxes(a, b, runs, p, mid);
    assert(b.tree_inv(runs_after(runs, p, mid))) by {
        reveal(SceneView::tree_inv);
    }
}

/// What a tree says of its sizes.
pub proof fn lemma_tree_sized(s: SceneView, runs: Seq<Run>)
    requires
        s.tree_inv(runs),
    ensures
        s.sized(),
{
    reveal(SceneView::tree_inv);
}

/// What a tree says of its sizes and of one of its leaves.
pub proof fn lemma_tree_leaf(s: SceneView, runs: Seq<Run>, p: int)
    requires
        s.tree_inv(runs),
        0 <= p < s.nodes_used,
        s.nodes[p].object_count > 0,
    ensures
        s.sized(),
        s.indices_in_range(),
        s.object_indices.len() == s.objects.len(),
        runs.len() == s.nodes_used,
        runs[p].lo == s.nodes[p].left_child,
        runs[p].hi == s.nodes[p].left_child + s.nodes[p].object_count,
        0 <= runs[p].lo < runs[p].hi <= s.objects.len(),
{
    reveal(is_permutation);
    reveal(SceneView::tree_inv);
    assert(s.node_shaped(runs, p));
}

/// What a split changes and what it leaves alone.
pub proof fn lemma_split_frame(a: SceneView, b: SceneView, runs: Seq<Run>, p: int, mid: int)
    requires
        split_of(a, b, runs, p, mid),
    ensures
        b == (SceneView { nodes: b.nodes, nodes_used: a.nodes_used + 2, ..a }),
        b.nodes.len() == a.nodes.len(),
        forall|j: int| 0 <= j < a.nodes_used && j != p ==> #[trigger] b.nodes[j] == a.nodes[j],
        b.nodes[p].min_corner == a.nodes[p].min_corner,
        b.nodes[p].max_corner == a.nodes[p].max_corner,
        b.nodes[p].object_count == 0,
        b.nodes[a.nodes_used].left_child == runs[p].lo,
        b.nodes[a.nodes_used].object_count == mid - runs[p].lo,
        b.nodes[a.nodes_used + 1].left_child == mid,
        b.nodes[a.nodes_used + 1].object_count == runs[p].hi - mid,
{
    reveal(split_of);
    lemma_tree_leaf(a, runs, p);
    lemma_grown_over_links(
        fresh_leaf(runs[p].lo, mid),
        a.objects,
        a.object_indices,
        runs[p].lo,
        mid,
    );
    lemma_grown_over_links(
        fresh_leaf(mid, runs[p].hi),
        a.objects,
        a.object_indices,
        mid,
        runs[p].hi,
    );
}

/// The index array that names every object in turn is a permutation.
pub proof fn lemma_identity_permutation(entries: Seq<usize>, n: int)
    requires
        entries.len() == n,
        forall|k: int| 0 <= k < n ==> #[trigger] entries[k] == k,
    ensures
        is_permutation(entries, n),
{
    reveal(is_permutation);
    assert forall|v: usize| v < n implies found_in(entries, 0, n, v) by {
        assert(entries[v as int] == v);
    }
}

/// One leaf over all objects, with its box grown, is a tree.
pub proof fn lemma_first_tree(s: SceneView)
    requires
        s.objects.len() >= 1,
        s.nodes.len() == 2 * s.objects.len() - 1,
        s.nodes.len() <= i32::MAX,
        s.nodes_used == 1,
        s.object_indices.len() == s.objects.len(),
        forall|k: int| 0 <= k < s.objects.len() ==> #[trigger] s.object_indices[k] == k,
        s.nodes[0] == grown_over(
            fresh_leaf(0, s.objects.len() as int),
            s.objects,
            s.object_indices,
            0,
            s.objects.len() as int,
        ),
        forall|j: int| 1 <= j < s.nodes.len() ==> #[trigger] s.nodes[j] == Node::empty(),
    ensures
        s.tree_inv(seq![Run { lo: 0, hi: s.objects.len() as int }]),
{
    reveal(SceneView::tree_inv);
    let n = s.objects.len() as int;
    let runs = seq![Run { lo: 0, hi: n }];
    lemma_identity_permutation(s.object_indices, n);
    lemma_grown_from_empty(s, fresh_leaf(0, n), 0, n);
    assert(s.node_shaped(runs, 0));
    assert(s.node_bounded(runs, 0));
    assert(s.node_parted(runs, 0));
    assert(s.siblings_apart(0, 0));
    assert(s.leaves_apart(runs, 0, 0));
    assert(s.leaf_whole(runs, 0, 0));
    assert forall|k: int| 0 <= k < s.objects.len() implies #[trigger] s.covered(runs, k) by {
        assert(s.in_leaf(runs, k, 0));
    }
    assert(inner_count(s.nodes, 1) == inner_count(s.nodes, 0));
    assert(object_total(s.nodes, 1) == object_total(s.nodes, 0) + s.nodes[0].object_count);
}

/// The scene with another index array.
pub open spec fn reindexed(s: SceneView, indices: Seq<usize>) -> SceneView {
    SceneView { object_indices: indices, ..s }
}

/// Sorting entries `i..j` about `split` rearranges them, and leaves those
/// whose objects stand below `split` before all others.
pub proof fn lemma_parted(s: SceneView, axis: usize, split: Scalar, i: int, j: int)
    requires
        0 <= i <= j <= s.object_indices.len(),
    ensures
        ({
            let after = parted(s.objects, s.object_indices, axis, split, i, j);
            let mid = parted_at(s.objects, s.object_indices, axis, split, i, j);
            &&& i <= mid <= j
            &&& rearranged(s.object_indices, after, i, j)
            &&& reindexed(s, after).all_in_run(i, mid, left_of(axis, split))
            &&& reindexed(s, after).all_in_run(mid, j, right_of(axis, split))
        }),
    decreases j - i,
{
    let before = s.object_indices;
    let after = parted(s.objects, before, axis, split, i, j);
    let mid = parted_at(s.objects, before, axis, split, i, j);
    if i >= j {
        lemma_rearranged_same(before, i, j);
    } else if s.objects[before[i] as int].spec_position(axis).spec_lt(split) {
        lemma_parted(s, axis, split, i + 1, j);
        lemma_rearranged_same(before, i, j);
        lemma_rearranged_twice(before, before, after, i, j, i, j, i + 1, j);
        assert(after[i] == before[i]) by {
            reveal(rearranged);
        }
        assert forall|k: int| i <= k < mid implies left_of(axis, split)(
            #[trigger] reindexed(s, after).object_at(k),
        ) by {
            if k == i {
                assert(reindexed(s, after).object_at(k) == s.objects[before[i] as int]);
            }
        }
    } else {
        let swapped = before.update(i, before[j - 1]).update(j - 1, before[i]);
        let t = reindexed(s, swapped);
        lemma_parted(t, axis, split, i, j - 1);
        lemma_rearranged_same(before, i, j);
        lemma_swap_rearranged(before, before, swapped, i, j, i, j - 1);
        lemma_rearranged_twice(before, swapped, after, i, j, i, j, i, j - 1);
        assert(after[j - 1] == swapped[j - 1]) by {
            reveal(rearranged);
        }
        assert(reindexed(t, after) == reindexed(s, after));
        assert forall|k: int| mid <= k < j implies right_of(axis, split)(
            #[trigger] reindexed(s, after).object_at(k),
        ) by {
            if k == j - 1 {
                assert(reindexed(s, after).object_at(k) == s.objects[before[i] as int]);
            }
        }
    }
}

/// The split that [`split_at`] describes is a split as the tree lemmas
/// speak of it, if the run of the leaf is sorted at `mid`.
pub proof fn lemma_split_at_is_split(s: SceneView, runs: Seq<Run>, p: int, mid: int)
    requires
        s.tree_inv(runs),
        0 <= p < s.nodes_used,
        s.nodes[p].object_count > 0,
        runs[p].lo < mid < runs[p].hi,
        s.nodes_used + 2 <= s.nodes.len(),
        s.all_in_run(
            runs[p].lo,
            mid,
            left_of(s.nodes[p].widest_axis(), s.nodes[p].middle(s.nodes[p].widest_axis())),
        ),
        s.all_in_run(
            mid,
            runs[p].hi,
            right_of(s.nodes[p].widest_axis(), s.nodes[p].middle(s.nodes[p].widest_axis())),
        ),
    ensures
        split_of(s, split_at(s, p, mid), runs, p, mid),
{
    reveal(split_of);
    lemma_tree_leaf(s, runs, p);
}

/// A tree has room to subdivide any of its leaves: every other leaf names
/// an object of its own, so the nodes that the leaf can come to take still
/// fit the node array.
pub proof fn lemma_room(s: SceneView, runs: Seq<Run>, p: int)
    requires
        s.tree_inv(runs),
        0 <= p < s.nodes_used,
        s.nodes[p].object_count > 0,
    ensures
        s.nodes_used + 2 * s.nodes[p].object_count - 2 <= s.nodes.len(),
{
    reveal(SceneView::tree_inv);
    lemma_object_total_least(s.nodes, p, s.nodes_used);
}

/// Subdividing a leaf of a tree leaves a tree, grown below that leaf and
/// nowhere else.
pub proof fn lemma_subdivided(s: SceneView, runs: Seq<Run>, p: int)
    requires
        s.tree_inv(runs),
        0 <= p < s.nodes_used,
        s.nodes[p].object_count > 0,
    ensures
        subdivided(s, p, s.nodes[p].object_count as nat).is_hierarchy(),
        regrown(s, subdivided(s, p, s.nodes[p].object_count as nat), p),
    decreases s.nodes[p].object_count,
{
    reveal(subdivided);
    let node = s.nodes[p];
    let count = node.object_count as nat;
    let t = subdivided(s, p, count);
    let lo = node.run_start();
    let hi = node.run_end();
    let n = s.nodes_used;
    lemma_tree_leaf(s, runs, p);
    lemma_room(s, runs, p);
    lemma_rearranged_same(s.object_indices, lo, hi);
    if count <= 2 {
        assert(t == s);
    } else {
        let axis = node.widest_axis();
        let split = node.middle(axis);
        let s1 = sorted(s, p);
        let mid = sorted_at(s, p);
        lemma_parted(s, axis, split, lo, hi);
        assert(s1 == reindexed(s, s1.object_indices));
        lemma_rearranged_tree(s, s1, runs, p);
        lemma_tree_leaf(s1, runs, p);
        if lo < mid < hi {
            let s2 = split_at(s1, p, mid);
            let runs2 = runs_after(runs, p, mid);
            lemma_split_at_is_split(s1, runs, p, mid);
            lemma_split_frame(s1, s2, runs, p, mid);
            lemma_split_tree(s1, s2, runs, p, mid);
            lemma_tree_leaf(s2, runs2, n);
            lemma_tree_leaf(s2, runs2, n + 1);
            lemma_subdivided(s2, runs2, n);
            let s3 = subdivided(s2, n, (mid - lo) as nat);
            let runs3 = choose|runs3: Seq<Run>| #[trigger] s3.tree_inv(runs3);
            assert(s3.nodes[n + 1] == s2.nodes[n + 1]);
            lemma_subdivided(s3, runs3, n + 1);
            let s4 = subdivided(s3, n + 1, (hi - mid) as nat);
            assert(t == s4);
            lemma_rearranged_twice(
                s.object_indices,
                s2.object_indices,
                s3.object_indices,
                lo,
                hi,
                lo,
                hi,
                lo,
                mid,
            );
            lemma_rearranged_twice(
                s.object_indices,
                s3.object_indices,
                s4.object_indices,
                lo,
                hi,
                lo,
                hi,
                mid,
                hi,
            );
            assert forall|j: int| 0 <= j < n && j != p && s.node_settled(j) implies #[trigger] t.node_settled(
                j,
            ) by {
                assert(s1.node_settled(j));
                assert(s2.node_settled(j));
                assert(s3.node_settled(j));
            }
            assert forall|j: int| n <= j < t.nodes_used implies #[trigger] t.node_settled(j) by {
                if j < s3.nodes_used && j != n + 1 {
                    assert(s3.node_settled(j));
                }
            }
            assert forall|j: int| 0 <= j < n && j != p implies #[trigger] t.nodes[j]
                == s.nodes[j] by {
                assert(s2.nodes[j] == s1.nodes[j]);
                assert(s3.nodes[j] == s2.nodes[j]);
            }
            assert(s3.nodes[p] == s2.nodes[p]);
            assert(t.nodes[p] == s3.nodes[p]);
        } else {
            assert(t == s1);
            assert(s1.one_sided(s1.nodes[p])) by {
                reveal(SceneView::one_sided);
            }
        }
    }
}

} // verus!
