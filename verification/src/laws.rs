//! What holds of every hierarchy, and of the buffers written from a scene.

use vstd::prelude::*;
use crate::camera::Camera;
use crate::hierarchy::{
    built, first_leaf, fresh_leaf, inner_count, is_permutation, object_total, rearranged, sorted,
    sorted_at, subdivided, Run,
};
use crate::tree_lemmas::{
    lemma_first_tree, lemma_grown_over_links, lemma_parted, lemma_rearranged_run, lemma_room,
    lemma_subdivided, lemma_tree_leaf, reindexed,
};
use crate::node::Node;
use crate::obj_mesh::ObjMesh;
use vstd::arithmetic::power2::{lemma2_to64, lemma_pow2_pos, pow2};
use crate::camera::{spec_clamp_pitch, within_limit};
use crate::rounding::lemma_round_decomposed;
use crate::scalar::{round_magnitude, Scalar, HIDDEN};
use crate::hierarchy::{left_of, right_of, touched_by};
use crate::scene::{Object, SceneView};

verus! {

/// What building gives is a hierarchy in which nothing is left to split,
/// for any objects, as long as there is one and no more than the links of
/// the nodes can number.
pub proof fn law_built_is_built(
    objects: Seq<Object>,
    camera: Camera,
    max_bounces: usize,
    object_meshes: Seq<ObjMesh>,
)
    requires
        1 <= objects.len(),
        2 * objects.len() - 1 <= i32::MAX,
    ensures
        built(objects, camera, max_bounces, object_meshes).is_built(),
{
    reveal(first_leaf);
    let s = first_leaf(objects, camera, max_bounces, object_meshes);
    let t = built(objects, camera, max_bounces, object_meshes);
    let n = objects.len() as int;
    lemma_first_tree(s);
    lemma_grown_over_links(fresh_leaf(0, n), objects, s.object_indices, 0, n);
    lemma_subdivided(s, seq![Run { lo: 0, hi: n }], 0);
    assert forall|j: int| 0 <= j < t.nodes_used implies #[trigger] t.node_settled(j) by {
    }
}

/// In a tree, what lies below a node lies in its run.
proof fn lemma_below_in_run(s: SceneView, runs: Seq<Run>, i: int, k: int)
    requires
        s.tree_inv(runs),
        0 <= i < s.nodes_used,
        s.below(i, k),
    ensures
        runs[i].lo <= k < runs[i].hi,
    decreases s.nodes.len() - i,
{
    reveal(SceneView::tree_inv);
    assert(s.node_shaped(runs, i));
    let node = s.nodes[i];
    if node.object_count == 0 {
        let c = node.left_child as int;
        assert(s.node_shaped(runs, c));
        assert(s.node_shaped(runs, c + 1));
        if s.below(c, k) {
            lemma_below_in_run(s, runs, c, k);
        } else {
            lemma_below_in_run(s, runs, c + 1, k);
        }
    }
}

/// In a tree, what lies in the run of a node lies below it.
proof fn lemma_run_is_below(s: SceneView, runs: Seq<Run>, i: int, k: int)
    requires
        s.tree_inv(runs),
        0 <= i < s.nodes_used,
        runs[i].lo <= k < runs[i].hi,
    ensures
        s.below(i, k),
    decreases s.nodes.len() - i,
{
    reveal(SceneView::tree_inv);
    assert(s.node_shaped(runs, i));
    let node = s.nodes[i];
    if node.object_count == 0 {
        let c = node.left_child as int;
        assert(s.node_shaped(runs, c));
        assert(s.node_shaped(runs, c + 1));
        if k < runs[c].hi {
            lemma_run_is_below(s, runs, c, k);
        } else {
            lemma_run_is_below(s, runs, c + 1, k);
        }
    }
}

/// The box of every node encloses the box of every object below it, be it
/// in the run of the node itself or in a leaf further down.
pub proof fn law_boxes_enclose_what_lies_below(s: SceneView, i: int, k: int)
    requires
        s.is_hierarchy(),
        0 <= i < s.nodes_used,
        s.below(i, k),
    ensures
        s.nodes[i].encloses(s.object_at(k).bounds()),
{
    let runs = choose|runs: Seq<Run>| #[trigger] s.tree_inv(runs);
    lemma_below_in_run(s, runs, i, k);
    reveal(SceneView::tree_inv);
    assert(s.node_bounded(runs, i));
}

/// The box of every node is no larger than that asks for: on each side of
/// each axis it ends where the box of some object below the node ends.
pub proof fn law_boxes_touch_what_lies_below(s: SceneView, i: int, axis: usize, upper: bool)
    requires
        s.is_hierarchy(),
        0 <= i < s.nodes_used,
        axis < 3,
    ensures
        exists|k: int| #[trigger] s.below(i, k) && s.nodes[i].touches(
            s.object_at(k).bounds(),
            axis,
            upper,
        ),
{
    let runs = choose|runs: Seq<Run>| #[trigger] s.tree_inv(runs);
    assert(s.node_bounded(runs, i)) by {
        reveal(SceneView::tree_inv);
    }
    assert(s.some_in_run(runs[i].lo, runs[i].hi, touched_by(s.nodes[i], axis, upper)));
    let k = choose|k: int|
        runs[i].lo <= k < runs[i].hi && touched_by(s.nodes[i], axis, upper)(
            #[trigger] s.object_at(k),
        );
    lemma_run_is_below(s, runs, i, k);
}

/// Every entry of the index array lies below the first node, the root.
pub proof fn law_all_lies_below_the_root(s: SceneView, k: int)
    requires
        s.is_hierarchy(),
        0 <= k < s.objects.len(),
    ensures
        s.below(0, k),
{
    let runs = choose|runs: Seq<Run>| #[trigger] s.tree_inv(runs);
    assert(runs[0] == (Run { lo: 0, hi: s.objects.len() as int }) && 0 < s.nodes_used) by {
        reveal(SceneView::tree_inv);
    }
    lemma_run_is_below(s, runs, 0, k);
}

/// Entry `k` of the index array is in the run that leaf `i` names.
pub open spec fn in_run_of(s: SceneView, i: int, k: int) -> bool {
    &&& s.nodes[i].object_count > 0
    &&& s.nodes[i].left_child <= k < s.nodes[i].left_child + s.nodes[i].object_count
}

/// Entry `k` of the index array is in the run of some leaf in use.
pub open spec fn in_some_run(s: SceneView, k: int) -> bool {
    exists|i: int| 0 <= i < s.nodes_used && #[trigger] in_run_of(s, i, k)
}

/// The index array names every object exactly once, and the runs of the
/// leaves share it out: every entry is in the run of some leaf, and no
/// entry is in the runs of two.
pub proof fn law_leaves_share_out_the_objects(s: SceneView)
    requires
        s.is_hierarchy(),
    ensures
        is_permutation(s.object_indices, s.objects.len() as int),
        forall|k: int| 0 <= k < s.objects.len() ==> #[trigger] in_some_run(s, k),
        forall|i: int, j: int, k: int|
            0 <= i < s.nodes_used && 0 <= j < s.nodes_used && i != j ==> !(#[trigger] in_run_of(
                s,
                i,
                k,
            ) && #[trigger] in_run_of(s, j, k)),
{
    let runs = choose|runs: Seq<Run>| #[trigger] s.tree_inv(runs);
    reveal(SceneView::tree_inv);
    assert forall|k: int| 0 <= k < s.objects.len() implies #[trigger] in_some_run(s, k) by {
        assert(s.covered(runs, k));
        let i = choose|i: int| 0 <= i < s.nodes_used && #[trigger] s.in_leaf(runs, k, i);
        assert(s.node_shaped(runs, i));
        assert(in_run_of(s, i, k));
    }
    assert forall|i: int, j: int, k: int|
        0 <= i < s.nodes_used && 0 <= j < s.nodes_used && i != j implies !(#[trigger] in_run_of(
        s,
        i,
        k,
    ) && #[trigger] in_run_of(s, j, k)) by {
        assert(s.node_shaped(runs, i));
        assert(s.node_shaped(runs, j));
        assert(s.leaves_apart(runs, i, j));
    }
}

/// The two children of an inner node are the node it names and the next;
/// both come after it and are in use.
pub proof fn law_children_are_in_use(s: SceneView, i: int)
    requires
        s.is_hierarchy(),
        0 <= i < s.nodes_used,
        s.nodes[i].object_count == 0,
    ensures
        i < s.nodes[i].left_child,
        s.nodes[i].left_child + 1 < s.nodes_used,
        s.nodes_used <= s.nodes.len(),
{
    let runs = choose|runs: Seq<Run>| #[trigger] s.tree_inv(runs);
    reveal(SceneView::tree_inv);
    assert(s.node_shaped(runs, i));
}

/// A hierarchy has room to subdivide any of its leaves: were the leaf split
/// down to single objects, the nodes that took would still fit the node
/// array.
pub proof fn law_room_to_split(s: SceneView, p: int)
    requires
        s.is_hierarchy(),
        0 <= p < s.nodes_used,
        s.nodes[p].object_count > 0,
    ensures
        s.nodes_used + 2 * s.nodes[p].object_count - 2 <= s.nodes.len(),
{
    let runs = choose|runs: Seq<Run>| #[trigger] s.tree_inv(runs);
    lemma_room(s, runs, p);
}

/// The nodes in use name every object once between them: the counts of the
/// leaves add up to the number of objects.
pub proof fn law_leaves_name_all_objects(s: SceneView)
    requires
        s.is_hierarchy(),
    ensures
        object_total(s.nodes, s.nodes_used) == s.objects.len(),
{
    let runs = choose|runs: Seq<Run>| #[trigger] s.tree_inv(runs);
    reveal(SceneView::tree_inv);
}

/// A hierarchy over `n` objects uses at most `2n - 1` nodes, and one more
/// than twice as many as it has inner nodes.
pub proof fn law_node_count(s: SceneView)
    requires
        s.is_hierarchy(),
    ensures
        1 <= s.nodes_used <= 2 * s.objects.len() - 1,
        s.nodes_used == 2 * inner_count(s.nodes, s.nodes_used) + 1,
{
    let runs = choose|runs: Seq<Run>| #[trigger] s.tree_inv(runs);
    reveal(SceneView::tree_inv);
}

/// A leaf whose objects all stand on one side of the middle of its box is
/// not split, however many they are: subdividing it puts its run in another
/// order and changes no node.
pub proof fn law_one_sided_leaf_stays(s: SceneView, p: int)
    requires
        s.is_hierarchy(),
        0 <= p < s.nodes_used,
        s.nodes[p].object_count > 0,
        s.one_sided(s.nodes[p]),
    ensures
        subdivided(s, p, s.nodes[p].object_count as nat).nodes == s.nodes,
        subdivided(s, p, s.nodes[p].object_count as nat).nodes_used == s.nodes_used,
        rearranged(
            s.object_indices,
            subdivided(s, p, s.nodes[p].object_count as nat).object_indices,
            s.nodes[p].run_start(),
            s.nodes[p].run_end(),
        ),
{
    let runs = choose|runs: Seq<Run>| #[trigger] s.tree_inv(runs);
    let node = s.nodes[p];
    let lo = node.run_start();
    let hi = node.run_end();
    let axis = node.widest_axis();
    let split = node.middle(axis);
    reveal(subdivided);
    reveal(SceneView::one_sided);
    lemma_tree_leaf(s, runs, p);
    lemma_subdivided(s, runs, p);
    if node.object_count > 2 {
        let s1 = sorted(s, p);
        let mid = sorted_at(s, p);
        lemma_parted(s, axis, split, lo, hi);
        assert(s1 == reindexed(s, s1.object_indices));
        let run = Run { lo, hi };
        lemma_rearranged_run(s, s1, lo, hi, run, left_of(axis, split));
        lemma_rearranged_run(s, s1, lo, hi, run, right_of(axis, split));
        if lo < mid < hi {
            assert(left_of(axis, split)(s1.object_at(lo)));
            assert(right_of(axis, split)(s1.object_at(mid)));
            assert(false);
        }
    }
}

/// Two numbers that compare alike with every other: the same pattern, or
/// the same value.
pub open spec fn same_number(x: Scalar, y: Scalar) -> bool {
    x.bits == y.bits || (!x.spec_is_nan() && !y.spec_is_nan() && x.key() == y.key())
}

/// Two objects stand at the same place on every axis.
pub open spec fn same_place(a: Object, b: Object) -> bool {
    &&& same_number(a.spec_position(0), b.spec_position(0))
    &&& same_number(a.spec_position(1), b.spec_position(1))
    &&& same_number(a.spec_position(2), b.spec_position(2))
}

/// Where all objects stand at one place, the hierarchy is a single leaf
/// that holds them all.
pub proof fn law_one_place_one_leaf(s: SceneView)
    requires
        s.is_hierarchy(),
        forall|i: int, j: int|
            0 <= i < s.objects.len() && 0 <= j < s.objects.len() ==> same_place(
                #[trigger] s.objects[i],
                #[trigger] s.objects[j],
            ),
    ensures
        s.nodes_used == 1,
        s.nodes[0].left_child == 0,
        s.nodes[0].object_count == s.objects.len(),
{
    let runs = choose|runs: Seq<Run>| #[trigger] s.tree_inv(runs);
    reveal(SceneView::tree_inv);
    reveal(is_permutation);
    reveal(Node::widest_axis);
    assert(s.node_shaped(runs, 0));
    let root = s.nodes[0];
    if root.object_count == 0 {
        let c = root.left_child as int;
        let axis = root.widest_axis();
        let split = root.middle(axis);
        assert(s.node_shaped(runs, c));
        assert(s.node_shaped(runs, c + 1));
        assert(s.node_parted(runs, 0));
        let a = runs[c].lo;
        let b = runs[c + 1].lo;
        assert(left_of(axis, split)(s.object_at(a)));
        assert(right_of(axis, split)(s.object_at(b)));
        assert(same_place(
            s.objects[s.object_indices[a] as int],
            s.objects[s.object_indices[b] as int],
        ));
        assert(false);
    }
    if s.nodes_used > 1 {
        assert(s.has_parent(1));
        let i = choose|i: int| 0 <= i < 1 && #[trigger] s.is_child_of(1, i);
        assert(false);
    }
}

/// What is written from a scene depends on nothing but the scene: two
/// buffers written from the same scene hold the same bytes.
pub proof fn law_flattening_repeats(s: SceneView, first: Seq<u8>, second: Seq<u8>)
    requires
        first == s.scene_data() && second == s.scene_data() || first == s.object_data() && second
            == s.object_data() || first == s.node_data() && second == s.node_data() || first
            == s.object_index_data() && second == s.object_index_data(),
    ensures
        first == second,
{
}

/// Whatever a pitch is turned by, it stays within eighty-nine degrees
/// either way, unless the turn leaves no number at all.
pub proof fn law_pitch_stays_within_limit(pitch: Scalar, angle: Scalar)
    requires
        !pitch.spec_add(angle).spec_is_nan(),
    ensures
        within_limit(spec_clamp_pitch(pitch.spec_add(angle))),
{
}

/// Rounding a binary32 number gives the number back: what a finite number
/// weighs rounds to its own pattern.
pub proof fn law_rounding_keeps_numbers(x: Scalar)
    requires
        x.spec_is_finite(),
    ensures
        round_magnitude(x.weight(), 1) == x.magnitude(),
{
    reveal(Scalar::weight);
    lemma2_to64();
    let m = x.magnitude();
    let e = m / (HIDDEN as nat);
    let f = m % (HIDDEN as nat);
    let sig: nat = if e == 0 {
        f
    } else {
        HIDDEN as nat + f
    };
    let q: nat = if e == 0 {
        0
    } else {
        (e - 1) as nat
    };
    lemma_pow2_pos(q);
    let w = x.weight();
    assert(w == sig * pow2(q)) by (nonlinear_arith)
        requires
            w == if e == 0 {
                f
            } else {
                (HIDDEN as nat + f) * pow2((e - 1) as nat)
            },
            sig == if e == 0 {
                f
            } else {
                HIDDEN as nat + f
            },
            q == if e == 0 {
                0
            } else {
                (e - 1) as nat
            },
            pow2(0) == 1,
    ;
    assert(w == sig * (1 * pow2(q)) + 0 && 0 < 1 * pow2(q)) by (nonlinear_arith)
        requires
            w == sig * pow2(q),
            pow2(q) > 0,
    ;
    lemma_round_decomposed(w, 1, q, sig, 0);
    assert(q * HIDDEN + sig == m) by (nonlinear_arith)
        requires
            m == e * HIDDEN + f,
            sig == if e == 0 {
                f
            } else {
                HIDDEN as nat + f
            },
            q == if e == 0 {
                0
            } else {
                (e - 1) as nat
            },
    ;
}

} // verus!
