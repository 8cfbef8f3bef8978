//! The scene: objects, the hierarchy built over them, and its flat buffers.

use vstd::prelude::*;
use crate::camera::Camera;
use crate::hierarchy::{
    built, first_leaf, fresh_leaf, grown, grown_over, parted, parted_at, regrown, split_at,
    subdivided, Run,
};
use crate::laws::law_built_is_built;
use crate::tree_lemmas::{
    lemma_first_tree, lemma_grown_over_links, lemma_parted, lemma_rearranged_tree,
    lemma_room, lemma_split_at_is_split, lemma_split_frame, lemma_split_tree, lemma_subdivided,
    lemma_tree_leaf, lemma_tree_sized, reindexed, runs_after,
};
use crate::node::Node;
use crate::obj_mesh::ObjMesh;
use crate::scalar::{Scalar, TWO};
use crate::sphere::Sphere;
use crate::triangle::Triangle;

verus! {

/// What a scene is made of.
#[derive(Debug, Clone, Copy)]
pub enum Object {
    Sphere(Sphere),
    Triangle(Triangle),
}

impl Object {
    /// Where the object counts as standing when a node is split: a sphere
    /// at its centre, a triangle at its stored centroid.
    pub open spec fn spec_position(self, axis: usize) -> Scalar {
        match self {
            Object::Sphere(sphere) => sphere.center.spec_axis(axis),
            Object::Triangle(triangle) => triangle.centroid.spec_axis(axis),
        }
    }

    /// The least box around the object alone: the empty box grown by it.
    pub open spec fn bounds(self) -> Node {
        grown(Node::empty(), self)
    }
}

/// A scene with the hierarchy over its objects. The meshes are kept beside
/// the objects; their triangles become objects when the scene is made.
pub struct Scene {
    pub objects: Vec<Object>,
    pub camera: Camera,
    pub nodes: Vec<Node>,
    pub nodes_used: usize,
    pub object_indices: Vec<usize>,
    pub max_bounces: usize,
    pub object_meshes: Vec<ObjMesh>,
}

/// The triangles of the first `n` of `triangles`, as objects.
pub open spec fn triangle_objects(triangles: Seq<Triangle>, n: int) -> Seq<Object>
    decreases n,
{
    if n <= 0 {
        Seq::empty()
    } else {
        triangle_objects(triangles, n - 1).push(Object::Triangle(triangles[n - 1]))
    }
}

/// The triangles of the first `n` of `meshes`, mesh after mesh, as objects.
pub open spec fn mesh_objects(meshes: Seq<ObjMesh>, n: int) -> Seq<Object>
    decreases n,
{
    if n <= 0 {
        Seq::empty()
    } else {
        mesh_objects(meshes, n - 1) + triangle_objects(
            meshes[n - 1].triangles@,
            meshes[n - 1].triangles@.len() as int,
        )
    }
}

/// What a scene holds for the hierarchy and for the renderer, as plain
/// mathematical values.
pub struct SceneView {
    pub objects: Seq<Object>,
    pub camera: Camera,
    pub nodes: Seq<Node>,
    pub nodes_used: int,
    pub object_indices: Seq<usize>,
    pub max_bounces: usize,
    pub object_meshes: Seq<ObjMesh>,
}

impl View for Scene {
    type V = SceneView;

    open spec fn view(&self) -> SceneView {
        SceneView {
            objects: self.objects@,
            camera: self.camera,
            nodes: self.nodes@,
            nodes_used: self.nodes_used as int,
            object_indices: self.object_indices@,
            max_bounces: self.max_bounces,
            object_meshes: self.object_meshes@,
        }
    }
}

impl Scene {
    /// Grows the box of a node by every object of its run.
    pub fn update_bounds(&mut self, node_index: usize)
        requires
            node_index < old(self).nodes.len(),
            old(self)@.run_in_range(old(self).nodes[node_index as int]),
            old(self)@.indices_in_range(),
        ensures
            final(self)@ == old(self)@.bounded(node_index as int),
    {
        let mut node = self.nodes[node_index];
        let ghost first = node;
        assert(self.object_indices.len() == self.object_indices@.len());
        let start: usize = node.left_child as usize;
        let end: usize = start + node.object_count;
        let mut k: usize = start;
        while k < end
            invariant
                start <= k <= end,
                end <= self.object_indices.len(),
                self@.indices_in_range(),
                *self == *old(self),
                node == grown_over(
                    first,
                    self.objects@,
                    self.object_indices@,
                    start as int,
                    k as int,
                ),
            decreases end - k,
        {
            let i: usize = self.object_indices[k];
            assert(i == self@.object_indices[k as int]);
            match &self.objects[i] {
                Object::Sphere(sphere) => {
                    node.grow(
                        sphere.center.sub_scalar(sphere.radius),
                        sphere.center.add_scalar(sphere.radius),
                    );
                },
                Object::Triangle(triangle) => {
                    node.grow(triangle.corners[0], triangle.corners[0]);
                    node.grow(triangle.corners[1], triangle.corners[1]);
                    node.grow(triangle.corners[2], triangle.corners[2]);
                },
            }
            k = k + 1;
        }
        self.nodes.set(node_index, node);
    }

    /// The axis on which the box of a node reaches farthest; of axes that
    /// reach equally far, the first.
    pub fn longest_axis(&self, node_index: usize) -> (axis: usize)
        requires
            node_index < self.nodes.len(),
        ensures
            axis == self.nodes[node_index as int].widest_axis(),
    {
        proof {
            reveal(Node::widest_axis);
        }
        let node = &self.nodes[node_index];
        let extent = node.max_corner.sub(node.min_corner);
        if extent.0.ge(extent.1) && extent.0.ge(extent.2) {
            0
        } else if extent.1.ge(extent.2) {
            1
        } else {
            2
        }
    }

    /// Where an object counts as standing on an axis.
    pub fn object_position(&self, object: &Object, axis: usize) -> (r: Scalar)
        ensures
            r == object.spec_position(axis),
    {
        match object {
            Object::Sphere(sphere) => sphere.center.axis(axis),
            Object::Triangle(triangle) => triangle.centroid.axis(axis),
        }
    }

    /// Sorts the run of a node into the objects that stand below the middle
    /// of its box on `axis` and the rest. Gives back how many stand below,
    /// and the entry at which the rest begins.
    pub fn median_split(&mut self, node_index: usize, axis: usize) -> (r: (usize, usize))
        requires
            node_index < old(self).nodes.len(),
            old(self)@.run_in_range(old(self).nodes[node_index as int]),
            old(self)@.indices_in_range(),
        ensures
            final(self)@ == old(self)@.sorted_on(node_index as int, axis),
            final(self)@.indices_in_range(),
            r.1 == old(self)@.sorted_at_on(node_index as int, axis),
            r.1 == old(self).nodes[node_index as int].left_child + r.0,
            r.0 <= old(self).nodes[node_index as int].object_count,
    {
        proof {
            reveal(Node::middle);
        }
        let node = self.nodes[node_index];
        let extent = node.max_corner.sub(node.min_corner);
        let two = Scalar::from_bits(TWO);
        let split_pos = if axis == 0 {
            node.min_corner.0.add(extent.0.div(two))
        } else if axis == 1 {
            node.min_corner.1.add(extent.1.div(two))
        } else {
            node.min_corner.2.add(extent.2.div(two))
        };
        assert(self.object_indices.len() == self.object_indices@.len());
        let start: usize = node.left_child as usize;
        let end: usize = start + node.object_count;
        let mut i: usize = start;
        let mut j: usize = end;
        while i < j
            invariant
                start <= i <= j <= end,
                end <= self.object_indices.len(),
                self@ == (SceneView { object_indices: self.object_indices@, ..old(self)@ }),
                self@.indices_in_range(),
                split_pos == node.middle(axis),
                parted(self.objects@, self.object_indices@, axis, split_pos, i as int, j as int)
                    == parted(
                    self.objects@,
                    old(self).object_indices@,
                    axis,
                    split_pos,
                    start as int,
                    end as int,
                ),
                parted_at(self.objects@, self.object_indices@, axis, split_pos, i as int, j as int)
                    == parted_at(
                    self.objects@,
                    old(self).object_indices@,
                    axis,
                    split_pos,
                    start as int,
                    end as int,
                ),
            decreases j - i,
        {
            let at_i: usize = self.object_indices[i];
            assert(at_i == self@.object_indices[i as int]);
            if self.object_position(&self.objects[at_i], axis).lt(split_pos) {
                i = i + 1;
            } else {
                j = j - 1;
                let at_j: usize = self.object_indices[j];
                assert(at_j == self@.object_indices[j as int]);
                self.object_indices.set(i, at_j);
                self.object_indices.set(j, at_i);
            }
        }
        (i - start, i)
    }

    /// Makes the leaf at `node_index` an inner node over two new leaves: the
    /// first `split` entries of its run go to the first, the rest to the
    /// second, and each new leaf gets its box.
    fn split_leaf(&mut self, node_index: usize, split: usize, Ghost(runs): Ghost<Seq<Run>>)
        requires
            old(self)@.tree_inv(runs),
            node_index < old(self).nodes_used,
            0 < split < old(self).nodes[node_index as int].object_count,
            old(self).nodes_used + 2 <= old(self).nodes.len(),
        ensures
            final(self)@ == split_at(
                old(self)@,
                node_index as int,
                old(self).nodes[node_index as int].left_child + split,
            ),
    {
        proof {
            lemma_tree_leaf(self@, runs, node_index as int);
        }
        let node = self.nodes[node_index];
        let i: usize = node.left_child as usize + split;
        let left_child_index: usize = self.nodes_used;
        self.nodes_used = self.nodes_used + 1;
        let right_child_index: usize = self.nodes_used;
        self.nodes_used = self.nodes_used + 1;

        let mut left = self.nodes[left_child_index];
        left.left_child = node.left_child;
        left.object_count = split;
        self.nodes.set(left_child_index, left);

        let mut right = self.nodes[right_child_index];
        right.left_child = i as i32;
        right.object_count = node.object_count - split;
        self.nodes.set(right_child_index, right);

        let mut parent = node;
        parent.left_child = left_child_index as i32;
        parent.object_count = 0;
        self.nodes.set(node_index, parent);

        proof {
            assert(left == fresh_leaf(node.run_start(), i as int));
            assert(right == fresh_leaf(i as int, node.run_end()));
        }
        self.update_bounds(left_child_index);
        self.update_bounds(right_child_index);
        proof {
            let want = split_at(old(self)@, node_index as int, i as int);
            assert(self.nodes@ =~= want.nodes);
        }
    }

    /// Splits the leaf at `node_index`, and the leaves that come of it, for
    /// as long as a leaf holds more than two objects and the middle of its
    /// box parts them. New nodes take the next free places, two at a time.
    /// An inner node is left as it is.
    pub fn subdivide(&mut self, node_index: usize)
        requires
            old(self)@.is_hierarchy(),
            node_index < old(self).nodes_used,
        ensures
            final(self)@ == subdivided(
                old(self)@,
                node_index as int,
                old(self).nodes[node_index as int].object_count as nat,
            ),
            final(self)@.is_hierarchy(),
            old(self).nodes[node_index as int].object_count > 0 ==> regrown(
                old(self)@,
                final(self)@,
                node_index as int,
            ),
            old(self).nodes[node_index as int].object_count == 0 ==> final(self)@ == old(self)@,
        decreases old(self).nodes[node_index as int].object_count,
    {
        let ghost runs = choose|runs: Seq<Run>| #[trigger] self@.tree_inv(runs);
        let ghost s0 = self@;
        proof {
            reveal(subdivided);
            lemma_tree_sized(s0, runs);
        }
        let node = self.nodes[node_index];
        proof {
            if node.object_count > 0 {
                lemma_tree_leaf(s0, runs, node_index as int);
                lemma_room(s0, runs, node_index as int);
                lemma_subdivided(s0, runs, node_index as int);
            }
        }
        if node.object_count <= 2 {
            return ;
        }
        let axis = self.longest_axis(node_index);
        let (split, i) = self.median_split(node_index, axis);
        let ghost s1 = self@;
        proof {
            lemma_parted(s0, axis, node.middle(axis), node.run_start(), node.run_end());
            assert(s1 == reindexed(s0, s1.object_indices));
            lemma_rearranged_tree(s0, s1, runs, node_index as int);
            lemma_tree_leaf(s1, runs, node_index as int);
        }
        if split == 0 || split == node.object_count {
            return ;
        }
        let ghost runs2 = runs_after(runs, node_index as int, i as int);
        let left_child_index: usize = self.nodes_used;
        let right_child_index: usize = left_child_index + 1;
        self.split_leaf(node_index, split, Ghost(runs));
        let ghost s2 = self@;
        proof {
            lemma_split_at_is_split(s1, runs, node_index as int, i as int);
            lemma_split_frame(s1, s2, runs, node_index as int, i as int);
            lemma_split_tree(s1, s2, runs, node_index as int, i as int);
            lemma_tree_leaf(s2, runs2, left_child_index as int);
            lemma_tree_leaf(s2, runs2, right_child_index as int);
        }
        self.subdivide(left_child_index);
        self.subdivide(right_child_index);
    }

    /// Builds the hierarchy over the objects of the scene: the index array
    /// is set to name every object in turn, one leaf is made over all of
    /// them, and leaves are split for as long as they can be.
    pub fn build_bvh(&mut self)
        requires
            1 <= old(self).objects.len(),
            2 * old(self).objects.len() - 1 <= i32::MAX,
        ensures
            final(self)@ == built(
                old(self).objects@,
                old(self).camera,
                old(self).max_bounces,
                old(self).object_meshes@,
            ),
            final(self)@.is_built(),
    {
        let count: usize = self.objects.len();
        let mut indices: Vec<usize> = Vec::with_capacity(count);
        let mut k: usize = 0;
        while k < count
            invariant
                k <= count,
                indices.len() == k,
                forall|j: int| 0 <= j < k ==> #[trigger] indices[j] == j,
            decreases count - k,
        {
            indices.push(k);
            k = k + 1;
        }
        self.object_indices = indices;

        let capacity: usize = 2 * count - 1;
        let mut nodes: Vec<Node> = Vec::with_capacity(capacity);
        let mut j: usize = 0;
        while j < capacity
            invariant
                j <= capacity,
                nodes.len() == j,
                forall|i: int| 0 <= i < j ==> #[trigger] nodes[i] == Node::empty(),
            decreases capacity - j,
        {
            nodes.push(Node::default());
            j = j + 1;
        }
        self.nodes = nodes;

        let root_index: usize = 0;
        let mut root = self.nodes[root_index];
        root.left_child = 0;
        root.object_count = count;
        self.nodes.set(root_index, root);
        self.nodes_used = 1;

        proof {
            assert(root == fresh_leaf(0, count as int));
            assert(self@.indices_in_range());
        }
        self.update_bounds(root_index);
        proof {
            reveal(first_leaf);
            law_built_is_built(
                old(self).objects@,
                old(self).camera,
                old(self).max_bounces,
                old(self).object_meshes@,
            );
            let first = first_leaf(
                old(self).objects@,
                old(self).camera,
                old(self).max_bounces,
                old(self).object_meshes@,
            );
            assert(self.object_indices@ =~= first.object_indices);
            assert(self.nodes@ =~= first.nodes);
            assert(self@ == first);
            lemma_first_tree(self@);
            lemma_grown_over_links(
                fresh_leaf(0, count as int),
                self.objects@,
                self.object_indices@,
                0,
                count as int,
            );
        }
        self.subdivide(root_index);
    }

    /// Adds the triangles of the meshes to the objects, mesh after mesh,
    /// and builds the hierarchy over all objects.
    pub fn make_scene(&mut self)
        requires
            1 <= old(self).objects.len() + mesh_objects(
                old(self).object_meshes@,
                old(self).object_meshes@.len() as int,
            ).len(),
            2 * (old(self).objects.len() + mesh_objects(
                old(self).object_meshes@,
                old(self).object_meshes@.len() as int,
            ).len()) - 1 <= i32::MAX,
        ensures
            final(self)@ == built(
                old(self).objects@ + mesh_objects(
                    old(self).object_meshes@,
                    old(self).object_meshes@.len() as int,
                ),
                old(self).camera,
                old(self).max_bounces,
                old(self).object_meshes@,
            ),
            final(self)@.is_built(),
    {
        let mut m: usize = 0;
        while m < self.object_meshes.len()
            invariant
                m <= self.object_meshes.len(),
                self.object_meshes@ == old(self).object_meshes@,
                self.camera == old(self).camera,
                self.max_bounces == old(self).max_bounces,
                self.objects@ == old(self).objects@ + mesh_objects(self.object_meshes@, m as int),
            decreases self.object_meshes.len() - m,
        {
            let mut t: usize = 0;
            let ghost before = self.objects@;
            while t < self.object_meshes[m].triangles.len()
                invariant
                    m < self.object_meshes.len(),
                    t <= self.object_meshes[m as int].triangles.len(),
                    self.object_meshes@ == old(self).object_meshes@,
                    self.camera == old(self).camera,
                    self.max_bounces == old(self).max_bounces,
                    self.objects@ == before + triangle_objects(
                        self.object_meshes[m as int].triangles@,
                        t as int,
                    ),
                decreases self.object_meshes[m as int].triangles.len() - t,
            {
                let triangle = self.object_meshes[m].triangles[t];
                self.objects.push(Object::Triangle(triangle));
                t = t + 1;
            }
            m = m + 1;
        }
        self.build_bvh();
    }

    /// A scene of the given objects and of the triangles of the given
    /// meshes, with the hierarchy built over them.
    pub fn new(
        objects: Vec<Object>,
        camera: Camera,
        max_bounces: usize,
        object_meshes: Vec<ObjMesh>,
    ) -> (scene: Scene)
        requires
            1 <= objects.len() + mesh_objects(object_meshes@, object_meshes@.len() as int).len(),
            2 * (objects.len() + mesh_objects(object_meshes@, object_meshes@.len() as int).len())
                - 1 <= i32::MAX,
        ensures
            scene@ == built(
                objects@ + mesh_objects(object_meshes@, object_meshes@.len() as int),
                camera,
                max_bounces,
                object_meshes@,
            ),
            scene@.is_built(),
    {
        let mut scene = Scene {
            objects,
            camera,
            nodes: Vec::new(),
            nodes_used: 0,
            object_indices: Vec::new(),
            max_bounces,
            object_meshes,
        };
        scene.make_scene();
        scene
    }
}

} // verus!
