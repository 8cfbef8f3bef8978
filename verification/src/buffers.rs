//! The flat buffers that the renderer reads a scene from.
//!
//! Every buffer is a run of 32-bit words: the patterns of binary32 numbers.
//! Counts and indices are converted to binary32 first. The words are laid
//! out in memory as the machine lays out a `u32`.

use vstd::prelude::*;
use vstd::endian::{endianness, Endian};
use crate::node::Node;
use crate::scalar::{Scalar, ONE};
use crate::scene::{Object, Scene, SceneView};

verus! {

/// Words in the record of one object.
pub const OBJECT_WORDS: usize = 17;

/// Words in the record of one node.
pub const NODE_WORDS: usize = 8;

/// Words in the scene parameters.
pub const SCENE_WORDS: usize = 16;

/// The four bytes of a word as they lie in memory: lowest byte first on a
/// little-endian machine, highest byte first on a big-endian one.
pub open spec fn word_bytes(word: u32) -> Seq<u8> {
    let b0 = (word % 0x100) as u8;
    let b1 = (word / 0x100 % 0x100) as u8;
    let b2 = (word / 0x1_0000 % 0x100) as u8;
    let b3 = (word / 0x100_0000) as u8;
    match endianness() {
        Endian::Little => seq![b0, b1, b2, b3],
        Endian::Big => seq![b3, b2, b1, b0],
    }
}

/// The bytes of a run of words as they lie in memory, one word after
/// another.
pub open spec fn memory_of(words: Seq<u32>) -> Seq<u8>
    decreases words.len(),
{
    if words.len() == 0 {
        Seq::empty()
    } else {
        memory_of(words.drop_last()) + word_bytes(words.last())
    }
}

/// The record of an object: the kind (zero for a sphere, one for a
/// triangle), centre and radius (zero for a triangle), the colour, and the
/// three corners (zero for a sphere).
pub open spec fn object_words(object: Object) -> Seq<u32> {
    match object {
        Object::Sphere(sphere) => seq![
            0u32,
            sphere.center.0.bits,
            sphere.center.1.bits,
            sphere.center.2.bits,
            sphere.radius.bits,
            sphere.color.0.bits,
            sphere.color.1.bits,
            sphere.color.2.bits,
            0u32,
            0u32,
            0u32,
            0u32,
            0u32,
            0u32,
            0u32,
            0u32,
            0u32,
        ],
        Object::Triangle(triangle) => seq![
            ONE,
            0u32,
            0u32,
            0u32,
            0u32,
            triangle.color.0.bits,
            triangle.color.1.bits,
            triangle.color.2.bits,
            triangle.corners[0].0.bits,
            triangle.corners[0].1.bits,
            triangle.corners[0].2.bits,
            triangle.corners[1].0.bits,
            triangle.corners[1].1.bits,
            triangle.corners[1].2.bits,
            triangle.corners[2].0.bits,
            triangle.corners[2].1.bits,
            triangle.corners[2].2.bits,
        ],
    }
}

/// The record of a node: the lower corner, the link, the upper corner, the
/// count; link and count as binary32 numbers.
pub open spec fn node_words(node: Node) -> Seq<u32> {
    seq![
        node.min_corner.0.bits,
        node.min_corner.1.bits,
        node.min_corner.2.bits,
        Scalar::spec_from_int(node.left_child as int).bits,
        node.max_corner.0.bits,
        node.max_corner.1.bits,
        node.max_corner.2.bits,
        Scalar::spec_from_int(node.object_count as int).bits,
    ]
}

/// The records of the first `n` objects, one after another, as bytes.
pub open spec fn object_bytes(objects: Seq<Object>, n: int) -> Seq<u8>
    decreases n,
{
    if n <= 0 {
        Seq::empty()
    } else {
        object_bytes(objects, n - 1) + memory_of(object_words(objects[n - 1]))
    }
}

/// The records of the first `n` nodes, one after another, as bytes.
pub open spec fn node_bytes(nodes: Seq<Node>, n: int) -> Seq<u8>
    decreases n,
{
    if n <= 0 {
        Seq::empty()
    } else {
        node_bytes(nodes, n - 1) + memory_of(node_words(nodes[n - 1]))
    }
}

/// The first `n` entries of the index array as binary32 numbers, one after
/// another, as bytes.
pub open spec fn index_bytes(indices: Seq<usize>, n: int) -> Seq<u8>
    decreases n,
{
    if n <= 0 {
        Seq::empty()
    } else {
        index_bytes(indices, n - 1) + memory_of(
            seq![Scalar::spec_from_int(indices[n - 1] as int).bits],
        )
    }
}

impl SceneView {
    /// The scene parameters: position, forward, right and up of the camera,
    /// four words each. The fourth word is zero after position and forward,
    /// the number of bounces after right, the number of objects in the
    /// index array after up.
    pub open spec fn scene_words(self) -> Seq<u32> {
        seq![
            self.camera.position.0.bits,
            self.camera.position.1.bits,
            self.camera.position.2.bits,
            0u32,
            self.camera.forwards.0.bits,
            self.camera.forwards.1.bits,
            self.camera.forwards.2.bits,
            0u32,
            self.camera.right.0.bits,
            self.camera.right.1.bits,
            self.camera.right.2.bits,
            Scalar::spec_from_int(self.max_bounces as int).bits,
            self.camera.up.0.bits,
            self.camera.up.1.bits,
            self.camera.up.2.bits,
            Scalar::spec_from_int(self.object_indices.len() as int).bits,
        ]
    }

    /// The buffer of scene parameters.
    pub open spec fn scene_data(self) -> Seq<u8> {
        memory_of(self.scene_words())
    }

    /// The buffer of objects: one record for each, in their order.
    pub open spec fn object_data(self) -> Seq<u8> {
        object_bytes(self.objects, self.objects.len() as int)
    }

    /// The buffer of nodes: one record for each node in use, in their order.
    pub open spec fn node_data(self) -> Seq<u8> {
        node_bytes(self.nodes, self.nodes_used)
    }

    /// The buffer of the index array: one word for each entry.
    pub open spec fn object_index_data(self) -> Seq<u8> {
        index_bytes(self.object_indices, self.object_indices.len() as int)
    }
}

/// `bytemuck::cast_slice` from `u32` to `u8`, copied into a vector. The cast
/// cannot fail: a byte needs no alignment and any number of words is a whole
/// number of bytes. It hands out the memory of the words as it stands, so
/// each word gives its four bytes in the byte order of the machine.
#[verifier::external_body]
fn words_to_bytes(words: &Vec<u32>) -> (bytes: Vec<u8>)
    ensures
        bytes@ == memory_of(words@),
{
    bytemuck::cast_slice::<u32, u8>(words.as_slice()).to_vec()
}

impl Scene {
    /// The scene parameters as bytes.
    pub fn flatten_scene_data(&self) -> (data: Vec<u8>)
        ensures
            data@ == self@.scene_data(),
    {
        let mut words: Vec<u32> = Vec::with_capacity(SCENE_WORDS);
        words.push(self.camera.position.0.to_bits());
        words.push(self.camera.position.1.to_bits());
        words.push(self.camera.position.2.to_bits());
        words.push(0);
        words.push(self.camera.forwards.0.to_bits());
        words.push(self.camera.forwards.1.to_bits());
        words.push(self.camera.forwards.2.to_bits());
        words.push(0);
        words.push(self.camera.right.0.to_bits());
        words.push(self.camera.right.1.to_bits());
        words.push(self.camera.right.2.to_bits());
        words.push(Scalar::from_usize(self.max_bounces).to_bits());
        words.push(self.camera.up.0.to_bits());
        words.push(self.camera.up.1.to_bits());
        words.push(self.camera.up.2.to_bits());
        words.push(Scalar::from_usize(self.object_indices.len()).to_bits());
        assert(words@ =~= self@.scene_words());
        words_to_bytes(&words)
    }

    /// The objects as bytes, one record of seventeen words for each.
    pub fn flatten_object_data(&self) -> (data: Vec<u8>)
        ensures
            data@ == self@.object_data(),
    {
        let mut data: Vec<u8> = Vec::new();
        let mut k: usize = 0;
        while k < self.objects.len()
            invariant
                k <= self.objects.len(),
                data@ == object_bytes(self.objects@, k as int),
            decreases self.objects.len() - k,
        {
            let mut words: Vec<u32> = Vec::with_capacity(OBJECT_WORDS);
            match &self.objects[k] {
                Object::Sphere(sphere) => {
                    words.push(0);
                    words.push(sphere.center.0.to_bits());
                    words.push(sphere.center.1.to_bits());
                    words.push(sphere.center.2.to_bits());
                    words.push(sphere.radius.to_bits());
                    words.push(sphere.color.0.to_bits());
                    words.push(sphere.color.1.to_bits());
                    words.push(sphere.color.2.to_bits());
                    words.push(0);
                    words.push(0);
                    words.push(0);
                    words.push(0);
                    words.push(0);
                    words.push(0);
                    words.push(0);
                    words.push(0);
                    words.push(0);
                },
                Object::Triangle(triangle) => {
                    words.push(ONE);
                    words.push(0);
                    words.push(0);
                    words.push(0);
                    words.push(0);
                    words.push(triangle.color.0.to_bits());
                    words.push(triangle.color.1.to_bits());
                    words.push(triangle.color.2.to_bits());
                    words.push(triangle.corners[0].0.to_bits());
                    words.push(triangle.corners[0].1.to_bits());
                    words.push(triangle.corners[0].2.to_bits());
                    words.push(triangle.corners[1].0.to_bits());
                    words.push(triangle.corners[1].1.to_bits());
                    words.push(triangle.corners[1].2.to_bits());
                    words.push(triangle.corners[2].0.to_bits());
                    words.push(triangle.corners[2].1.to_bits());
                    words.push(triangle.corners[2].2.to_bits());
                },
            }
            assert(words@ =~= object_words(self.objects[k as int]));
            let mut bytes = words_to_bytes(&words);
            data.append(&mut bytes);
            k = k + 1;
        }
        data
    }

    /// The nodes in use as bytes, one record of eight words for each.
    pub fn flatten_node_data(&self) -> (data: Vec<u8>)
        requires
            self.nodes_used <= self.nodes.len(),
        ensures
            data@ == self@.node_data(),
    {
        let mut data: Vec<u8> = Vec::new();
        let mut i: usize = 0;
        while i < self.nodes_used
            invariant
                i <= self.nodes_used <= self.nodes.len(),
                data@ == node_bytes(self.nodes@, i as int),
            decreases self.nodes_used - i,
        {
            let node = &self.nodes[i];
            let mut words: Vec<u32> = Vec::with_capacity(NODE_WORDS);
            words.push(node.min_corner.0.to_bits());
            words.push(node.min_corner.1.to_bits());
            words.push(node.min_corner.2.to_bits());
            words.push(Scalar::from_i32(node.left_child).to_bits());
            words.push(node.max_corner.0.to_bits());
            words.push(node.max_corner.1.to_bits());
            words.push(node.max_corner.2.to_bits());
            words.push(Scalar::from_usize(node.object_count).to_bits());
            assert(words@ =~= node_words(self.nodes[i as int]));
            let mut bytes = words_to_bytes(&words);
            data.append(&mut bytes);
            i = i + 1;
        }
        data
    }

    /// The index array as bytes, one word for each entry.
    pub fn flatten_object_index_data(&self) -> (data: Vec<u8>)
        ensures
            data@ == self@.object_index_data(),
    {
        let mut data: Vec<u8> = Vec::new();
        let mut k: usize = 0;
        while k < self.object_indices.len()
            invariant
                k <= self.object_indices.len(),
                data@ == index_bytes(self.object_indices@, k as int),
            decreases self.object_indices.len() - k,
        {
            let mut words: Vec<u32> = Vec::with_capacity(1);
            words.push(Scalar::from_usize(self.object_indices[k]).to_bits());
            assert(words@ =~= seq![Scalar::spec_from_int(self.object_indices[k as int] as int).bits]);
            let mut bytes = words_to_bytes(&words);
            data.append(&mut bytes);
            k = k + 1;
        }
        data
    }
}

} // verus!
