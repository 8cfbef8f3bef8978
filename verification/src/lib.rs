//! A bounding-volume hierarchy over spheres and triangles, and the flat
//! buffers that a GPU ray tracer reads it from.
//!
//! Numbers are IEEE 754 binary32 numbers held as their bit patterns
//! ([`scalar`]); their arithmetic is integer arithmetic, proved to round as
//! the standard asks ([`rounding`]). A [`Scene`] owns the objects, the index
//! array and the nodes. [`hierarchy`] says what a hierarchy is and which one
//! building gives, [`tree_lemmas`] why building gives one, and [`laws`] what
//! follows for every scene that was built. [`buffers`] lays a scene out as
//! bytes. [`camera`] and [`controls`] move the point of view.

pub mod buffers;
pub mod camera;
pub mod controls;
pub mod hierarchy;
pub mod laws;
pub mod node;
pub mod obj_mesh;
pub mod rounding;
pub mod scalar;
pub mod scene;
pub mod sphere;
pub mod square;
pub mod tree_lemmas;
pub mod triangle;
pub mod vector;

pub use camera::{Angles, Basis, Camera};
pub use controls::{Key, Motion};
pub use node::Node;
pub use obj_mesh::ObjMesh;
pub use scalar::Scalar;
pub use scene::{Object, Scene, SceneView};
pub use sphere::Sphere;
pub use square::{Size, Square};
pub use triangle::Triangle;
pub use vector::{Vec2, Vec3};
