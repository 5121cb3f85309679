//! The verified core of a ray tracer: the scene graph, the decisions of ray
//! intersection, the closest-hit search, shadow tests and the render loop.
//!
//! A scene is a tree of placed nodes. Rendering casts one ray through each
//! pixel, finds the closest surface that the ray meets and asks for its
//! colour; a surface point is lit by a light unless something stands between
//! the two.
//!
//! The library does no arithmetic on vectors or scalars. Transforms are a
//! type parameter of the graph together with the operation that composes
//! them, and scalars arrive as order keys (see [`scalar`]) that the library
//! compares. What is proved is therefore everything that is decided: which
//! nodes are placed where, whether a ray meets a surface, which hit is the
//! closest, which lights reach a point and which colour each pixel gets.

pub mod camera_node;
pub mod error;
pub mod forest;
pub mod intersector;
pub mod light;
pub mod node_3d;
pub mod plane;
pub mod raster;
pub mod render_system;
pub mod scalar;
pub mod scene;
pub mod scene_items;
pub mod sphere_node;
