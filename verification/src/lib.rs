//! The intersection and shading kernel of a path tracer, in exact integer
//! arithmetic.
//!
//! Geometry lives on an integer lattice; ray parameters, normals, surface
//! coordinates and colours are fractions counted in units of `1 / ONE` (see
//! [`fixed`]). Nothing is rounded silently: every contract states the exact
//! integer that comes out.
//!
//! * [`ray`], [`vec3`]: rays and the points along them.
//! * [`aabb`]: axis-aligned boxes, the slab test and the union of boxes.
//! * [`hitable`]: the protocol that every shape and aggregate follows, with
//!   the three laws that make aggregates correct, and the normal-flipping
//!   adapter.
//! * [`sphere`], [`plane`]: the shapes.
//! * [`world`]: the linear aggregate, which reports the globally nearest hit.
//! * [`bvh`]: the bounding volume hierarchy, its construction, and the proof
//!   that pruning never changes the answer.
//! * [`material`], [`integrator`]: the collaborators that answer for light,
//!   and the depth-bounded random walk that adds it up.
pub mod aabb;
pub mod bvh;
pub mod fixed;
pub mod hitable;
pub mod integrator;
pub mod material;
pub mod plane;
pub mod ray;
pub mod sorting;
pub mod sphere;
pub mod vec3;
pub mod world;
