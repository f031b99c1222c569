//! A deterministic network-topology renderer: a seeded graph-to-3D layout
//! followed by a CPU path tracer over sphere primitives.
//!
//! All geometry and radiometry is carried in Q16.16 fixed-point integers so
//! that every stage of the pipeline is an exact mathematical function of its
//! inputs: the same graph and seed always give the same scene, and the same
//! scene and settings always give the same image, bit for bit.

pub mod bvh;
pub mod bytes;
pub mod camera;
pub mod fixed;
pub mod geom;
pub mod integrator;
pub mod layout;
pub mod model;
pub mod parser;
pub mod rng;
pub mod runner;
pub mod scene;
pub mod vec3;
