//! A small ray-tracing core in exact fixed-point arithmetic: vectors, rays,
//! spheres, a scene that finds the nearest hit, diffuse and metal materials,
//! and a bounded light-transport evaluator.
pub mod fixed;
pub mod vec3;
pub mod ray;
pub mod material;
pub mod sphere;
pub mod scene;
pub mod camera;
pub mod sampling;
pub mod render;
pub mod accuracy;
