//! A Whitted-style ray tracer over fixed-point arithmetic.
//!
//! Every scalar quantity (coordinates, radii, colors, light intensities) is an
//! `i64` counting steps of 1/65536, so the whole pipeline — vector algebra,
//! ray–sphere intersection, nearest-hit resolution, recursive shading and the
//! camera driver — is ordinary integer arithmetic and is verified end to end:
//! each function's result equals a mathematical model function of its inputs,
//! and no operation overflows.

pub mod fx;
pub mod laws;
pub mod render;
pub mod scene;
pub mod trace;
pub mod vec3;
