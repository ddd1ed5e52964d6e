//! A ray caster for scenes of spheres under one point light.
//!
//! Every number is an IEEE-754 double held as its bit pattern, and the
//! arithmetic of the standard is carried out on the patterns, so that the
//! whole pipeline, from a rounded sum to the framebuffer, is plain integer
//! code that Verus checks.
pub mod cast;
pub mod data;
pub mod image;
pub mod number;
