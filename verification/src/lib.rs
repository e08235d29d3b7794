//! The verified core of a small sphere ray caster.
//!
//! The numeric work of ray casting is done in single-precision arithmetic by
//! the program that uses this library. The library carries those numbers by
//! their bit patterns, compares them as IEEE 754 orders them, and holds the
//! decisions that ray casting is made of: which root of a sphere's equation
//! counts as a hit, which of many objects a ray meets first, in which order
//! the pixels of an image are produced, and how the image is written out.

pub mod scalar;
pub mod vec;
pub mod ray;
pub mod hitable;
pub mod image;
pub mod ppm;
