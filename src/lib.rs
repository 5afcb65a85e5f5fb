//! Logical core of a tiled 8x8 button/LED surface made of four 4x4 modules:
//! coordinate mapping, frame buffer, key tracking and animation engines.

pub mod mapping;
pub mod lights;
pub mod display;
pub mod rollover;
pub mod animation;
