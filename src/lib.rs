//! The heap allocator of a small UEFI-booted kernel, with the framebuffer drawing
//! and bitmap font it starts up with.

pub mod allocator;
pub mod font;
pub mod graphics;
pub mod uefi;
