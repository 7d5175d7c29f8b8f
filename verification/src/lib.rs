//! The integer skeleton of a grid-based fluid simulation: which cells the
//! solver sweeps, which cells a brush stroke touches, where velocity arrows are
//! sampled, how the density grid and the arrows are laid out as index buffers,
//! and when a pointer drag stirs the fluid.

pub mod stepping;
pub mod cells;
pub mod sampling;
pub mod brush;
pub mod mesh;
pub mod pointer;
