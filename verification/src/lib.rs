//! A verified interpreter for a minimal eight-instruction tape language.
//!
//! The crate has two halves: a translator that turns source text into an
//! instruction sequence with a precomputed jump table (`ir`), and a stepping
//! execution engine that runs such a sequence against a fixed-size byte tape
//! (`vm`), drawing input bytes from and handing output bytes to
//! caller-supplied ports (`ports`).

pub mod ir;
pub mod ports;
pub mod vm;

pub use ir::IR;
pub use vm::{VM, VMOptions};
