//! An emulator for a subset of the Intel 8048 (MCS-48) instruction set, with
//! its decoding and execution verified against a model of the machine.

pub mod cpu;
pub mod error;
pub mod laws;
pub mod parse;
pub mod text;

pub use cpu::I8048cpu;
pub use error::I8048Error;
