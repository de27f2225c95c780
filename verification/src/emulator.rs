pub mod cpu;

pub use crate::memory;
