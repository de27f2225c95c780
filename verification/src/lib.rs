pub mod memory;
pub mod emulator;
pub mod cpu;
pub mod text;
pub mod encoding;
pub mod labels;
pub mod assembler;
pub mod compiler;
