//! Single-step interpreter core for a stack-based 256-bit bytecode virtual
//! machine: a 256-bit word type with wraparound arithmetic, the arithmetic,
//! bitwise and stack/memory/control instruction semantics, and a dispatcher
//! that performs one state transition per opcode.

pub mod arithmetic;
pub mod bitwise;
pub mod eval;
pub mod laws;
pub mod machine;
pub mod misc;
pub mod primitive_types;

pub use primitive_types::U256;
