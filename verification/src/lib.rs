//! A disassembler for a subset of x86-64 machine code given as a string of
//! hexadecimal digits.
pub mod decode;
pub mod hex;
pub mod laws;
pub mod naming;
pub mod operand;
pub mod reader;

pub use reader::Reader;
