//! Trace layouts, trace generators and constraint systems for a Keccak-f[1600]
//! STARK and a read/write memory argument, with the FRI folding and
//! Fiat-Shamir scheduling that bind them.
pub mod challenges;
pub mod circuit;
pub mod field;
pub mod fri;
pub mod keccak;
pub mod keccak_circuit;
pub mod keccak_registers;
pub mod keccak_stark;
pub mod memory;
pub mod memory_registers;
