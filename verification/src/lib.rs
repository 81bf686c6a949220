//! Design-time transmutability checking for C-ABI data types.
//!
//! A type is modelled as a tree of structs, arrays, tagged sums and untagged
//! unions.  Each tree is lowered into a linear program of byte-level
//! instructions with forward branches and joins; two such programs are then
//! co-traversed, pairing destination bytes with source bytes and recording,
//! per source instruction, whether every bit pattern the source permits is
//! also accepted by the destination.

pub mod ty;
pub mod inst;
pub mod program;
pub mod compiler;
pub mod engine;
pub mod derive;
