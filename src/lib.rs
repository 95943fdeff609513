//! An optimizing engine for the eight-command tape language.
//!
//! Source text is parsed into an abstract syntax tree ([`ast`]), run-length
//! encoded ([`rle`]), rewritten by the [`peephole`] pass into a tree with
//! super-instructions, and flattened into [`bytecode`] with resolved jumps.
//! Every form has an interpreter (see [`traits::Interpretable`]) whose
//! result is stated against an operational semantics over
//! [`state::Machine`]; [`rts`] holds the byte channels a run reads and
//! writes. The [`jit`] module holds the bounds analysis and the instruction
//! plan that a native back-end emits, and [`theorems`] relates the forms.

pub mod common;
pub mod state;
pub mod rts;
pub mod traits;
pub mod ast;
pub mod rle;
pub mod peephole;
pub mod bytecode;
pub mod jit;
pub mod theorems;
