//! Splitting a Bitcoin script at placeholder opcodes.
//!
//! A fillable script is a script with holes: every `OP_RESERVED` in it marks a
//! place where data is to be inserted later. This crate cuts a script at those
//! marks and hands back the pieces between them, each one serialized with
//! minimal data pushes.
//!
//! [`FillableScript::from`] takes a script's bytes, and
//! [`FillableScript::encode_and_segment`] takes instructions that were read
//! already. What the segments are is said by [`segment::segments`]; the proof
//! functions beside it say what follows: how many segments there are, that
//! each reads back as the instructions it was written from, without a
//! placeholder, and that the segments joined by placeholders are the script.

pub mod decode;
pub mod encode;
pub mod instruction;
pub mod parse;
pub mod push;
pub mod runs;
pub mod segment;

pub use decode::{decoded, DecodeError};
pub use instruction::{Instruction, InstructionView, OP_PLACEHOLDER};
pub use segment::FillableScript;
