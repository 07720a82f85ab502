//! Applies BPS binary patches: rebuilds a target file from a source file and
//! a patch, and checks the three CRC-32 checksums that the patch carries.
//!
//! A patch is a header, a stream of instructions and a footer of twelve
//! bytes. [`patch::apply_patch`] does the whole work; the other modules hold
//! its parts:
//!
//! - [`varint`]: the variable-length integers that sizes, control words and
//!   offsets are written in;
//! - [`header`]: the format tag, the declared sizes and the metadata;
//! - [`action`]: the four instructions and how a control word names one;
//! - [`executor`]: the interpreter that carries the instructions out;
//! - [`checksum`]: the footer and its comparison with the computed checksums;
//! - [`error`]: the ways in which all this can fail.
//!
//! Each function comes with a contract over a mathematical model of what it
//! does (`spec_` functions on sequences of bytes), and the `lemma_`
//! functions state what follows from those models: that encoding and
//! decoding are inverse to each other, that every number has one encoding
//! only, that the target only grows, that a changed footer is always
//! noticed, and more.

pub mod action;
pub mod checksum;
pub mod error;
pub mod executor;
pub mod header;
pub mod patch;
pub mod varint;
