//! A two-pass assembler for the MOS 6502 microprocessor.
//!
//! Source text is scanned into tokens, parsed into lines, laid out and
//! resolved against a symbol table by a first pass, and encoded into a
//! 64 KiB image by a second pass; images from separate source files can
//! be merged as long as their written ranges do not collide.

pub mod lexer;
pub mod parser;
pub mod pass_1;
pub mod pass_2;
pub mod text;
