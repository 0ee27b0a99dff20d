//! Streaming log-template mining: lines are split into tokens and clustered
//! into templates whose variable parts are generalised to a wildcard.
use vstd::prelude::*;

pub use tokenizer::tokenize;

pub mod map;
pub mod object;
pub mod text;
pub mod tokenizer;

verus! {

/// Identifier of an inserted line, handed out in insertion order from zero.
pub type LineId = usize;

/// One token of a line or of a template.
pub type LcsToken = String;

/// A sequence of tokens.
pub type LcsSeq = Vec<LcsToken>;

/// The characters at which a line is split into tokens.
pub type LcsDelimiters = Vec<char>;

} // verus!
