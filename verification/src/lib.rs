//! Frame-sequence expression language for a render-submission tool.
//!
//! A frame-sequence expression such as `1,2,10-20,40-30@2,10-20@b` names the
//! integer frames a render run should process.  This crate parses that
//! notation, expands it into the concrete, duplicate-free list of frame
//! numbers, and substitutes frame numbers into `name.@.ext`-style file-name
//! templates.  Every function is specified and verified; the parser and the
//! expander are pure: text in, integers out.

pub mod chars;
pub mod expand;
pub mod frame_sequence_parser;
pub mod linked;
pub mod rdl;
pub mod render;
pub mod rdl_cli;
pub mod template;

use vstd::prelude::*;

verus! {

/// Why a frame-sequence expression could not be turned into frames.
#[derive(Debug, PartialEq, Eq, Structural)]
pub enum FrameSequenceError {
    /// The text does not follow the frame-sequence grammar.  `position` is
    /// the index (in characters) of the first comma-separated piece that is
    /// malformed.
    SyntaxError { position: usize },
    /// The text follows the grammar, but a literal in it does not fit the
    /// platform's signed integer width.
    ExpansionError,
}

} // verus!
