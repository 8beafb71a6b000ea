//! A small assembler: source text is read as characters, the characters are
//! cut into tokens, and the tokens are assembled into a flat binary image.

use std::ops::Range;
use vstd::prelude::*;

pub mod char_reader;
pub mod compiler;
pub mod errors;
pub mod number;
pub mod text;
pub mod tokenizer;

pub use char_reader::CharReader;
pub use compiler::compile;
pub use errors::{CompileError, Error, MultiResult};
pub use tokenizer::tokenize;

verus! {

/// Where a token or a diagnostic lies in the source: a range of character
/// offsets, a range of line indices and a range of column indices, each
/// half-open.
#[derive(Debug, Hash, PartialEq, Eq)]
pub struct Span {
    pub pos: Range<usize>,
    pub line: Range<usize>,
    pub col: Range<usize>,
}

impl Span {
    /// The span's character range lies inside a text of `len` characters.
    pub open spec fn fits(&self, len: nat) -> bool {
        self.pos.start <= self.pos.end <= len
    }

    /// The characters of `contents` that the span covers.
    pub open spec fn cut(&self, contents: Seq<char>) -> Seq<char> {
        contents.subrange(self.pos.start as int, self.pos.end as int)
    }

    /// The part of `contents` that the span covers, counted in characters.
    pub fn slice<'a>(&self, contents: &'a str) -> (r: &'a str)
        requires
            self.fits(contents@.len()),
        ensures
            r@ == self.cut(contents@),
    {
        contents.substring_char(self.pos.start, self.pos.end)
    }
}

impl Default for Span {
    fn default() -> (r: Span)
        ensures
            r == (Span { pos: 0..0, line: 0..0, col: 0..0 }),
    {
        Span { pos: 0..0, line: 0..0, col: 0..0 }
    }
}

impl Clone for Span {
    fn clone(&self) -> (r: Span)
        ensures
            r == *self,
    {
        Span {
            pos: self.pos.start..self.pos.end,
            line: self.line.start..self.line.end,
            col: self.col.start..self.col.end,
        }
    }
}

} // verus!
