//! The diagnostics that lexing and assembling hand to their caller.

use crate::char_reader::{lemma_line_starts, line_starts};
use crate::Span;
use vstd::prelude::*;

verus! {

/// Why a run as a whole gave up.
#[derive(Debug)]
pub enum Error {
    /// The byte source failed, or its bytes are no text.
    IO(std::io::Error),
    /// The text holds what is no token.
    Tokenizer,
    /// The program has errors.
    Compile,
}

impl From<std::io::Error> for Error {
    fn from(e: std::io::Error) -> (r: Error) {
        Error::IO(e)
    }
}

impl vstd::std_specs::convert::FromSpecImpl<std::io::Error> for Error {
    open spec fn obeys_from_spec() -> bool {
        true
    }

    open spec fn from_spec(e: std::io::Error) -> Error {
        Error::IO(e)
    }
}

/// A result that carries every diagnostic collected, not the first alone.
#[derive(Debug)]
pub enum MultiResult<T> {
    /// The diagnostics, in the order in which they were found.
    Failed(Vec<CompileError>),
    /// The outcome, where there was nothing to report.
    Done(T),
}

/// One diagnostic: what is wrong, and where.
#[derive(Debug)]
pub struct CompileError {
    pub message: String,
    pub span: Span,
}

/// A diagnostic as a value: the characters of its message and its span.
pub struct Diagnostic {
    pub message: Seq<char>,
    pub span: Span,
}

impl DeepView for CompileError {
    type V = Diagnostic;

    open spec fn deep_view(&self) -> Diagnostic {
        Diagnostic { message: self.message@, span: self.span }
    }
}

/// A result with its text and its diagnostic as values.
pub open spec fn lift_text(r: Result<&str, CompileError>) -> Result<Seq<char>, Diagnostic> {
    match r {
        Ok(text) => Ok(text@),
        Err(e) => Err(e.deep_view()),
    }
}

/// A name, if there is one, as a value.
pub open spec fn name_of(r: Option<String>) -> Option<Seq<char>> {
    match r {
        Some(name) => Some(name@),
        None => None,
    }
}

/// A result with its diagnostic as a value.
pub open spec fn lift<T>(r: Result<T, CompileError>) -> Result<T, Diagnostic> {
    match r {
        Ok(v) => Ok(v),
        Err(e) => Err(e.deep_view()),
    }
}

/// Where a line of a text ends, the line feed left out, given the table of
/// the offsets at which the lines start: before the start of the next line,
/// or at the end of the text.
pub open spec fn line_end(text: Seq<char>, line: int, lines: Seq<usize>) -> int {
    if line + 1 < lines.len() {
        lines[line + 1] - 1
    } else if text.len() > 0 && text.last() == '\n' {
        text.len() - 1
    } else {
        text.len() as int
    }
}

/// The table has the line, and the line's start and end lie in the text,
/// in this order.
pub open spec fn has_line(text: Seq<char>, line: int, lines: Seq<usize>) -> bool {
    0 <= line < lines.len() && lines[line] <= line_end(text, line, lines) <= text.len()
}

/// Every line of the line table of a text is a line of that text.
pub proof fn lemma_line_table_has_lines(text: Seq<char>)
    requires
        text.len() <= usize::MAX,
    ensures
        forall|line: int|
            0 <= line < line_starts(text).len() ==> #[trigger] has_line(
                text,
                line,
                line_starts(text),
            ),
{
    lemma_line_starts(text);
}

/// The characters of a line of a text, without its line feed.
pub fn get_line<'a>(text: &'a str, line: usize, lines: &[usize]) -> (r: &'a str)
    requires
        has_line(text@, line as int, lines@),
    ensures
        r@ == text@.subrange(lines@[line as int] as int, line_end(text@, line as int, lines@)),
{
    let start_idx = lines[line];
    let len = text.unicode_len();
    let end_idx = if line < lines.len() - 1 {
        lines[line + 1] - 1
    } else if len > 0 && text.get_char(len - 1) == '\n' {
        len - 1
    } else {
        len
    };
    text.substring_char(start_idx, end_idx)
}

impl Clone for CompileError {
    fn clone(&self) -> (r: CompileError)
        ensures
            r.deep_view() == self.deep_view(),
    {
        CompileError { message: self.message.clone(), span: self.span.clone() }
    }
}

} // verus!
