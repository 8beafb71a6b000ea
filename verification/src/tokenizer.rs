//! Cutting a text into tokens.

use crate::char_reader::source::Source;
use crate::char_reader::unicode::read_text;
use crate::char_reader::{column, lemma_position_bounds, line_starts, newlines, CharReader};
use crate::errors::Error;
use crate::text::{
    alphabetic, alphanumeric, decimal_digit, hex_digit, lowercase, numeric, push_char, same_text,
    to_lowercase, white_space,
};
use crate::Span;
use std::io::Read;
use vstd::prelude::*;
use vstd::slice::slice_to_vec;

pub mod laws;

verus! {

#[derive(Debug, Clone, Copy, Hash, PartialEq, Eq, Structural)]
pub enum TokenType {
    /// ld, st, jp
    Instruction,
    /// sub
    LabelSpecifier,
    /// {
    OpeningCurly,
    /// }
    ClosingCurly,
    /// (
    OpeningParen,
    /// )
    ClosingParen,
    /// a, b, c, sp, pc, ix and the like
    Register,
    /// any other word
    Identifier,
    /// $FF
    HexNumber,
    /// 430
    DecNumber,
    /// *
    Star,
    /// &
    Ampersand,
    /// the line feed
    NewLine,
    /// ,
    Comma,
    /// the two slashes that open a comment
    CommentLine,
    /// =
    Equals,
    /// @
    At,
    /// :
    Colon,
    /// def, rom
    DataDeclaration,
    /// What is none of these.
    Error,
}

/// The name of a kind of token, as diagnostics write it.
pub open spec fn token_type_name(ty: TokenType) -> Seq<char> {
    match ty {
        TokenType::Instruction => "Instruction"@,
        TokenType::LabelSpecifier => "LabelSpecifier"@,
        TokenType::OpeningCurly => "OpeningCurly"@,
        TokenType::ClosingCurly => "ClosingCurly"@,
        TokenType::OpeningParen => "OpeningParen"@,
        TokenType::ClosingParen => "ClosingParen"@,
        TokenType::Register => "Register"@,
        TokenType::Identifier => "Identifier"@,
        TokenType::HexNumber => "HexNumber"@,
        TokenType::DecNumber => "DecNumber"@,
        TokenType::Star => "Star"@,
        TokenType::Ampersand => "Ampersand"@,
        TokenType::NewLine => "NewLine"@,
        TokenType::Comma => "Comma"@,
        TokenType::CommentLine => "CommentLine"@,
        TokenType::Equals => "Equals"@,
        TokenType::At => "At"@,
        TokenType::Colon => "Colon"@,
        TokenType::DataDeclaration => "DataDeclaration"@,
        TokenType::Error => "Error"@,
    }
}

impl TokenType {
    /// The name of this kind of token.
    pub fn name(&self) -> (r: &'static str)
        ensures
            r@ == token_type_name(*self),
    {
        match self {
            TokenType::Instruction => "Instruction",
            TokenType::LabelSpecifier => "LabelSpecifier",
            TokenType::OpeningCurly => "OpeningCurly",
            TokenType::ClosingCurly => "ClosingCurly",
            TokenType::OpeningParen => "OpeningParen",
            TokenType::ClosingParen => "ClosingParen",
            TokenType::Register => "Register",
            TokenType::Identifier => "Identifier",
            TokenType::HexNumber => "HexNumber",
            TokenType::DecNumber => "DecNumber",
            TokenType::Star => "Star",
            TokenType::Ampersand => "Ampersand",
            TokenType::NewLine => "NewLine",
            TokenType::Comma => "Comma",
            TokenType::CommentLine => "CommentLine",
            TokenType::Equals => "Equals",
            TokenType::At => "At",
            TokenType::Colon => "Colon",
            TokenType::DataDeclaration => "DataDeclaration",
            TokenType::Error => "Error",
        }
    }
}

#[derive(Debug, Hash, PartialEq, Eq)]
pub struct Token {
    pub ty: TokenType,
    pub span: Span,
}

impl Clone for Token {
    fn clone(&self) -> (r: Token)
        ensures
            r == *self,
    {
        Token { ty: self.ty, span: self.span.clone() }
    }
}

pub struct TokenizerResult {
    pub tokens: Vec<Token>,
    pub lines: Vec<usize>,
}

/// The ways in which a token of more than one character goes on.
#[derive(Debug, Clone, Copy, PartialEq, Eq)]
pub enum Run {
    /// digits to base 16, after `$`
    Hex,
    /// digits to base 10
    Dec,
    /// the characters of a word
    Ident,
    /// anything up to the next white space
    Junk,
}

/// What the first character of a lexeme makes of it.
#[derive(Debug, Clone, Copy, PartialEq, Eq)]
pub enum Shape {
    /// a token of this one character
    Punct(TokenType),
    /// white space, which is no token
    Blank,
    /// a slash, which takes the next character with it
    Slash,
    /// the start of a run
    Run(Run),
}

/// The token that a character makes by itself.
pub open spec fn punctuation(c: char) -> Option<TokenType> {
    if c == '\n' {
        Some(TokenType::NewLine)
    } else if c == '{' {
        Some(TokenType::OpeningCurly)
    } else if c == '}' {
        Some(TokenType::ClosingCurly)
    } else if c == '*' {
        Some(TokenType::Star)
    } else if c == '&' {
        Some(TokenType::Ampersand)
    } else if c == ',' {
        Some(TokenType::Comma)
    } else if c == '=' {
        Some(TokenType::Equals)
    } else if c == '@' {
        Some(TokenType::At)
    } else if c == '(' {
        Some(TokenType::OpeningParen)
    } else if c == ')' {
        Some(TokenType::ClosingParen)
    } else if c == ':' {
        Some(TokenType::Colon)
    } else {
        None
    }
}

/// Whether a character is one of a word, given whether it is a letter or
/// a digit: such a one is, and so is the underscore. The line feed is
/// none, whatever class it is in.
pub open spec fn word_char(c: char, letter_or_digit: bool) -> bool {
    c != '\n' && (letter_or_digit || c == '_')
}

/// Whether a character is one of a run of what is no token, given whether
/// it is white space: all are but white space and the line feed.
pub open spec fn junk_char(c: char, white: bool) -> bool {
    c != '\n' && !white
}

/// A character of a word: a letter, a digit or the underscore.
pub open spec fn identifier_char(c: char) -> bool {
    word_char(c, alphanumeric(c))
}

/// Whether `c` carries a run of the given kind on. No run goes on over a
/// line feed.
pub open spec fn continues(run: Run, c: char) -> bool {
    match run {
        Run::Hex => hex_digit(c),
        Run::Dec => decimal_digit(c),
        Run::Ident => identifier_char(c),
        Run::Junk => junk_char(c, white_space(c)),
    }
}

/// Where the run that has come as far as `i` ends: at the first character
/// that does not carry it on, or at the end of the text.
pub open spec fn run_end(s: Seq<char>, i: int, run: Run) -> int
    decreases s.len() - i,
{
    if 0 <= i < s.len() && continues(run, s[i]) {
        run_end(s, i + 1, run)
    } else {
        i
    }
}

/// What a lexeme is, by its first character and by the classes that the
/// character is in: white space, numbers, letters. The earlier case wins.
pub open spec fn shape_given(c: char, white: bool, number: bool, letter: bool) -> Shape {
    if let Some(ty) = punctuation(c) {
        Shape::Punct(ty)
    } else if white {
        Shape::Blank
    } else if c == '/' {
        Shape::Slash
    } else if c == '$' {
        Shape::Run(Run::Hex)
    } else if number {
        Shape::Run(Run::Dec)
    } else if letter {
        Shape::Run(Run::Ident)
    } else {
        Shape::Run(Run::Junk)
    }
}

/// What a lexeme is, by its first character.
pub open spec fn shape(c: char) -> Shape {
    shape_given(c, white_space(c), numeric(c), alphabetic(c))
}

/// Where the lexeme that starts at `i` ends.
pub open spec fn lexeme_end(s: Seq<char>, i: int) -> int {
    match shape(s[i]) {
        Shape::Punct(_) => i + 1,
        Shape::Blank => i + 1,
        Shape::Slash => if i + 1 < s.len() {
            i + 2
        } else {
            i + 1
        },
        Shape::Run(run) => run_end(s, i + 1, run),
    }
}

/// The kind of word that a lower-case text is.
pub open spec fn keyword_type(word: Seq<char>) -> TokenType {
    if word == "ld"@ || word == "st"@ || word == "jp"@ {
        TokenType::Instruction
    } else if word == "sub"@ {
        TokenType::LabelSpecifier
    } else if word == "pc"@ || word == "sp"@ || word == "a"@ || word == "b"@ || word == "c"@
        || word == "d"@ || word == "e"@ || word == "f"@ || word == "h"@ || word == "l"@ || word
        == "ix"@ || word == "iy"@ || word == "i"@ || word == "r"@ {
        TokenType::Register
    } else if word == "def"@ || word == "rom"@ {
        TokenType::DataDeclaration
    } else {
        TokenType::Identifier
    }
}

/// The kind of token that the lexeme at `i` is; `None` for white space.
pub open spec fn lexeme_type(s: Seq<char>, i: int) -> Option<TokenType> {
    match shape(s[i]) {
        Shape::Punct(ty) => Some(ty),
        Shape::Blank => None,
        Shape::Slash => Some(
            if i + 1 < s.len() && s[i + 1] == '/' {
                TokenType::CommentLine
            } else {
                TokenType::Error
            },
        ),
        Shape::Run(Run::Hex) => Some(TokenType::HexNumber),
        Shape::Run(Run::Dec) => Some(TokenType::DecNumber),
        Shape::Run(Run::Ident) => Some(keyword_type(lowercase(s.subrange(i, lexeme_end(s, i))))),
        Shape::Run(Run::Junk) => Some(TokenType::Error),
    }
}

/// The span of the characters from `i` up to `j`: their offsets, and the
/// line and the column of the first and of the last of them.
pub open spec fn span_of(s: Seq<char>, i: int, j: int) -> Span {
    Span {
        pos: (i as usize)..(j as usize),
        line: (newlines(s.take(i)) as usize)..((newlines(s.take(j - 1)) + 1) as usize),
        col: (column(s.take(i)) as usize)..((column(s.take(j - 1)) + 1) as usize),
    }
}

/// The token of the lexeme at `i`, if it is one.
pub open spec fn tokens_at(s: Seq<char>, i: int) -> Seq<Token> {
    match lexeme_type(s, i) {
        Some(ty) => seq![Token { ty, span: span_of(s, i, lexeme_end(s, i)) }],
        None => Seq::empty(),
    }
}

/// The tokens of the lexemes that start at `i` or later and before `n`, one
/// lexeme starting where the one before it ends.
pub open spec fn lex_between(s: Seq<char>, i: int, n: int) -> Seq<Token>
    decreases
            (if i < n {
                n - i
            } else {
                0
            }),
{
    if 0 <= i < n && i < s.len() && lexeme_end(s, i) > i {
        tokens_at(s, i) + lex_between(s, lexeme_end(s, i), n)
    } else {
        Seq::empty()
    }
}

/// The tokens of a text.
pub open spec fn lex(s: Seq<char>) -> Seq<Token> {
    lex_between(s, 0, s.len() as int)
}

/// A lexeme that starts at `i` or later ends at `n`.
pub open spec fn is_boundary(s: Seq<char>, i: int, n: int) -> bool
    decreases n - i,
{
    i == n || (0 <= i < n && i < s.len() && i < lexeme_end(s, i) <= n && is_boundary(
        s,
        lexeme_end(s, i),
        n,
    ))
}

pub proof fn lemma_run_end_bounds(s: Seq<char>, i: int, run: Run)
    requires
        0 <= i <= s.len(),
    ensures
        i <= run_end(s, i, run) <= s.len(),
        forall|k: int| i <= k < run_end(s, i, run) ==> continues(run, #[trigger] s[k]),
        run_end(s, i, run) < s.len() ==> !continues(run, s[run_end(s, i, run)]),
    decreases s.len() - i,
{
    if i < s.len() && continues(run, s[i]) {
        lemma_run_end_bounds(s, i + 1, run);
    }
}

/// A run that is carried on from `i` up to `j` and stops there ends at `j`.
pub proof fn lemma_run_end_exact(s: Seq<char>, i: int, j: int, run: Run)
    requires
        0 <= i <= j <= s.len(),
        forall|k: int| i <= k < j ==> continues(run, #[trigger] s[k]),
        j < s.len() ==> !continues(run, s[j]),
    ensures
        run_end(s, i, run) == j,
    decreases j - i,
{
    if i < j {
        lemma_run_end_exact(s, i + 1, j, run);
    }
}

pub proof fn lemma_lexeme_end_bounds(s: Seq<char>, i: int)
    requires
        0 <= i < s.len(),
    ensures
        i < lexeme_end(s, i) <= s.len(),
{
    match shape(s[i]) {
        Shape::Run(run) => {
            lemma_run_end_bounds(s, i + 1, run);
        },
        _ => {},
    }
}

/// A lexeme that ends before the end of a text is the same lexeme, and the
/// same token, in every text that goes on from there.
pub proof fn lemma_lexeme_stable(s: Seq<char>, t: Seq<char>, i: int)
    requires
        s.is_prefix_of(t),
        0 <= i < s.len(),
        lexeme_end(s, i) < s.len(),
    ensures
        lexeme_end(t, i) == lexeme_end(s, i),
        tokens_at(t, i) == tokens_at(s, i),
{
    let e = lexeme_end(s, i);
    lemma_lexeme_end_bounds(s, i);
    assert(forall|k: int| 0 <= k < s.len() ==> s[k] == t[k]);
    match shape(s[i]) {
        Shape::Run(run) => {
            lemma_run_end_bounds(s, i + 1, run);
            lemma_run_end_exact(t, i + 1, e, run);
        },
        _ => {},
    }
    assert(s.take(i) =~= t.take(i));
    assert(s.take(e - 1) =~= t.take(e - 1));
    assert(s.subrange(i, e) =~= t.subrange(i, e));
}

/// The tokens before a boundary that lies inside a text are the same in
/// every text that goes on from there.
pub proof fn lemma_lex_stable(s: Seq<char>, t: Seq<char>, i: int, n: int)
    requires
        s.is_prefix_of(t),
        is_boundary(s, i, n),
        n < s.len() || i == n,
    ensures
        is_boundary(t, i, n),
        lex_between(t, i, n) == lex_between(s, i, n),
    decreases n - i,
{
    if i != n {
        lemma_lexeme_stable(s, t, i);
        lemma_lex_stable(s, t, lexeme_end(s, i), n);
    }
}

/// The tokens up to the end of the lexeme that starts at a boundary are the
/// tokens up to that boundary and then the token of that lexeme.
pub proof fn lemma_lex_extend(s: Seq<char>, i: int, n: int)
    requires
        is_boundary(s, i, n),
        0 <= i,
        n < s.len(),
    ensures
        is_boundary(s, i, lexeme_end(s, n)),
        lex_between(s, i, lexeme_end(s, n)) == lex_between(s, i, n) + tokens_at(s, n),
    decreases n - i,
{
    lemma_lexeme_end_bounds(s, n);
    let e = lexeme_end(s, n);
    if i == n {
        assert(is_boundary(s, e, e));
        assert(lex_between(s, e, e) =~= Seq::<Token>::empty());
        assert(lex_between(s, n, n) =~= Seq::<Token>::empty());
        assert(lex_between(s, i, e) =~= lex_between(s, i, n) + tokens_at(s, n));
    } else {
        let j = lexeme_end(s, i);
        lemma_lex_extend(s, j, n);
        assert(lex_between(s, i, e) =~= lex_between(s, i, n) + tokens_at(s, n));
    }
}

/// The reader has gone from the text `before` to the text `after`, and has
/// in that read exactly the lexeme that starts where `before` ends; `known`
/// is the text as far as the reader knows it afterwards.
pub open spec fn advanced(before: Seq<char>, after: Seq<char>, known: Seq<char>) -> bool {
    let n = before.len() as int;
    &&& n < known.len()
    &&& after.len() <= known.len()
    &&& before == known.take(n)
    &&& after == known.take(after.len() as int)
    &&& after.len() == lexeme_end(known, n)
}

/// The token that a character makes by itself.
pub fn punctuation_type(c: char) -> (r: Option<TokenType>)
    ensures
        r == punctuation(c),
{
    if c == '\n' {
        Some(TokenType::NewLine)
    } else if c == '{' {
        Some(TokenType::OpeningCurly)
    } else if c == '}' {
        Some(TokenType::ClosingCurly)
    } else if c == '*' {
        Some(TokenType::Star)
    } else if c == '&' {
        Some(TokenType::Ampersand)
    } else if c == ',' {
        Some(TokenType::Comma)
    } else if c == '=' {
        Some(TokenType::Equals)
    } else if c == '@' {
        Some(TokenType::At)
    } else if c == '(' {
        Some(TokenType::OpeningParen)
    } else if c == ')' {
        Some(TokenType::ClosingParen)
    } else if c == ':' {
        Some(TokenType::Colon)
    } else {
        None
    }
}

/// What a lexeme is, by its first character and by the classes that the
/// character is in.
pub fn shape_of(c: char, white: bool, number: bool, letter: bool) -> (r: Shape)
    ensures
        r == shape_given(c, white, number, letter),
        white == white_space(c) && number == numeric(c) && letter == alphabetic(c) ==> r
            == shape(c),
{
    if let Some(ty) = punctuation_type(c) {
        Shape::Punct(ty)
    } else if white {
        Shape::Blank
    } else if c == '/' {
        Shape::Slash
    } else if c == '$' {
        Shape::Run(Run::Hex)
    } else if number {
        Shape::Run(Run::Dec)
    } else if letter {
        Shape::Run(Run::Ident)
    } else {
        Shape::Run(Run::Junk)
    }
}

/// Whether a character is one of a word, given whether it is a letter or
/// a digit.
pub fn is_word_char(c: char, letter_or_digit: bool) -> (r: bool)
    ensures
        r == word_char(c, letter_or_digit),
{
    if c == '\n' {
        return false;
    }
    if letter_or_digit {
        return true;
    }
    c == '_'
}

/// Whether a character is one of a run of what is no token, given whether
/// it is white space.
pub fn is_junk_char(c: char, white: bool) -> (r: bool)
    ensures
        r == junk_char(c, white),
{
    c != '\n' && !white
}

fn is_identifier_char(c: char, first: bool) -> (r: bool)
    ensures
        r == identifier_char(c),
{
    is_word_char(c, c.is_alphanumeric() || (!first && c.is_numeric()))
}

fn carries_on(run: Run, c: char) -> (r: bool)
    ensures
        r == continues(run, c),
{
    match run {
        Run::Hex => c.is_ascii_hexdigit(),
        Run::Dec => c.is_ascii_digit(),
        Run::Ident => is_identifier_char(c, false),
        Run::Junk => is_junk_char(c, c.is_whitespace()),
    }
}

/// The kind of word that a lower-case text is.
pub fn classify(word: &str) -> (r: TokenType)
    ensures
        r == keyword_type(word@),
{
    if same_text(word, "ld") || same_text(word, "st") || same_text(word, "jp") {
        TokenType::Instruction
    } else if same_text(word, "sub") {
        TokenType::LabelSpecifier
    } else if same_text(word, "pc") || same_text(word, "sp") || same_text(word, "a")
        || same_text(word, "b") || same_text(word, "c") || same_text(word, "d") || same_text(
        word,
        "e",
    ) || same_text(word, "f") || same_text(word, "h") || same_text(word, "l") || same_text(
        word,
        "ix",
    ) || same_text(word, "iy") || same_text(word, "i") || same_text(word, "r") {
        TokenType::Register
    } else if same_text(word, "def") || same_text(word, "rom") {
        TokenType::DataDeclaration
    } else {
        TokenType::Identifier
    }
}

/// The span from the place noted at the start of a lexeme to the character
/// that the reader has read last.
fn span_to_here<R: Read>(
    reader: &CharReader<R>,
    start_pos: usize,
    start_line: usize,
    start_col: usize,
    Ghost(n): Ghost<int>,
) -> (span: Span)
    requires
        reader.wf(),
        0 <= n < reader.chars().len(),
        start_pos == n,
        start_line == newlines(reader.chars().take(n)),
        start_col == column(reader.chars().take(n)),
    ensures
        span == span_of(reader.chars(), n, reader.chars().len() as int),
        forall|known: Seq<char>|
            reader.chars().is_prefix_of(known) ==> span == #[trigger] span_of(
                known,
                n,
                reader.chars().len() as int,
            ),
{
    proof {
        reader.lemma_received();
        lemma_position_bounds(reader.chars().drop_last());
        let s = reader.chars();
        let e = s.len() as int;
        assert(s.take(e - 1) =~= s.drop_last());
        assert forall|known: Seq<char>| s.is_prefix_of(known) implies span_of(s, n, e)
            == #[trigger] span_of(known, n, e) by {
            assert(known.take(n) =~= s.take(n));
            assert(known.take(e - 1) =~= s.take(e - 1));
        }
    }
    let end_pos = reader.pos() + 1;
    let end_line = reader.line() + 1;
    let end_col = reader.col() + 1;
    Span { pos: start_pos..end_pos, line: start_line..end_line, col: start_col..end_col }
}

/// Reads on for as long as the characters carry the run on, and looks at
/// the character that ends it.
fn run_on<R: Read>(reader: &mut CharReader<R>, run: Run) -> (r: Result<(), std::io::Error>)
    requires
        old(reader).wf(),
    ensures
        final(reader).wf(),
        final(reader).stream() == old(reader).stream(),
        r is Err ==> final(reader).stuck(),
        old(reader).known().is_prefix_of(final(reader).known()),
        r is Ok ==> {
            &&& final(reader).determined()
            &&& old(reader).chars().is_prefix_of(final(reader).chars())
            &&& forall|k: int|
                old(reader).chars().len() <= k < final(reader).chars().len() ==> continues(
                    run,
                    #[trigger] final(reader).chars()[k],
                )
            &&& final(reader).lookahead() matches Some(c) ==> !continues(run, c)
        },
{
    loop
        invariant
            reader.wf(),
            reader.stream() == old(reader).stream(),
            old(reader).known().is_prefix_of(reader.known()),
            old(reader).chars().is_prefix_of(reader.chars()),
            forall|k: int|
                old(reader).chars().len() <= k < reader.chars().len() ==> continues(
                    run,
                    #[trigger] reader.chars()[k],
                ),
        decreases usize::MAX - reader.chars().len(),
    {
        proof {
            reader.lemma_received();
        }
        let peeked = match reader.peek_char() {
            Ok(peeked) => peeked,
            Err(e) => {
                return Err(e);
            },
        };
        match peeked {
            None => {
                return Ok(());
            },
            Some(c) => {
                if !carries_on(run, c) {
                    return Ok(());
                }
                match reader.next_char() {
                    Ok(_) => {},
                    Err(e) => {
                        return Err(e);
                    },
                }
                proof {
                    reader.lemma_received();
                }
            },
        }
    }
}

fn try_tokenize_single_char<R: Read>(
    reader: &mut CharReader<R>,
    target: char,
    ty: TokenType,
) -> (r: Result<Option<Token>, std::io::Error>)
    requires
        old(reader).wf(),
        punctuation(target) == Some(ty),
    ensures
        final(reader).wf(),
        final(reader).stream() == old(reader).stream(),
        r is Err ==> final(reader).stuck(),
        old(reader).known().is_prefix_of(final(reader).known()),
        match r {
            Ok(Some(token)) => final(reader).determined() && advanced(
                old(reader).chars(),
                final(reader).chars(),
                final(reader).known(),
            ) && token == (Token {
                ty,
                span: span_of(
                    final(reader).known(),
                    old(reader).chars().len() as int,
                    final(reader).chars().len() as int,
                ),
            }),
            Ok(None) => final(reader).chars() == old(reader).chars() && final(reader).determined()
                && final(reader).lookahead() != Some(target),
            Err(_) => true,
        },
{
    let peeked = match reader.peek_char() {
        Ok(peeked) => peeked,
        Err(e) => {
            return Err(e);
        },
    };
    if let Some(c) = peeked {
        if c == target {
            let ghost n = reader.chars().len() as int;
            match reader.next_char() {
                Ok(_) => {},
                Err(e) => {
                    return Err(e);
                },
            }
            proof {
                reader.lemma_received();
                assert(reader.chars().take(n) =~= old(reader).chars());
            }
            let pos = reader.pos();
            let line = reader.line();
            let col = reader.col();
            let span = span_to_here(reader, pos, line, col, Ghost(n));
            match reader.peek_char() {
                Ok(_) => {},
                Err(e) => {
                    return Err(e);
                },
            }
            proof {
                let s = reader.known();
                assert(reader.chars().is_prefix_of(s));
                assert(s.take(n) =~= old(reader).chars());
                assert(s.take(n + 1) =~= reader.chars());
                assert(s[n] == target);
            }
            return Ok(Some(Token { ty, span }));
        }
    }
    Ok(None)
}

/// Reads the lexeme that starts with the character held ready and goes on
/// as a run of the given kind, and returns its span.
fn read_lexeme<R: Read>(reader: &mut CharReader<R>, run: Run) -> (r: Result<Span, std::io::Error>)
    requires
        old(reader).wf(),
        old(reader).lookahead() matches Some(c) && shape(c) == Shape::Run(run),
    ensures
        final(reader).wf(),
        final(reader).stream() == old(reader).stream(),
        r is Err ==> final(reader).stuck(),
        old(reader).known().is_prefix_of(final(reader).known()),
        r matches Ok(span) ==> final(reader).determined() && advanced(
            old(reader).chars(),
            final(reader).chars(),
            final(reader).known(),
        ) && span == span_of(
            final(reader).known(),
            old(reader).chars().len() as int,
            final(reader).chars().len() as int,
        ),
{
    let ghost n = reader.chars().len() as int;
    let ghost first = reader.lookahead()->Some_0;
    proof {
        reader.lemma_received();
    }
    let start_pos = reader.peek_pos();
    let start_line = reader.peek_line();
    let start_col = reader.peek_col();
    match reader.next_char() {
        Ok(_) => {},
        Err(e) => {
            return Err(e);
        },
    }
    let ghost started = reader.chars();
    assert(started == old(reader).chars().push(first));
    match run_on(reader, run) {
        Ok(_) => {},
        Err(e) => {
            return Err(e);
        },
    }
    proof {
        assert(reader.chars().take(n) =~= old(reader).chars());
    }
    let span = span_to_here(reader, start_pos, start_line, start_col, Ghost(n));
    proof {
        let s = reader.known();
        let e = reader.chars().len() as int;
        assert(reader.chars().is_prefix_of(s));
        assert(s.take(n) =~= old(reader).chars());
        assert(s.take(e) =~= reader.chars());
        assert(s[n] == first);
        assert forall|k: int| n + 1 <= k < e implies continues(run, #[trigger] s[k]) by {
            assert(s[k] == reader.chars()[k]);
        }
        lemma_run_end_exact(s, n + 1, e, run);
    }
    Ok(span)
}

/// Reads what is no token of any kind, up to the next white space.
fn read_unidentifiable<R: Read>(reader: &mut CharReader<R>) -> (r: Result<Span, std::io::Error>)
    requires
        old(reader).wf(),
        old(reader).lookahead() matches Some(c) && shape(c) == Shape::Run(Run::Junk),
    ensures
        final(reader).wf(),
        final(reader).stream() == old(reader).stream(),
        r is Err ==> final(reader).stuck(),
        old(reader).known().is_prefix_of(final(reader).known()),
        r matches Ok(span) ==> final(reader).determined() && advanced(
            old(reader).chars(),
            final(reader).chars(),
            final(reader).known(),
        ) && span == span_of(
            final(reader).known(),
            old(reader).chars().len() as int,
            final(reader).chars().len() as int,
        ),
{
    read_lexeme(reader, Run::Junk)
}

/// Reads a word, and returns its characters with its span.
fn read_ident<R: Read>(reader: &mut CharReader<R>) -> (r: Result<(String, Span), std::io::Error>)
    requires
        old(reader).wf(),
        old(reader).lookahead() matches Some(c) && shape(c) == Shape::Run(Run::Ident),
    ensures
        final(reader).wf(),
        final(reader).stream() == old(reader).stream(),
        r is Err ==> final(reader).stuck(),
        old(reader).known().is_prefix_of(final(reader).known()),
        r matches Ok((text, span)) ==> final(reader).determined() && advanced(
            old(reader).chars(),
            final(reader).chars(),
            final(reader).known(),
        ) && span == span_of(
            final(reader).known(),
            old(reader).chars().len() as int,
            final(reader).chars().len() as int,
        ) && text@ == final(reader).known().subrange(
            old(reader).chars().len() as int,
            final(reader).chars().len() as int,
        ),
{
    let ghost n = reader.chars().len() as int;
    let ghost first = reader.lookahead()->Some_0;
    proof {
        reader.lemma_received();
    }
    let start_pos = reader.peek_pos();
    let start_line = reader.peek_line();
    let start_col = reader.peek_col();
    let mut text = String::new();
    let first_char = match reader.next_char() {
        Ok(first_char) => first_char,
        Err(e) => {
            return Err(e);
        },
    };
    if let Some(c) = first_char {
        push_char(&mut text, c);
    }
    assert(reader.chars() == old(reader).chars().push(first));
    loop
        invariant
            reader.wf(),
            reader.stream() == old(reader).stream(),
            old(reader).known().is_prefix_of(reader.known()),
            old(reader).chars().push(first).is_prefix_of(reader.chars()),
            n == old(reader).chars().len(),
            text@ == reader.chars().subrange(n, reader.chars().len() as int),
            forall|k: int|
                n + 1 <= k < reader.chars().len() ==> continues(
                    Run::Ident,
                    #[trigger] reader.chars()[k],
                ),
        ensures
            reader.determined(),
            reader.lookahead() matches Some(c) ==> !continues(Run::Ident, c),
        decreases usize::MAX - reader.chars().len(),
    {
        proof {
            reader.lemma_received();
        }
        let peeked = match reader.peek_char() {
            Ok(peeked) => peeked,
            Err(e) => {
                return Err(e);
            },
        };
        match peeked {
            None => {
                break ;
            },
            Some(c) => {
                if !is_identifier_char(c, false) {
                    break ;
                }
                let ghost before = reader.chars();
                push_char(&mut text, c);
                match reader.next_char() {
                    Ok(_) => {},
                    Err(e) => {
                        return Err(e);
                    },
                }
                proof {
                    reader.lemma_received();
                    assert(reader.chars() == before.push(c));
                    assert(reader.chars().subrange(n, reader.chars().len() as int)
                        =~= before.subrange(n, before.len() as int).push(c));
                }
            },
        }
    }
    proof {
        assert(reader.chars().take(n) =~= old(reader).chars());
    }
    let span = span_to_here(reader, start_pos, start_line, start_col, Ghost(n));
    proof {
        let s = reader.known();
        let e = reader.chars().len() as int;
        assert(reader.chars().is_prefix_of(s));
        assert(s.take(n) =~= old(reader).chars());
        assert(s.take(e) =~= reader.chars());
        assert(s[n] == first);
        assert forall|k: int| n + 1 <= k < e implies continues(Run::Ident, #[trigger] s[k]) by {
            assert(s[k] == reader.chars()[k]);
        }
        lemma_run_end_exact(s, n + 1, e, Run::Ident);
        assert(s.subrange(n, e) =~= reader.chars().subrange(n, e));
    }
    Ok((text, span))
}

/// Reads a number to base 16: the `$` and the digits after it.
fn read_hex_literal<R: Read>(reader: &mut CharReader<R>) -> (r: Result<Token, std::io::Error>)
    requires
        old(reader).wf(),
        old(reader).lookahead() matches Some(c) && shape(c) == Shape::Run(Run::Hex),
    ensures
        final(reader).wf(),
        final(reader).stream() == old(reader).stream(),
        r is Err ==> final(reader).stuck(),
        old(reader).known().is_prefix_of(final(reader).known()),
        r matches Ok(token) ==> final(reader).determined() && advanced(
            old(reader).chars(),
            final(reader).chars(),
            final(reader).known(),
        ) && token == (Token {
            ty: TokenType::HexNumber,
            span: span_of(
                final(reader).known(),
                old(reader).chars().len() as int,
                final(reader).chars().len() as int,
            ),
        }),
{
    match read_lexeme(reader, Run::Hex) {
        Ok(span) => Ok(Token { ty: TokenType::HexNumber, span }),
        Err(e) => Err(e),
    }
}

/// Reads a number to base 10.
fn read_dec_literal<R: Read>(reader: &mut CharReader<R>) -> (r: Result<Token, std::io::Error>)
    requires
        old(reader).wf(),
        old(reader).lookahead() matches Some(c) && shape(c) == Shape::Run(Run::Dec),
    ensures
        final(reader).wf(),
        final(reader).stream() == old(reader).stream(),
        r is Err ==> final(reader).stuck(),
        old(reader).known().is_prefix_of(final(reader).known()),
        r matches Ok(token) ==> final(reader).determined() && advanced(
            old(reader).chars(),
            final(reader).chars(),
            final(reader).known(),
        ) && token == (Token {
            ty: TokenType::DecNumber,
            span: span_of(
                final(reader).known(),
                old(reader).chars().len() as int,
                final(reader).chars().len() as int,
            ),
        }),
{
    match read_lexeme(reader, Run::Dec) {
        Ok(span) => Ok(Token { ty: TokenType::DecNumber, span }),
        Err(e) => Err(e),
    }
}

/// Reads a slash and the character after it: together the start of a
/// comment where that is a slash too, and an error token where it is not.
fn read_slash<R: Read>(reader: &mut CharReader<R>) -> (r: Result<Token, std::io::Error>)
    requires
        old(reader).wf(),
        old(reader).lookahead() matches Some(c) && shape(c) == Shape::Slash,
    ensures
        final(reader).wf(),
        final(reader).stream() == old(reader).stream(),
        r is Err ==> final(reader).stuck(),
        old(reader).known().is_prefix_of(final(reader).known()),
        r matches Ok(token) ==> final(reader).determined() && advanced(
            old(reader).chars(),
            final(reader).chars(),
            final(reader).known(),
        ) && seq![token] == tokens_at(final(reader).known(), old(reader).chars().len() as int),
{
    let ghost n = reader.chars().len() as int;
    let ghost first = reader.lookahead()->Some_0;
    match reader.next_char() {
        Ok(_) => {},
        Err(e) => {
            return Err(e);
        },
    }
    proof {
        reader.lemma_received();
        assert(reader.chars() == old(reader).chars().push(first));
    }
    let start_pos = reader.pos();
    let start_line = reader.line();
    let start_col = reader.col();
    let ghost started = reader.chars();
    let next = match reader.next_char() {
        Ok(next) => next,
        Err(e) => {
            return Err(e);
        },
    };
    proof {
        assert(started.take(n) =~= old(reader).chars());
        assert(reader.chars().take(n) =~= old(reader).chars());
    }
    let span = span_to_here(reader, start_pos, start_line, start_col, Ghost(n));
    match reader.peek_char() {
        Ok(_) => {},
        Err(e) => {
            return Err(e);
        },
    }
    proof {
        let s = reader.known();
        let e = reader.chars().len() as int;
        assert(reader.chars().is_prefix_of(s));
        assert(s.take(n) =~= old(reader).chars());
        assert(s.take(e) =~= reader.chars());
        assert(s[n] == first);
        if next is Some {
            assert(reader.chars() == started.push(next->Some_0));
            assert(s[n + 1] == next->Some_0);
        }
    }
    let is_comment = match next {
        Some(c) => c == '/',
        None => false,
    };
    if !is_comment {
        return Ok(Token { ty: TokenType::Error, span });
    }
    Ok(Token { ty: TokenType::CommentLine, span })
}

/// The token, if any, that a lexeme makes.
pub open spec fn found_tokens(found: Option<Token>) -> Seq<Token> {
    match found {
        Some(token) => seq![token],
        None => Seq::empty(),
    }
}

/// Reads the lexeme that starts with `c`, the character held ready, and
/// returns the token that it makes; white space makes none.
fn read_token<R: Read>(reader: &mut CharReader<R>, c: char) -> (r: Result<
    Option<Token>,
    std::io::Error,
>)
    requires
        old(reader).wf(),
        old(reader).lookahead() == Some(c),
    ensures
        final(reader).wf(),
        final(reader).stream() == old(reader).stream(),
        r is Err ==> final(reader).stuck(),
        old(reader).known().is_prefix_of(final(reader).known()),
        r matches Ok(found) ==> final(reader).determined() && advanced(
            old(reader).chars(),
            final(reader).chars(),
            final(reader).known(),
        ) && found_tokens(found) == tokens_at(
            final(reader).known(),
            old(reader).chars().len() as int,
        ),
{
    let ghost n = reader.chars().len() as int;
    let ghost known_before = reader.known();
    let ghost chars_before = reader.chars();
    match shape_of(c, c.is_whitespace(), c.is_numeric(), c.is_alphabetic()) {
        Shape::Punct(ty) => {
            let found = match try_tokenize_single_char(reader, c, ty) {
                Ok(found) => found,
                Err(e) => {
                    return Err(e);
                },
            };
            assert(reader.known()[n] == known_before[n]);
            Ok(found)
        },
        Shape::Blank => {
            match reader.next_char() {
                Ok(_) => {},
                Err(e) => {
                    return Err(e);
                },
            }
            let ghost stepped = reader.chars();
            match reader.peek_char() {
                Ok(_) => {},
                Err(e) => {
                    return Err(e);
                },
            }
            proof {
                let s = reader.known();
                assert(stepped == chars_before.push(c));
                assert(reader.chars().is_prefix_of(s));
                assert(s.take(n) =~= chars_before);
                assert(s.take(n + 1) =~= reader.chars());
                assert(s[n] == c);
            }
            Ok(None)
        },
        Shape::Slash => match read_slash(reader) {
            Ok(token) => Ok(Some(token)),
            Err(e) => Err(e),
        },
        Shape::Run(Run::Hex) => match read_hex_literal(reader) {
            Ok(token) => {
                assert(reader.known()[n] == known_before[n]);
                Ok(Some(token))
            },
            Err(e) => Err(e),
        },
        Shape::Run(Run::Dec) => match read_dec_literal(reader) {
            Ok(token) => {
                assert(reader.known()[n] == known_before[n]);
                Ok(Some(token))
            },
            Err(e) => Err(e),
        },
        Shape::Run(Run::Ident) => {
            let (text, span) = match read_ident(reader) {
                Ok(word) => word,
                Err(e) => {
                    return Err(e);
                },
            };
            assert(reader.known()[n] == known_before[n]);
            let text = to_lowercase(text.as_str());
            Ok(Some(Token { ty: classify(text.as_str()), span }))
        },
        Shape::Run(Run::Junk) => match read_unidentifiable(reader) {
            Ok(span) => {
                assert(reader.known()[n] == known_before[n]);
                Ok(Some(Token { ty: TokenType::Error, span }))
            },
            Err(e) => Err(e),
        },
    }
}

/// Cuts what the reader has still to read into tokens, up to the end of
/// its source.
pub fn read_tokens<R: Read>(reader: &mut CharReader<R>) -> (r: Result<Vec<Token>, std::io::Error>)
    requires
        old(reader).wf(),
    ensures
        final(reader).wf(),
        final(reader).stream() == old(reader).stream(),
        r is Err ==> final(reader).stuck(),
        r matches Ok(tokens) ==> {
            &&& final(reader).at_end()
            &&& old(reader).chars().is_prefix_of(final(reader).chars())
            &&& tokens@ == lex_between(
                final(reader).chars(),
                old(reader).chars().len() as int,
                final(reader).chars().len() as int,
            )
        },
{
    let mut tokens: Vec<Token> = Vec::new();
    let ghost start = reader.chars().len() as int;
    loop
        invariant
            reader.wf(),
            reader.stream() == old(reader).stream(),
            start == old(reader).chars().len(),
            old(reader).chars().is_prefix_of(reader.chars()),
            reader.chars().len() == start || reader.determined(),
            is_boundary(reader.known(), start, reader.chars().len() as int),
            tokens@ == lex_between(reader.known(), start, reader.chars().len() as int),
        ensures
            reader.wf(),
            reader.stream() == old(reader).stream(),
            reader.at_end(),
            old(reader).chars().is_prefix_of(reader.chars()),
            tokens@ == lex_between(reader.known(), start, reader.chars().len() as int),
        decreases usize::MAX - reader.chars().len(),
    {
        let ghost known_before = reader.known();
        let ghost n = reader.chars().len() as int;
        proof {
            reader.lemma_received();
        }
        let peeked = match reader.peek_char() {
            Ok(peeked) => peeked,
            Err(e) => {
                return Err(e);
            },
        };
        proof {
            if known_before.len() > n || start == n {
                lemma_lex_stable(known_before, reader.known(), start, n);
            }
        }
        let c = match peeked {
            Some(c) => c,
            None => {
                break ;
            },
        };
        let ghost known_peeked = reader.known();
        let found = match read_token(reader, c) {
            Ok(found) => found,
            Err(e) => {
                return Err(e);
            },
        };
        proof {
            reader.lemma_received();
            lemma_lex_stable(known_peeked, reader.known(), start, n);
            lemma_lex_extend(reader.known(), start, n);
        }
        if let Some(token) = found {
            tokens.push(token);
        }
    }
    Ok(tokens)
}

/// All tokens lie on one line each, and their ranges of columns are as
/// long as their ranges of characters, which are not empty.
pub open spec fn on_one_line(tokens: Seq<Token>) -> bool {
    forall|k: int|
        0 <= k < tokens.len() ==> {
            let span = (#[trigger] tokens[k]).span;
            &&& span.line.end - span.line.start == 1
            &&& span.col.end - span.col.start == span.pos.end - span.pos.start
            &&& span.pos.start < span.pos.end
        }
}

/// The result is the tokens and the line table of the text.
pub open spec fn is_lexing_of(result: TokenizerResult, text: Seq<char>) -> bool {
    result.tokens@ == lex(text) && result.lines@ == line_starts(text)
}

/// Cuts the text that a source delivers into tokens, and notes where its
/// lines start. The tokens and the line table are those of one text, and
/// every token lies on one line of it. Where the bytes of the source are
/// known, so is the outcome, in whatever pieces they come: if they have a
/// text, the tokens and the line table of that text, and else an error.
pub fn tokenize_source<R: Read>(src: Source<R>) -> (r: Result<TokenizerResult, Error>)
    ensures
        r matches Ok(result) ==> on_one_line(result.tokens@) && exists|text: Seq<char>|
            text.len() <= usize::MAX && #[trigger] is_lexing_of(result, text),
        r matches Err(e) ==> e is IO,
        src.rest() matches Some(bytes) ==> (bytes.len() <= usize::MAX ==> match read_text(bytes) {
            Some(text) => r matches Ok(result) && is_lexing_of(result, text),
            None => r is Err,
        }),
{
    let mut reader = CharReader::from_source(src);
    match read_tokens(&mut reader) {
        Ok(tokens) => {
            proof {
                reader.lemma_received();
                reader.lemma_stream_text();
                assert(reader.known() == reader.chars());
                assert(lex(reader.chars()) == tokens@);
                laws::lemma_tokens_on_one_line(reader.chars());
            }
            let ghost text = reader.chars();
            let lines = reader.lines_consume();
            let result = TokenizerResult { tokens, lines };
            assert(is_lexing_of(result, text));
            Ok(result)
        },
        Err(e) => {
            proof {
                reader.lemma_stream_text();
            }
            Err(Error::IO(e))
        },
    }
}

/// Cuts the text that `reader` delivers into tokens, and notes where its
/// lines start. The tokens and the line table are those of one text, the
/// text that the bytes delivered encode; every token lies on one line of
/// it. A failure of the reader, or bytes that are no text, end it with an
/// error.
pub fn tokenize<R: Read>(reader: &mut R) -> (r: Result<TokenizerResult, Error>)
    ensures
        r matches Ok(result) ==> on_one_line(result.tokens@) && exists|text: Seq<char>|
            text.len() <= usize::MAX && #[trigger] is_lexing_of(result, text),
        r matches Err(e) ==> e is IO,
{
    tokenize_source(Source::Reader(reader))
}

/// Cuts the text that the bytes encode into tokens, and notes where its
/// lines start; an error where the bytes have no text.
pub fn tokenize_bytes(bytes: &[u8]) -> (r: Result<TokenizerResult, Error>)
    ensures
        match read_text(bytes@) {
            Some(text) => r matches Ok(result) && is_lexing_of(result, text) && on_one_line(
                result.tokens@,
            ),
            None => r matches Err(e) && e is IO,
        },
{
    let src: Source<&[u8]> = Source::bytes(slice_to_vec(bytes), bytes.len());
    tokenize_source(src)
}

} // verus!
