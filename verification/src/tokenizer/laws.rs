//! What holds of the tokens of every text.

use super::{
    continues, keyword_type, is_boundary, lemma_lexeme_end_bounds, lemma_lexeme_stable, lemma_run_end_bounds,
    lemma_run_end_exact, lex, lex_between, lexeme_end, lexeme_type, run_end, shape, span_of,
    tokens_at, Run, Shape, Token, TokenType,
};
use crate::char_reader::{column, lemma_position_bounds, lemma_same_line, newlines};
use crate::Span;
use vstd::prelude::*;

verus! {

/// The characters of a lexeme, but for the last, are no line feeds: the
/// lexeme starts and ends on one line.
pub proof fn lemma_lexeme_on_one_line(s: Seq<char>, i: int)
    requires
        0 <= i < s.len(),
    ensures
        i < lexeme_end(s, i) <= s.len(),
        newlines(s.take(lexeme_end(s, i) - 1)) == newlines(s.take(i)),
        column(s.take(lexeme_end(s, i) - 1)) == column(s.take(i)) + (lexeme_end(s, i) - 1 - i),
{
    let e = lexeme_end(s, i);
    lemma_lexeme_end_bounds(s, i);
    let head = s.take(e - 1);
    match shape(s[i]) {
        Shape::Run(run) => {
            lemma_run_end_bounds(s, i + 1, run);
        },
        _ => {},
    }
    assert forall|k: int| head.len() - (e - 1 - i) <= k < head.len() implies head[k] != '\n' by {
        assert(head[k] == s[k]);
        if k > i {
            match shape(s[i]) {
                Shape::Run(run) => {
                    assert(continues(run, s[k]));
                },
                _ => {},
            }
        }
    }
    lemma_same_line(head, e - 1 - i);
    assert(head.take(head.len() - (e - 1 - i)) =~= s.take(i));
}

/// Every token lies on one line, and its range of columns is as long as
/// its range of characters, which is not empty and lies in the text.
pub proof fn lemma_tokens_on_one_line(s: Seq<char>)
    requires
        s.len() <= usize::MAX,
    ensures
        forall|k: int|
            0 <= k < lex(s).len() ==> {
                let span = (#[trigger] lex(s)[k]).span;
                &&& span.line.end - span.line.start == 1
                &&& span.col.end - span.col.start == span.pos.end - span.pos.start
                &&& span.pos.start < span.pos.end <= s.len()
                &&& span.line.end <= s.len()
                &&& span.col.end <= s.len()
            },
{
    lemma_tokens_between_on_one_line(s, 0, s.len() as int);
}

/// The same of the tokens of any stretch of a text.
pub proof fn lemma_tokens_between_on_one_line(s: Seq<char>, i: int, n: int)
    requires
        s.len() <= usize::MAX,
        0 <= i,
    ensures
        forall|k: int|
            0 <= k < lex_between(s, i, n).len() ==> {
                let span = (#[trigger] lex_between(s, i, n)[k]).span;
                &&& span.line.end - span.line.start == 1
                &&& span.col.end - span.col.start == span.pos.end - span.pos.start
                &&& span.pos.start < span.pos.end <= s.len()
                &&& span.line.end <= s.len()
                &&& span.col.end <= s.len()
            },
    decreases
            (if i < n {
                n - i
            } else {
                0
            }),
{
    if 0 <= i < n && i < s.len() && lexeme_end(s, i) > i {
        let e = lexeme_end(s, i);
        lemma_lexeme_on_one_line(s, i);
        lemma_position_bounds(s.take(i));
        lemma_position_bounds(s.take(e - 1));
        lemma_tokens_between_on_one_line(s, e, n);
        let head = tokens_at(s, i);
        let tail = lex_between(s, e, n);
        assert forall|k: int| 0 <= k < (head + tail).len() implies {
            let span = (#[trigger] (head + tail)[k]).span;
            &&& span.line.end - span.line.start == 1
            &&& span.col.end - span.col.start == span.pos.end - span.pos.start
            &&& span.pos.start < span.pos.end <= s.len()
            &&& span.line.end <= s.len()
            &&& span.col.end <= s.len()
        } by {
            if k >= head.len() {
                assert((head + tail)[k] == tail[k - head.len()]);
            }
        }
    }
}

/// A lexeme read by itself is one lexeme again, of the same kind.
pub proof fn lemma_lexeme_alone(s: Seq<char>, i: int)
    requires
        0 <= i < s.len(),
    ensures
        ({
            let word = s.subrange(i, lexeme_end(s, i));
            &&& 0 < word.len()
            &&& lexeme_end(word, 0) == word.len()
            &&& lexeme_type(word, 0) == lexeme_type(s, i)
        }),
{
    let e = lexeme_end(s, i);
    lemma_lexeme_end_bounds(s, i);
    let word = s.subrange(i, e);
    assert(word[0] == s[i]);
    match shape(s[i]) {
        Shape::Run(run) => {
            lemma_run_end_bounds(s, i + 1, run);
            assert forall|k: int| 1 <= k < word.len() implies continues(run, #[trigger] word[k]) by {
                assert(word[k] == s[i + k]);
            }
            lemma_run_end_exact(word, 1, word.len() as int, run);
            assert(word.subrange(0, word.len() as int) =~= word);
        },
        Shape::Slash => {
            if i + 1 < s.len() {
                assert(word[1] == s[i + 1]);
            }
        },
        _ => {},
    }
}

/// Lexing again the characters that a token covers gives one token, and
/// that token has the same kind.
pub proof fn lemma_relex(s: Seq<char>)
    requires
        s.len() <= usize::MAX,
    ensures
        forall|k: int|
            0 <= k < lex(s).len() ==> {
                let token = #[trigger] lex(s)[k];
                &&& token.span.fits(s.len())
                &&& lex(token.span.cut(s)).len() == 1
                &&& lex(token.span.cut(s))[0].ty == token.ty
            },
{
    lemma_relex_between(s, 0, s.len() as int);
}

/// The same of the tokens of any stretch of a text.
pub proof fn lemma_relex_between(s: Seq<char>, i: int, n: int)
    requires
        s.len() <= usize::MAX,
        0 <= i,
    ensures
        forall|k: int|
            0 <= k < lex_between(s, i, n).len() ==> {
                let token = #[trigger] lex_between(s, i, n)[k];
                &&& token.span.fits(s.len())
                &&& lex(token.span.cut(s)).len() == 1
                &&& lex(token.span.cut(s))[0].ty == token.ty
            },
    decreases
            (if i < n {
                n - i
            } else {
                0
            }),
{
    if 0 <= i < n && i < s.len() && lexeme_end(s, i) > i {
        let e = lexeme_end(s, i);
        lemma_lexeme_end_bounds(s, i);
        lemma_lexeme_alone(s, i);
        lemma_relex_between(s, e, n);
        let head = tokens_at(s, i);
        let tail = lex_between(s, e, n);
        let word = s.subrange(i, e);
        assert(lex_between(word, word.len() as int, word.len() as int) =~= Seq::<Token>::empty());
        assert(lex(word) =~= tokens_at(word, 0));
        assert forall|k: int| 0 <= k < (head + tail).len() implies {
            let token = #[trigger] (head + tail)[k];
            &&& token.span.fits(s.len())
            &&& lex(token.span.cut(s)).len() == 1
            &&& lex(token.span.cut(s))[0].ty == token.ty
        } by {
            if k >= head.len() {
                assert((head + tail)[k] == tail[k - head.len()]);
            } else {
                assert(head[k].span.cut(s) == word);
            }
        }
    }
}


/// How far a program is moved: by so many characters and so many lines.
pub struct Move {
    pub by: int,
    pub lines: int,
}

impl Move {
    /// The span moved.
    pub open spec fn span(self, span: Span) -> Span {
        Span {
            pos: ((span.pos.start + self.by) as usize)..((span.pos.end + self.by) as usize),
            line: ((span.line.start + self.lines) as usize)..((span.line.end + self.lines) as usize),
            col: span.col,
        }
    }

    /// The token moved.
    pub open spec fn token(self, token: Token) -> Token {
        Token { ty: token.ty, span: self.span(token.span) }
    }

    /// The tokens moved.
    pub open spec fn tokens(self, tokens: Seq<Token>) -> Seq<Token> {
        Seq::new(tokens.len(), |i: int| self.token(tokens[i]))
    }

    /// The span can be moved: it lies in a text of `len` characters, and
    /// moved it is still within the machine integers.
    pub open spec fn fits_span(self, span: Span, len: nat) -> bool {
        &&& self.by >= 0
        &&& self.lines >= 0
        &&& span.fits(len)
        &&& span.pos.end + self.by <= usize::MAX
        &&& span.line.start + self.lines <= usize::MAX
        &&& span.line.end + self.lines <= usize::MAX
    }
}

/// The line feeds of two texts put together are those of both.
pub proof fn lemma_newlines_concat(a: Seq<char>, b: Seq<char>)
    ensures
        newlines(a + b) == newlines(a) + newlines(b),
    decreases b.len(),
{
    if b.len() == 0 {
        assert(a + b =~= a);
    } else {
        lemma_newlines_concat(a, b.drop_last());
        assert((a + b).drop_last() =~= a + b.drop_last());
    }
}

/// Behind a line feed the columns start anew.
pub proof fn lemma_column_concat(a: Seq<char>, b: Seq<char>)
    requires
        a.len() > 0,
        a.last() == '\n',
    ensures
        column(a + b) == column(b),
    decreases b.len(),
{
    if b.len() == 0 {
        assert(a + b =~= a);
    } else {
        lemma_column_concat(a, b.drop_last());
        assert((a + b).drop_last() =~= a + b.drop_last());
    }
}

/// A run in a text goes as far with another text in front.
proof fn lemma_run_end_after(head: Seq<char>, text: Seq<char>, i: int, run: Run)
    requires
        0 <= i <= text.len(),
    ensures
        run_end(head + text, head.len() + i, run) == head.len() + run_end(text, i, run),
    decreases text.len() - i,
{
    if i < text.len() {
        assert((head + text)[head.len() + i] == text[i]);
        if continues(run, text[i]) {
            lemma_run_end_after(head, text, i + 1, run);
        }
    }
}

/// A lexeme of a text is the same lexeme, moved, with lines in front of
/// the text.
proof fn lemma_lexeme_after(head: Seq<char>, text: Seq<char>, i: int)
    requires
        0 <= i < text.len(),
        head.len() > 0,
        head.last() == '\n',
        (head + text).len() <= usize::MAX,
    ensures
        lexeme_end(head + text, head.len() + i) == head.len() + lexeme_end(text, i),
        tokens_at(head + text, head.len() + i) == (Move {
            by: head.len() as int,
            lines: newlines(head) as int,
        }).tokens(tokens_at(text, i)),
{
    let all = head + text;
    let at = head.len() + i;
    let e = lexeme_end(text, i);
    lemma_lexeme_end_bounds(text, i);
    assert(all[at] == text[i]);
    match shape(text[i]) {
        Shape::Run(run) => {
            lemma_run_end_after(head, text, i + 1, run);
        },
        Shape::Slash => {
            if i + 1 < text.len() {
                assert(all[at + 1] == text[i + 1]);
            }
        },
        _ => {},
    }
    assert(all.subrange(at, head.len() + e) =~= text.subrange(i, e));
    assert(all.take(at) =~= head + text.take(i));
    assert(all.take(head.len() + e - 1) =~= head + text.take(e - 1));
    lemma_newlines_concat(head, text.take(i));
    lemma_newlines_concat(head, text.take(e - 1));
    lemma_column_concat(head, text.take(i));
    lemma_column_concat(head, text.take(e - 1));
    lemma_position_bounds(head);
    lemma_position_bounds(text.take(i));
    lemma_position_bounds(text.take(e - 1));
    let mv = Move { by: head.len() as int, lines: newlines(head) as int };
    assert(span_of(all, at, head.len() + e) == mv.span(span_of(text, i, e)));
    assert(tokens_at(all, at) =~= mv.tokens(tokens_at(text, i)));
}

/// The tokens of a text are the same tokens, moved, with lines in front of
/// the text.
proof fn lemma_lex_after(head: Seq<char>, text: Seq<char>, i: int, n: int)
    requires
        0 <= i,
        n <= text.len(),
        head.len() > 0,
        head.last() == '\n',
        (head + text).len() <= usize::MAX,
    ensures
        lex_between(head + text, head.len() + i, head.len() + n) == (Move {
            by: head.len() as int,
            lines: newlines(head) as int,
        }).tokens(lex_between(text, i, n)),
    decreases
            (if i < n {
                n - i
            } else {
                0
            }),
{
    let mv = Move { by: head.len() as int, lines: newlines(head) as int };
    if i < n {
        lemma_lexeme_after(head, text, i);
        lemma_lexeme_end_bounds(text, i);
        let e = lexeme_end(text, i);
        lemma_lex_after(head, text, e, n);
        assert(mv.tokens(tokens_at(text, i) + lex_between(text, e, n)) =~= mv.tokens(
            tokens_at(text, i),
        ) + mv.tokens(lex_between(text, e, n)));
    } else {
        assert(mv.tokens(lex_between(text, i, n)) =~= Seq::<Token>::empty());
    }
}

/// A lexeme of lines is the same lexeme with a text behind the lines.
proof fn lemma_lexeme_before(head: Seq<char>, text: Seq<char>, i: int)
    requires
        0 <= i < head.len(),
        head.last() == '\n',
    ensures
        lexeme_end(head + text, i) == lexeme_end(head, i),
        tokens_at(head + text, i) == tokens_at(head, i),
{
    let all = head + text;
    let e = lexeme_end(head, i);
    lemma_lexeme_end_bounds(head, i);
    assert(head.is_prefix_of(all)) by {
        assert(head =~= all.subrange(0, head.len() as int));
    }
    if e < head.len() {
        if all.len() > head.len() {
            lemma_lexeme_stable(head, all, i);
        } else {
            assert(all =~= head);
        }
    } else {
        assert(all[i] == head[i]);
        match shape(head[i]) {
            Shape::Run(run) => {
                lemma_run_end_bounds(head, i + 1, run);
                if i + 1 < head.len() {
                    assert(continues(run, head[head.len() - 1]));
                }
            },
            Shape::Slash => {
                assert(all[i + 1] == head[i + 1]);
            },
            _ => {},
        }
        assert(all.take(i) =~= head.take(i));
        assert(all.take(e - 1) =~= head.take(e - 1));
        assert(all.subrange(i, e) =~= head.subrange(i, e));
    }
}

/// The tokens of lines are the same with a text behind the lines, and the
/// lines end where a lexeme ends.
proof fn lemma_lex_before(head: Seq<char>, text: Seq<char>, i: int)
    requires
        0 <= i <= head.len(),
        head.len() > 0,
        head.last() == '\n',
    ensures
        is_boundary(head + text, i, head.len() as int),
        lex_between(head + text, i, head.len() as int) == lex_between(head, i, head.len() as int),
    decreases head.len() - i,
{
    if i < head.len() {
        lemma_lexeme_before(head, text, i);
        lemma_lexeme_end_bounds(head, i);
        lemma_lex_before(head, text, lexeme_end(head, i));
    }
}

/// The tokens up to a boundary and the tokens from it on are the tokens.
pub proof fn lemma_lex_split(s: Seq<char>, i: int, n: int, m: int)
    requires
        0 <= i,
        is_boundary(s, i, n),
        n <= m,
    ensures
        lex_between(s, i, m) == lex_between(s, i, n) + lex_between(s, n, m),
    decreases n - i,
{
    if i == n {
        assert(lex_between(s, i, n) =~= Seq::<Token>::empty());
        assert(lex_between(s, i, m) =~= lex_between(s, i, n) + lex_between(s, n, m));
    } else {
        let e = lexeme_end(s, i);
        lemma_lex_split(s, e, n, m);
        assert(lex_between(s, i, m) =~= lex_between(s, i, n) + lex_between(s, n, m));
    }
}

/// Lexing goes line by line: the tokens of a text with lines in front of
/// it are the tokens of the lines, and then the tokens of the text, moved
/// on by the characters and the lines in front.
pub proof fn lemma_lex_lines_in_front(head: Seq<char>, text: Seq<char>)
    requires
        head.len() > 0,
        head.last() == '\n',
        (head + text).len() <= usize::MAX,
    ensures
        lex(head + text) == lex(head) + (Move {
            by: head.len() as int,
            lines: newlines(head) as int,
        }).tokens(lex(text)),
{
    let all = head + text;
    lemma_lex_before(head, text, 0);
    lemma_lex_split(all, 0, head.len() as int, all.len() as int);
    lemma_lex_after(head, text, 0, text.len() as int);
}

/// The words that the lexer knows, each with its kind.
pub proof fn lemma_keywords()
    ensures
        keyword_type("ld"@) == TokenType::Instruction,
        keyword_type("st"@) == TokenType::Instruction,
        keyword_type("jp"@) == TokenType::Instruction,
        keyword_type("sub"@) == TokenType::LabelSpecifier,
        keyword_type("pc"@) == TokenType::Register,
        keyword_type("sp"@) == TokenType::Register,
        keyword_type("a"@) == TokenType::Register,
        keyword_type("b"@) == TokenType::Register,
        keyword_type("c"@) == TokenType::Register,
        keyword_type("d"@) == TokenType::Register,
        keyword_type("e"@) == TokenType::Register,
        keyword_type("f"@) == TokenType::Register,
        keyword_type("h"@) == TokenType::Register,
        keyword_type("l"@) == TokenType::Register,
        keyword_type("ix"@) == TokenType::Register,
        keyword_type("iy"@) == TokenType::Register,
        keyword_type("i"@) == TokenType::Register,
        keyword_type("r"@) == TokenType::Register,
        keyword_type("def"@) == TokenType::DataDeclaration,
        keyword_type("rom"@) == TokenType::DataDeclaration,
{
    reveal_strlit("ld");
    assert("ld"@.len() == 2 && "ld"@[0] == 'l' && "ld"@[1] == 'd');
    reveal_strlit("st");
    assert("st"@.len() == 2 && "st"@[0] == 's' && "st"@[1] == 't');
    reveal_strlit("jp");
    assert("jp"@.len() == 2 && "jp"@[0] == 'j' && "jp"@[1] == 'p');
    reveal_strlit("sub");
    assert("sub"@.len() == 3 && "sub"@[0] == 's' && "sub"@[1] == 'u' && "sub"@[2] == 'b');
    reveal_strlit("pc");
    assert("pc"@.len() == 2 && "pc"@[0] == 'p' && "pc"@[1] == 'c');
    reveal_strlit("sp");
    assert("sp"@.len() == 2 && "sp"@[0] == 's' && "sp"@[1] == 'p');
    reveal_strlit("a");
    assert("a"@.len() == 1 && "a"@[0] == 'a');
    reveal_strlit("b");
    assert("b"@.len() == 1 && "b"@[0] == 'b');
    reveal_strlit("c");
    assert("c"@.len() == 1 && "c"@[0] == 'c');
    reveal_strlit("d");
    assert("d"@.len() == 1 && "d"@[0] == 'd');
    reveal_strlit("e");
    assert("e"@.len() == 1 && "e"@[0] == 'e');
    reveal_strlit("f");
    assert("f"@.len() == 1 && "f"@[0] == 'f');
    reveal_strlit("h");
    assert("h"@.len() == 1 && "h"@[0] == 'h');
    reveal_strlit("l");
    assert("l"@.len() == 1 && "l"@[0] == 'l');
    reveal_strlit("ix");
    assert("ix"@.len() == 2 && "ix"@[0] == 'i' && "ix"@[1] == 'x');
    reveal_strlit("iy");
    assert("iy"@.len() == 2 && "iy"@[0] == 'i' && "iy"@[1] == 'y');
    reveal_strlit("i");
    assert("i"@.len() == 1 && "i"@[0] == 'i');
    reveal_strlit("r");
    assert("r"@.len() == 1 && "r"@[0] == 'r');
    reveal_strlit("def");
    assert("def"@.len() == 3 && "def"@[0] == 'd' && "def"@[1] == 'e' && "def"@[2] == 'f');
    reveal_strlit("rom");
    assert("rom"@.len() == 3 && "rom"@[0] == 'r' && "rom"@[1] == 'o' && "rom"@[2] == 'm');
}

} // verus!
