//! Moving along the tokens.

use super::{Compiler, Cursor, State};
use crate::errors::{CompileError, Diagnostic};
use crate::tokenizer::{token_type_name, Token, TokenType};
use vstd::prelude::*;
use vstd::slice::slice_subrange;

verus! {

/// What is said where a token is wanted and none is left.
pub open spec fn end_of_input_text() -> Seq<char> {
    "Expected identifier, found EOF"@
}

/// What is said where a token of one kind is wanted and another is found.
pub open spec fn expected_text(target: TokenType, found: TokenType) -> Seq<char> {
    "Expected "@ + token_type_name(target) + ", found "@ + token_type_name(found)
}

impl Cursor {
    /// Past the first token.
    pub open spec fn skip(self) -> Cursor {
        Cursor { remaining: self.remaining.skip(1), latest_span: self.remaining[0].span }
    }

    /// Past every token up to the next line feed, which stays.
    pub open spec fn drop_line(self) -> Cursor
        decreases self.remaining.len(),
    {
        if self.remaining.len() > 0 && self.remaining[0].ty != TokenType::NewLine {
            self.skip().drop_line()
        } else {
            self
        }
    }

    /// Past a comment, if one starts here: up to the line feed that ends it.
    pub open spec fn skip_comment_line(self) -> Cursor {
        if self.remaining.len() > 0 && self.remaining[0].ty == TokenType::CommentLine {
            self.drop_line()
        } else {
            self
        }
    }

    /// The first token that is no comment, and the cursor in front of it.
    pub open spec fn peek(self) -> (Option<Token>, Cursor) {
        let c = self.skip_comment_line();
        if c.remaining.len() > 0 {
            (Some(c.remaining[0]), c)
        } else {
            (None, c)
        }
    }

    /// The first token that is no comment, and the cursor behind it.
    pub open spec fn next(self) -> (Option<Token>, Cursor) {
        let c = self.skip_comment_line();
        if c.remaining.len() > 0 {
            (Some(c.remaining[0]), c.skip())
        } else {
            (None, c)
        }
    }

    /// Past the line feeds that come next, and the comments among them.
    pub open spec fn skip_line_sep(self) -> Cursor
        decreases self.remaining.len(),
    {
        let c = self.skip_comment_line();
        if c.remaining.len() > 0 && c.remaining[0].ty == TokenType::NewLine && c.remaining.len()
            <= self.remaining.len() {
            c.skip().skip_line_sep()
        } else {
            c
        }
    }

    /// Past what is left of the line.
    pub open spec fn to_line_end(self) -> Cursor
        decreases self.remaining.len(),
    {
        let c = self.skip_comment_line();
        if c.remaining.len() > 0 && c.remaining[0].ty != TokenType::NewLine && c.remaining.len()
            <= self.remaining.len() {
            c.skip().to_line_end()
        } else {
            c
        }
    }

    /// To the start of the next line that holds anything: where parsing
    /// takes up again after an error.
    pub open spec fn next_reset(self) -> Cursor {
        self.to_line_end().skip_line_sep()
    }

    /// What is wrong with the token `found` where one of kind `target` is
    /// wanted; the cursor notes the token that was looked at.
    pub open spec fn expect(self, found: Option<Token>, target: TokenType) -> (
        Result<Token, Diagnostic>,
        Cursor,
    ) {
        match found {
            None => (
                Err(Diagnostic { message: end_of_input_text(), span: self.latest_span }),
                self,
            ),
            Some(token) => {
                let c = Cursor { latest_span: token.span, ..self };
                if token.ty != target {
                    (
                        Err(
                            Diagnostic {
                                message: expected_text(target, token.ty),
                                span: token.span,
                            },
                        ),
                        c,
                    )
                } else {
                    (Ok(token), c)
                }
            },
        }
    }

    /// The next token, which has to be of kind `target`, without passing it.
    pub open spec fn peek_token_with_type(self, target: TokenType) -> (
        Result<Token, Diagnostic>,
        Cursor,
    ) {
        let (found, c) = self.peek();
        c.expect(found, target)
    }

    /// The next token, which has to be of kind `target`; the cursor passes
    /// it whatever its kind.
    pub open spec fn read_token_with_type(self, target: TokenType) -> (
        Result<Token, Diagnostic>,
        Cursor,
    ) {
        let (found, c) = self.next();
        c.expect(found, target)
    }
}

/// Skipping never brings tokens back: what is left afterwards is an end
/// piece of what was left before.
pub proof fn lemma_drop_line(c: Cursor, text_len: nat)
    requires
        c.ok(text_len),
    ensures
        c.drop_line().ok(text_len),
        c.drop_line().remaining.len() <= c.remaining.len(),
        c.skip_comment_line().ok(text_len),
        c.skip_comment_line().remaining.len() <= c.remaining.len(),
        c.remaining.len() > 0 && c.remaining[0].ty == TokenType::CommentLine
            ==> c.skip_comment_line().remaining.len() < c.remaining.len(),
        c.drop_line().remaining.len() == 0 || c.drop_line().remaining[0].ty == TokenType::NewLine,
        c.skip_comment_line().skip_comment_line() == c.skip_comment_line(),
    decreases c.remaining.len(),
{
    if c.remaining.len() > 0 && c.remaining[0].ty != TokenType::NewLine {
        assert forall|i: int| 0 <= i < c.skip().remaining.len() implies super::span_ok(
            #[trigger] c.skip().remaining[i].span,
            text_len,
        ) by {
            assert(c.skip().remaining[i] == c.remaining[i + 1]);
        }
        lemma_drop_line(c.skip(), text_len);
    }
}

impl<'a> Compiler<'a> {
    /// The tokens left and the span noted belong to the text.
    pub open spec fn cursor_ok(&self) -> bool {
        self@.cursor.ok(self.text@.len())
    }

    /// Passes the first token.
    pub fn skip(&mut self)
        requires
            old(self).cursor_ok(),
            old(self).remaining_tokens@.len() > 0,
        ensures
            final(self).cursor_ok(),
            final(self)@ == (State { cursor: old(self)@.cursor.skip(), ..old(self)@ }),
            final(self).text == old(self).text,
    {
        self.latest_span = self.remaining_tokens[0].span.clone();
        let n = self.remaining_tokens.len();
        self.remaining_tokens = slice_subrange(self.remaining_tokens, 1, n);
        proof {
            assert(self.remaining_tokens@ =~= old(self).remaining_tokens@.skip(1));
            assert forall|i: int| 0 <= i < self.remaining_tokens@.len() implies super::span_ok(
                #[trigger] self.remaining_tokens@[i].span,
                self.text@.len(),
            ) by {
                assert(self.remaining_tokens@[i] == old(self).remaining_tokens@[i + 1]);
            }
        }
    }

    /// Passes a comment, if one starts here.
    pub fn skip_comment_line(&mut self)
        requires
            old(self).cursor_ok(),
        ensures
            final(self).cursor_ok(),
            final(self)@ == (State {
                cursor: old(self)@.cursor.skip_comment_line(),
                ..old(self)@
            }),
            final(self).text == old(self).text,
            final(self).remaining_tokens@.len() <= old(self).remaining_tokens@.len(),
    {
        if self.remaining_tokens.len() > 0 && self.remaining_tokens[0].ty
            == TokenType::CommentLine {
            while self.remaining_tokens.len() > 0 && self.remaining_tokens[0].ty
                != TokenType::NewLine
                invariant
                    self.cursor_ok(),
                    self.text == old(self).text,
                    self.remaining_tokens@.len() <= old(self).remaining_tokens@.len(),
                    self@.cursor.drop_line() == old(self)@.cursor.drop_line(),
                    self@ == (State { cursor: self@.cursor, ..old(self)@ }),
                decreases self.remaining_tokens@.len(),
            {
                self.skip();
            }
        }
    }

    /// The first token that is no comment.
    pub fn peek(&mut self) -> (r: Option<Token>)
        requires
            old(self).cursor_ok(),
        ensures
            final(self).cursor_ok(),
            r == old(self)@.cursor.peek().0,
            final(self)@ == (State { cursor: old(self)@.cursor.peek().1, ..old(self)@ }),
            final(self).text == old(self).text,
            final(self).remaining_tokens@.len() <= old(self).remaining_tokens@.len(),
            r is Some ==> final(self).remaining_tokens@.len() > 0,
            r is None ==> final(self).remaining_tokens@.len() == 0,
            final(self)@.cursor.peek() == (r, final(self)@.cursor),
    {
        proof {
            lemma_drop_line(self@.cursor, self.text@.len());
        }
        self.skip_comment_line();
        if self.remaining_tokens.len() > 0 {
            Some(self.remaining_tokens[0].clone())
        } else {
            None
        }
    }

    /// The first token that is no comment; the parser passes it.
    pub fn next(&mut self) -> (r: Option<Token>)
        requires
            old(self).cursor_ok(),
        ensures
            final(self).cursor_ok(),
            r == old(self)@.cursor.next().0,
            final(self)@ == (State { cursor: old(self)@.cursor.next().1, ..old(self)@ }),
            final(self).text == old(self).text,
            final(self).remaining_tokens@.len() <= old(self).remaining_tokens@.len(),
            r is Some ==> final(self).remaining_tokens@.len() < old(self).remaining_tokens@.len(),
    {
        self.skip_comment_line();
        if self.remaining_tokens.len() > 0 {
            let token = self.remaining_tokens[0].clone();
            self.skip();
            Some(token)
        } else {
            None
        }
    }

    /// Passes the line feeds that come next.
    pub fn skip_line_sep(&mut self)
        requires
            old(self).cursor_ok(),
        ensures
            final(self).cursor_ok(),
            final(self)@ == (State { cursor: old(self)@.cursor.skip_line_sep(), ..old(self)@ }),
            final(self).text == old(self).text,
            final(self).remaining_tokens@.len() <= old(self).remaining_tokens@.len(),
            old(self)@.cursor.peek().0 matches Some(token) && token.ty == TokenType::NewLine
                ==> final(self).remaining_tokens@.len() < old(self).remaining_tokens@.len(),
    {
        loop
            invariant_except_break
                self@.cursor.skip_line_sep() == old(self)@.cursor.skip_line_sep(),
            invariant
                self.cursor_ok(),
                self.text == old(self).text,
                self.remaining_tokens@.len() <= old(self).remaining_tokens@.len(),
                self@ == (State { cursor: self@.cursor, ..old(self)@ }),
                self.remaining_tokens@.len() == old(self).remaining_tokens@.len() ==> self@.cursor
                    == old(self)@.cursor,
            ensures
                self.cursor_ok(),
                self.text == old(self).text,
                self.remaining_tokens@.len() <= old(self).remaining_tokens@.len(),
                self@ == (State { cursor: old(self)@.cursor.skip_line_sep(), ..old(self)@ }),
                old(self)@.cursor.peek().0 matches Some(token) && token.ty == TokenType::NewLine
                    ==> self.remaining_tokens@.len() < old(self).remaining_tokens@.len(),
            decreases self.remaining_tokens@.len(),
        {
            proof {
                lemma_drop_line(self@.cursor, self.text@.len());
            }
            let is_line_feed = match self.peek() {
                Some(token) => token.ty == TokenType::NewLine,
                None => false,
            };
            if !is_line_feed {
                break ;
            }
            self.skip();
        }
    }

    /// Gives up the line: passes what is left of it and the line feeds
    /// behind it.
    pub fn next_reset(&mut self)
        requires
            old(self).cursor_ok(),
        ensures
            final(self).cursor_ok(),
            final(self)@ == (State { cursor: old(self)@.cursor.next_reset(), ..old(self)@ }),
            final(self).text == old(self).text,
            final(self).remaining_tokens@.len() <= old(self).remaining_tokens@.len(),
            old(self)@.cursor.peek().0 is Some ==> final(self).remaining_tokens@.len() < old(self).remaining_tokens@.len(),
    {
        loop
            invariant_except_break
                self@.cursor.to_line_end() == old(self)@.cursor.to_line_end(),
            invariant
                self.cursor_ok(),
                self.text == old(self).text,
                self.remaining_tokens@.len() <= old(self).remaining_tokens@.len(),
                self@ == (State { cursor: self@.cursor, ..old(self)@ }),
                self.remaining_tokens@.len() == old(self).remaining_tokens@.len() ==> self@.cursor
                    == old(self)@.cursor,
            ensures
                self.cursor_ok(),
                self.text == old(self).text,
                self.remaining_tokens@.len() <= old(self).remaining_tokens@.len(),
                self@ == (State { cursor: old(self)@.cursor.to_line_end(), ..old(self)@ }),
                self.remaining_tokens@.len() == old(self).remaining_tokens@.len() ==> (
                old(self)@.cursor.peek().0 matches Some(token) ==> token.ty == TokenType::NewLine
                    && self@.cursor.peek().0 == Some(token)),
            decreases self.remaining_tokens@.len(),
        {
            proof {
                lemma_drop_line(self@.cursor, self.text@.len());
            }
            let goes_on = match self.peek() {
                Some(token) => token.ty != TokenType::NewLine,
                None => false,
            };
            if !goes_on {
                break ;
            }
            self.skip();
        }
        self.skip_line_sep();
    }

    /// The diagnostic for a token that is not the one wanted.
    fn check_type(&mut self, found: Option<Token>, target: TokenType) -> (r: Result<
        Token,
        CompileError,
    >)
        requires
            old(self).cursor_ok(),
            found matches Some(token) ==> super::span_ok(token.span, old(self).text@.len()),
        ensures
            final(self).cursor_ok(),
            crate::errors::lift(r) == old(self)@.cursor.expect(found, target).0,
            final(self)@ == (State {
                cursor: old(self)@.cursor.expect(found, target).1,
                ..old(self)@
            }),
            final(self).text == old(self).text,
            final(self).remaining_tokens == old(self).remaining_tokens,
    {
        let token = match found {
            Some(token) => token,
            None => {
                return Err(
                    CompileError {
                        message: String::from_str("Expected identifier, found EOF"),
                        span: self.latest_span.clone(),
                    },
                );
            },
        };
        self.latest_span = token.span.clone();
        if token.ty != target {
            let mut message = String::from_str("Expected ");
            message.append(target.name());
            message.append(", found ");
            message.append(token.ty.name());
            return Err(CompileError { message, span: token.span });
        }
        Ok(token)
    }

    /// The next token, which has to be of kind `target`, without passing it.
    pub fn peek_token_with_type(&mut self, target: TokenType) -> (r: Result<Token, CompileError>)
        requires
            old(self).cursor_ok(),
        ensures
            final(self).cursor_ok(),
            crate::errors::lift(r) == old(self)@.cursor.peek_token_with_type(target).0,
            final(self)@ == (State {
                cursor: old(self)@.cursor.peek_token_with_type(target).1,
                ..old(self)@
            }),
            final(self).text == old(self).text,
            final(self).remaining_tokens@.len() <= old(self).remaining_tokens@.len(),
            r is Ok ==> final(self).remaining_tokens@.len() > 0,
    {
        let found = self.peek();
        self.check_type(found, target)
    }

    /// The next token, which has to be of kind `target`; the parser passes
    /// it whatever its kind.
    pub fn read_token_with_type(&mut self, target: TokenType) -> (r: Result<Token, CompileError>)
        requires
            old(self).cursor_ok(),
        ensures
            final(self).cursor_ok(),
            crate::errors::lift(r) == old(self)@.cursor.read_token_with_type(target).0,
            final(self)@ == (State {
                cursor: old(self)@.cursor.read_token_with_type(target).1,
                ..old(self)@
            }),
            final(self).text == old(self).text,
            final(self).remaining_tokens@.len() <= old(self).remaining_tokens@.len(),
            r is Ok || old(self)@.cursor.peek().0 is Some ==> final(self).remaining_tokens@.len()
                < old(self).remaining_tokens@.len(),
    {
        let found = self.next();
        self.check_type(found, target)
    }
}

} // verus!
