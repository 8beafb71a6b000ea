//! A program moved as a whole: what the parser makes of tokens whose spans
//! all lie a fixed distance further on in a longer text. And with that, an
//! origin pragma in front of a program.

use super::compiler_context::{apply, attempt, demand_of, Context, Resolution, Write};
use super::engine::{all_unresolved, emit_from, resolve, sweep, sweep_from};
use super::impl_read_tokens::literal_of;
use super::impl_sections::ld_span;
use super::types::{Register, Target};
use super::laws::{
    is_origin_line, lemma_items_forget_span, lemma_origin_at_start,
    lemma_skip_line_sep_forgets_span,
};
use super::{compile_spec, initial_state, Cursor, Outcome, State};
use crate::errors::Diagnostic;
use crate::char_reader::{lemma_position_bounds, newlines};
use crate::tokenizer::laws::{lemma_lex_lines_in_front, lemma_tokens_on_one_line, Move};
use crate::text::{alphabetic, lowercase, numeric, to_lowercase};
use crate::tokenizer::{
    classify, keyword_type, lemma_run_end_exact, lex, lex_between, lexeme_end, shape, span_of,
    tokens_at, Run, Shape, Token, TokenType,
};
use crate::Span;
use vstd::prelude::*;

verus! {

impl Move {
    /// The diagnostic moved.
    pub open spec fn diagnostic(self, d: Diagnostic) -> Diagnostic {
        Diagnostic { message: d.message, span: self.span(d.span) }
    }

    /// The diagnostics moved.
    pub open spec fn diagnostics(self, errors: Seq<Diagnostic>) -> Seq<Diagnostic> {
        Seq::new(errors.len(), |i: int| self.diagnostic(errors[i]))
    }

    /// The cursor moved.
    pub open spec fn cursor(self, c: Cursor) -> Cursor {
        Cursor { remaining: self.tokens(c.remaining), latest_span: self.span(c.latest_span) }
    }

    /// The write moved: the place where it refers to its symbol.
    pub open spec fn write(self, op: Write) -> Write {
        match op {
            Write::Absolute { opcode, symbol, span } => Write::Absolute {
                opcode,
                symbol,
                span: self.span(span),
            },
            Write::Word { symbol, span } => Write::Word { symbol, span: self.span(span) },
            other => other,
        }
    }

    /// The writes moved.
    pub open spec fn writes(self, writes: Seq<Write>) -> Seq<Write> {
        Seq::new(writes.len(), |i: int| self.write(writes[i]))
    }

    /// The resolution moved: the place of its name.
    pub open spec fn resolution(self, r: Resolution) -> Resolution {
        match r {
            Resolution::Define { name, value, span } => Resolution::Define {
                name,
                value,
                span: self.span(span),
            },
            Resolution::Require { name, span } => Resolution::Require {
                name,
                span: self.span(span),
            },
        }
    }

    /// The resolutions moved.
    pub open spec fn resolutions(self, queue: Seq<Resolution>) -> Seq<Resolution> {
        Seq::new(queue.len(), |i: int| self.resolution(queue[i]))
    }

    /// The outcome moved: the same image, or the diagnostics moved.
    pub open spec fn outcome(self, outcome: Outcome) -> Outcome {
        match outcome {
            Outcome::Done(image) => Outcome::Done(image),
            Outcome::Failed(errors) => Outcome::Failed(self.diagnostics(errors)),
        }
    }

    /// The parser moved.
    pub open spec fn state(self, st: State) -> State {
        State {
            cursor: self.cursor(st.cursor),
            errors: self.diagnostics(st.errors),
            writes: self.writes(st.writes),
            resolutions: self.resolutions(st.resolutions),
            ..st
        }
    }

    /// A result with its diagnostic moved.
    pub open spec fn result<T>(self, r: Result<T, Diagnostic>) -> Result<T, Diagnostic> {
        match r {
            Ok(v) => Ok(v),
            Err(d) => Err(self.diagnostic(d)),
        }
    }

    /// A token read, moved, or the diagnostic moved.
    pub open spec fn token_result(self, r: Result<Token, Diagnostic>) -> Result<Token, Diagnostic> {
        match r {
            Ok(t) => Ok(self.token(t)),
            Err(d) => Err(self.diagnostic(d)),
        }
    }

    /// A token found, moved.
    pub open spec fn found(self, t: Option<Token>) -> Option<Token> {
        match t {
            Some(t) => Some(self.token(t)),
            None => None,
        }
    }

    /// The cursor can be moved.
    pub open spec fn fits(self, c: Cursor, len: nat) -> bool {
        &&& self.fits_span(c.latest_span, len)
        &&& forall|i: int|
            0 <= i < c.remaining.len() ==> self.fits_span(#[trigger] c.remaining[i].span, len)
    }
}

/// Moving commutes with passing a token.
pub proof fn lemma_moved_skip(mv: Move, c: Cursor, len: nat)
    requires
        mv.fits(c, len),
        c.remaining.len() > 0,
    ensures
        mv.cursor(c).skip() == mv.cursor(c.skip()),
        mv.fits(c.skip(), len),
{
    assert(mv.tokens(c.remaining).skip(1) =~= mv.tokens(c.remaining.skip(1)));
    assert forall|i: int| 0 <= i < c.skip().remaining.len() implies mv.fits_span(
        #[trigger] c.skip().remaining[i].span,
        len,
    ) by {
        assert(c.skip().remaining[i] == c.remaining[i + 1]);
    }
}

/// Moving commutes with passing a line, and with passing a comment.
pub proof fn lemma_moved_drop_line(mv: Move, c: Cursor, len: nat)
    requires
        mv.fits(c, len),
    ensures
        mv.cursor(c).drop_line() == mv.cursor(c.drop_line()),
        mv.fits(c.drop_line(), len),
        mv.cursor(c).skip_comment_line() == mv.cursor(c.skip_comment_line()),
        mv.fits(c.skip_comment_line(), len),
        c.drop_line().remaining.len() <= c.remaining.len(),
        c.skip_comment_line().remaining.len() <= c.remaining.len(),
    decreases c.remaining.len(),
{
    if c.remaining.len() > 0 && c.remaining[0].ty != TokenType::NewLine {
        lemma_moved_skip(mv, c, len);
        lemma_moved_drop_line(mv, c.skip(), len);
    }
}

/// Moving commutes with looking at the next token, and with reading it.
pub proof fn lemma_moved_peek(mv: Move, c: Cursor, len: nat)
    requires
        mv.fits(c, len),
    ensures
        mv.cursor(c).peek() == (mv.found(c.peek().0), mv.cursor(c.peek().1)),
        mv.fits(c.peek().1, len),
        mv.cursor(c).next() == (mv.found(c.next().0), mv.cursor(c.next().1)),
        mv.fits(c.next().1, len),
        c.peek().0 matches Some(t) ==> mv.fits_span(t.span, len),
{
    lemma_moved_drop_line(mv, c, len);
    let k = c.skip_comment_line();
    if k.remaining.len() > 0 {
        lemma_moved_skip(mv, k, len);
    }
}

/// Moving commutes with passing line feeds, and with giving up a line.
pub proof fn lemma_moved_skip_line_sep(mv: Move, c: Cursor, len: nat)
    requires
        mv.fits(c, len),
    ensures
        mv.cursor(c).skip_line_sep() == mv.cursor(c.skip_line_sep()),
        mv.fits(c.skip_line_sep(), len),
    decreases c.remaining.len(),
{
    lemma_moved_drop_line(mv, c, len);
    let k = c.skip_comment_line();
    if k.remaining.len() > 0 && k.remaining[0].ty == TokenType::NewLine {
        lemma_moved_skip(mv, k, len);
        lemma_moved_skip_line_sep(mv, k.skip(), len);
    }
}

pub proof fn lemma_moved_to_line_end(mv: Move, c: Cursor, len: nat)
    requires
        mv.fits(c, len),
    ensures
        mv.cursor(c).to_line_end() == mv.cursor(c.to_line_end()),
        mv.fits(c.to_line_end(), len),
        mv.cursor(c).next_reset() == mv.cursor(c.next_reset()),
        mv.fits(c.next_reset(), len),
    decreases c.remaining.len(),
{
    lemma_moved_drop_line(mv, c, len);
    let k = c.skip_comment_line();
    if k.remaining.len() > 0 && k.remaining[0].ty != TokenType::NewLine {
        lemma_moved_skip(mv, k, len);
        lemma_moved_to_line_end(mv, k.skip(), len);
    }
    lemma_moved_skip_line_sep(mv, c.to_line_end(), len);
}

/// Moving commutes with reading a token of a given kind.
pub proof fn lemma_moved_read_token(mv: Move, c: Cursor, len: nat, target: TokenType)
    requires
        mv.fits(c, len),
    ensures
        mv.cursor(c).peek_token_with_type(target) == (
            mv.token_result(c.peek_token_with_type(target).0),
            mv.cursor(c.peek_token_with_type(target).1),
        ),
        mv.fits(c.peek_token_with_type(target).1, len),
        mv.cursor(c).read_token_with_type(target) == (
            mv.token_result(c.read_token_with_type(target).0),
            mv.cursor(c.read_token_with_type(target).1),
        ),
        mv.fits(c.read_token_with_type(target).1, len),
        c.peek_token_with_type(target).0 matches Ok(t) ==> mv.fits_span(t.span, len),
        c.read_token_with_type(target).0 matches Ok(t) ==> mv.fits_span(t.span, len),
{
    lemma_moved_peek(mv, c, len);
}

/// The characters that a moved span cuts from a text with `head` in front
/// are those that the span cuts from the text.
pub proof fn lemma_moved_cut(mv: Move, span: Span, head: Seq<char>, text: Seq<char>)
    requires
        mv.fits_span(span, text.len()),
        mv.by == head.len(),
    ensures
        mv.span(span).cut(head + text) == span.cut(text),
        mv.span(span).fits((head + text).len()),
{
    assert(mv.span(span).cut(head + text) =~= span.cut(text));
}

/// Moving commutes with reading a name, a mnemonic, a register, a number.
pub proof fn lemma_moved_read_word(
    mv: Move,
    c: Cursor,
    head: Seq<char>,
    text: Seq<char>,
)
    requires
        mv.fits(c, text.len()),
        mv.by == head.len(),
    ensures
        mv.cursor(c).read_ident(head + text) == (
            mv.result(c.read_ident(text).0),
            mv.cursor(c.read_ident(text).1),
        ),
        mv.fits(c.read_ident(text).1, text.len()),
        mv.cursor(c).peek_ident(head + text) == (
            mv.result(c.peek_ident(text).0),
            mv.cursor(c.peek_ident(text).1),
        ),
        mv.fits(c.peek_ident(text).1, text.len()),
        mv.cursor(c).read_instruction(head + text) == (
            mv.result(c.read_instruction(text).0),
            mv.cursor(c.read_instruction(text).1),
        ),
        mv.fits(c.read_instruction(text).1, text.len()),
        mv.cursor(c).peek_register(head + text) == (
            mv.result(c.peek_register(text).0),
            mv.cursor(c.peek_register(text).1),
        ),
        mv.fits(c.peek_register(text).1, text.len()),
        mv.cursor(c).read_register(head + text) == (
            mv.result(c.read_register(text).0),
            mv.cursor(c.read_register(text).1),
        ),
        mv.fits(c.read_register(text).1, text.len()),
{
    let len = text.len();
    lemma_moved_read_token(mv, c, len, TokenType::Identifier);
    lemma_moved_read_token(mv, c, len, TokenType::Instruction);
    lemma_moved_read_token(mv, c, len, TokenType::Register);
    if let Ok(t) = c.read_token_with_type(TokenType::Identifier).0 {
        lemma_moved_cut(mv, t.span, head, text);
    }
    if let Ok(t) = c.peek_token_with_type(TokenType::Identifier).0 {
        lemma_moved_cut(mv, t.span, head, text);
    }
    if let Ok(t) = c.read_token_with_type(TokenType::Instruction).0 {
        lemma_moved_cut(mv, t.span, head, text);
    }
    if let Ok(t) = c.peek_token_with_type(TokenType::Register).0 {
        lemma_moved_cut(mv, t.span, head, text);
        let k = c.peek_token_with_type(TokenType::Register).1;
        lemma_moved_skip(mv, k, len);
    }
}

/// Moving commutes with reading a number.
pub proof fn lemma_moved_read_literal(mv: Move, c: Cursor, head: Seq<char>, text: Seq<char>)
    requires
        mv.fits(c, text.len()),
        mv.by == head.len(),
    ensures
        mv.cursor(c).peek_literal(head + text) == (
            mv.result(c.peek_literal(text).0),
            mv.cursor(c.peek_literal(text).1),
        ),
        mv.fits(c.peek_literal(text).1, text.len()),
        mv.cursor(c).read_literal(head + text) == (
            mv.result(c.read_literal(text).0),
            mv.cursor(c.read_literal(text).1),
        ),
        mv.fits(c.read_literal(text).1, text.len()),
{
    let len = text.len();
    lemma_moved_peek(mv, c, len);
    if let Some(t) = c.peek().0 {
        lemma_moved_cut(mv, t.span, head, text);
        assert(literal_of(mv.token(t), head + text) == mv.result(literal_of(t, text)));
        let k = c.peek_literal(text).1;
        if k.remaining.len() > 0 {
            lemma_moved_skip(mv, k, len);
        }
    }
}

/// Moving commutes with reading an operand.
pub proof fn lemma_moved_read_data_target(mv: Move, c: Cursor, head: Seq<char>, text: Seq<char>)
    requires
        mv.fits(c, text.len()),
        mv.by == head.len(),
    ensures
        mv.cursor(c).read_data_target(head + text) == (
            mv.result(c.read_data_target(text).0),
            mv.cursor(c.read_data_target(text).1),
        ),
        mv.fits(c.read_data_target(text).1, text.len()),
{
    let len = text.len();
    lemma_moved_read_word(mv, c, head, text);
    let (register, c1) = c.peek_register(text);
    if register is Ok {
        lemma_moved_read_word(mv, c1, head, text);
    } else {
        lemma_moved_read_literal(mv, c1, head, text);
        let (literal, c2) = c1.peek_literal(text);
        if literal is Ok {
            lemma_moved_read_literal(mv, c2, head, text);
            let (literal, c3) = c2.read_literal(text);
            lemma_moved_star(mv, c3, len);
        } else {
            lemma_moved_read_word(mv, c2, head, text);
            let (ident, c3) = c2.peek_ident(text);
            if ident is Ok {
                lemma_moved_read_word(mv, c3, head, text);
                let (ident, c4) = c3.read_ident(text);
                lemma_moved_star(mv, c4, len);
            }
        }
    }
}

/// Moving commutes with passing a `*`.
pub proof fn lemma_moved_star(mv: Move, c: Cursor, len: nat)
    requires
        mv.fits(c, len),
    ensures
        mv.cursor(c).read_star() == (c.read_star().0, mv.cursor(c.read_star().1)),
        mv.fits(c.read_star().1, len),
{
    lemma_moved_peek(mv, c, len);
    let k = c.peek().1;
    if k.remaining.len() > 0 {
        lemma_moved_skip(mv, k, len);
    }
}

/// Moving commutes with recording a diagnostic.
pub proof fn lemma_moved_report(mv: Move, st: State, d: Diagnostic)
    ensures
        mv.state(st.report(d)) == mv.state(st).report(mv.diagnostic(d)),
{
    assert(mv.diagnostics(st.errors.push(d)) =~= mv.diagnostics(st.errors).push(mv.diagnostic(d)));
}

/// Moving commutes with giving up a line over a diagnostic.
pub proof fn lemma_moved_fail(mv: Move, st: State, d: Diagnostic, len: nat)
    requires
        mv.fits(st.cursor, len),
    ensures
        mv.state(st.fail(d)) == mv.state(st).fail(mv.diagnostic(d)),
        mv.fits(st.fail(d).cursor, len),
{
    assert(mv.diagnostics(st.errors.push(d)) =~= mv.diagnostics(st.errors).push(mv.diagnostic(d)));
    lemma_moved_to_line_end(mv, st.cursor, len);
}

/// Moving commutes with putting off a write.
pub proof fn lemma_moved_emit(mv: Move, st: State, op: Write, len: nat)
    requires
        mv.fits(st.cursor, len),
    ensures
        mv.state(st.emit(op)) == mv.state(st).emit(mv.write(op)),
        mv.fits(st.emit(op).cursor, len),
        mv.state(st.write(op)) == mv.state(st).write(mv.write(op)),
        st.write(op).cursor == st.cursor,
{
    lemma_moved_fail(
        mv,
        st,
        Diagnostic { message: super::out_of_space_text(), span: st.cursor.latest_span },
        len,
    );
    assert(mv.writes(st.writes.push(op)) =~= mv.writes(st.writes).push(mv.write(op)));
    if let Some(demand) = demand_of(op) {
        assert(demand_of(mv.write(op)) == Some(mv.resolution(demand)));
        assert(mv.resolutions(st.resolutions.push(demand)) =~= mv.resolutions(
            st.resolutions,
        ).push(mv.resolution(demand)));
    }
}

/// Moving commutes with putting off a resolution.
pub proof fn lemma_moved_resolution(mv: Move, st: State, r: Resolution)
    ensures
        mv.state(st.resolution(r)) == mv.state(st).resolution(mv.resolution(r)),
{
    assert(mv.resolutions(st.resolutions.push(r)) =~= mv.resolutions(st.resolutions).push(
        mv.resolution(r),
    ));
}

/// A sweep over a queue moved keeps and defines what the sweep over the
/// queue does: the places play no part in it.
pub proof fn lemma_moved_sweep(
    mv: Move,
    queue: Seq<Resolution>,
    i: int,
    kept: Seq<Resolution>,
    table: Map<Seq<char>, u16>,
)
    requires
        0 <= i <= queue.len(),
    ensures
        sweep_from(mv.resolutions(queue), i, mv.resolutions(kept), table) == (
            mv.resolutions(sweep_from(queue, i, kept, table).0),
            sweep_from(queue, i, kept, table).1,
        ),
    decreases queue.len() - i,
{
    if i < queue.len() {
        let (done, next) = attempt(queue[i], table);
        assert(attempt(mv.resolution(queue[i]), table) == (done, next));
        let kept2 = if done {
            kept
        } else {
            kept.push(queue[i])
        };
        assert(mv.resolutions(kept.push(queue[i])) =~= mv.resolutions(kept).push(
            mv.resolution(queue[i]),
        ));
        lemma_moved_sweep(mv, queue, i + 1, kept2, next);
    }
}

/// Resolving a queue moved leaves the same table, and the same resolutions
/// stalled, moved.
pub proof fn lemma_moved_resolve(mv: Move, queue: Seq<Resolution>, table: Map<Seq<char>, u16>)
    ensures
        resolve(mv.resolutions(queue), table) == (
            mv.resolutions(resolve(queue, table).0),
            resolve(queue, table).1,
        ),
    decreases queue.len(),
{
    if queue.len() > 0 {
        assert(mv.resolutions(Seq::<Resolution>::empty()) =~= Seq::<Resolution>::empty());
        lemma_moved_sweep(mv, queue, 0, Seq::empty(), table);
        let (kept, next) = sweep(queue, table);
        if kept.len() < queue.len() {
            lemma_moved_resolve(mv, kept, next);
        }
    }
}

/// The writes moved make the same image.
pub proof fn lemma_moved_emit_from(mv: Move, writes: Seq<Write>, i: int, ctx: Context)
    requires
        0 <= i,
    ensures
        emit_from(mv.writes(writes), i, ctx) == emit_from(writes, i, ctx),
    decreases writes.len() - i,
{
    if i < writes.len() {
        assert(apply(mv.write(writes[i]), ctx) == apply(writes[i], ctx));
        lemma_moved_emit_from(mv, writes, i + 1, apply(writes[i], ctx));
    }
}

/// A parser moved comes to the outcome moved: the same image, or the same
/// diagnostics at the places moved.
pub proof fn lemma_moved_finish(mv: Move, st: State)
    ensures
        mv.state(st).finish() == mv.outcome(st.finish()),
        same_outcome(st.finish(), mv.state(st).finish()),
{
    lemma_moved_resolve(mv, st.resolutions, Map::empty());
    let (stalled, table) = resolve(st.resolutions, Map::empty());
    assert(all_unresolved(mv.resolutions(stalled)) =~= mv.diagnostics(all_unresolved(stalled)));
    lemma_moved_emit_from(
        mv,
        st.writes,
        0,
        Context { address: 0, binary: Seq::empty(), table },
    );
}

/// Moving commutes with encoding `ld`.
pub proof fn lemma_moved_encode_ld(
    mv: Move,
    st: State,
    len: nat,
    to: Target,
    from: Target,
    start: Span,
)
    requires
        mv.fits(st.cursor, len),
        mv.fits_span(start, len),
    ensures
        mv.state(st).encode_ld(to, from, mv.span(start)) == mv.state(
            st.encode_ld(to, from, start),
        ),
        mv.fits(st.encode_ld(to, from, start).cursor, len),
{
    assert(mv.span(ld_span(start, st.cursor.latest_span)) == ld_span(
        mv.span(start),
        mv.span(st.cursor.latest_span),
    ));
    assert forall|d: Diagnostic| mv.state(#[trigger] st.fail(d)) == mv.state(st).fail(
        mv.diagnostic(d),
    ) && mv.fits(st.fail(d).cursor, len) by {
        lemma_moved_fail(mv, st, d, len);
    }
    assert forall|op: Write| mv.state(#[trigger] st.emit(op)) == mv.state(st).emit(mv.write(op))
        && mv.fits(st.emit(op).cursor, len) by {
        lemma_moved_emit(mv, st, op, len);
    }
}

/// Moving commutes with reading the operands of `ld`.
pub proof fn lemma_moved_ld(mv: Move, st: State, head: Seq<char>, text: Seq<char>)
    requires
        mv.fits(st.cursor, text.len()),
        mv.by == head.len(),
    ensures
        mv.state(st).read_ld(head + text) == mv.state(st.read_ld(text)),
        mv.fits(st.read_ld(text).cursor, text.len()),
{
    let len = text.len();
    let c = st.cursor;
    lemma_moved_read_data_target(mv, c, head, text);
    let (to, c1) = c.read_data_target(text);
    match to {
        Err(d) => {
            lemma_moved_fail(mv, st.with_cursor(c1), d, len);
        },
        Ok(to) => {
            lemma_moved_read_token(mv, c1, len, TokenType::Comma);
            let (comma, c2) = c1.read_token_with_type(TokenType::Comma);
            match comma {
                Err(d) => {
                    lemma_moved_fail(mv, st.with_cursor(c2), d, len);
                },
                Ok(_) => {
                    lemma_moved_read_data_target(mv, c2, head, text);
                    let (from, c3) = c2.read_data_target(text);
                    match from {
                        Err(d) => {
                            lemma_moved_fail(mv, st.with_cursor(c3), d, len);
                        },
                        Ok(from) => {
                            lemma_moved_encode_ld(
                                mv,
                                st.with_cursor(c3),
                                len,
                                to,
                                from,
                                c.latest_span,
                            );
                        },
                    }
                },
            }
        },
    }
}

/// Moving commutes with reading the label of `jp`.
pub proof fn lemma_moved_jp(mv: Move, st: State, head: Seq<char>, text: Seq<char>)
    requires
        mv.fits(st.cursor, text.len()),
        mv.by == head.len(),
    ensures
        mv.state(st).read_jp(head + text) == mv.state(st.read_jp(text)),
        mv.fits(st.read_jp(text).cursor, text.len()),
{
    let len = text.len();
    lemma_moved_read_word(mv, st.cursor, head, text);
    let (target, c) = st.cursor.read_ident(text);
    match target {
        Err(d) => {
            lemma_moved_fail(mv, st.with_cursor(c), d, len);
        },
        Ok(name) => {
            lemma_moved_emit(
                mv,
                st.with_cursor(c),
                Write::Absolute { opcode: 0xC3, symbol: name, span: c.latest_span },
                len,
            );
        },
    }
}

/// Moving commutes with reading an instruction.
pub proof fn lemma_moved_instruction_line(mv: Move, st: State, head: Seq<char>, text: Seq<char>)
    requires
        mv.fits(st.cursor, text.len()),
        mv.by == head.len(),
    ensures
        mv.state(st).read_instruction_line(head + text) == mv.state(
            st.read_instruction_line(text),
        ),
        mv.fits(st.read_instruction_line(text).cursor, text.len()),
{
    let len = text.len();
    lemma_moved_read_word(mv, st.cursor, head, text);
    let (mnemonic, c) = st.cursor.read_instruction(text);
    match mnemonic {
        Err(d) => {
            lemma_moved_fail(mv, st.with_cursor(c), d, len);
        },
        Ok(word) => {
            if word == "ld"@ {
                lemma_moved_ld(mv, st.with_cursor(c), head, text);
            } else if word == "jp"@ {
                lemma_moved_jp(mv, st.with_cursor(c), head, text);
            } else {
                lemma_moved_fail(
                    mv,
                    st.with_cursor(c),
                    Diagnostic {
                        message: super::impl_sections::unknown_mnemonic_text(word),
                        span: c.latest_span,
                    },
                    len,
                );
            }
        },
    }
}

/// Moving commutes with reading the lines of a block.
pub proof fn lemma_moved_block_lines(mv: Move, st: State, head: Seq<char>, text: Seq<char>)
    requires
        mv.fits(st.cursor, text.len()),
        mv.by == head.len(),
    ensures
        mv.state(st).read_block_lines(head + text) == mv.state(st.read_block_lines(text)),
        mv.fits(st.read_block_lines(text).cursor, text.len()),
    decreases st.cursor.remaining.len(),
{
    let len = text.len();
    lemma_moved_peek(mv, st.cursor, len);
    let (found, c) = st.cursor.peek();
    if let Some(token) = found {
        if token.ty == TokenType::ClosingCurly {
            lemma_moved_skip(mv, c, len);
        } else {
            lemma_moved_instruction_line(mv, st.with_cursor(c), head, text);
            let line = st.with_cursor(c).read_instruction_line(text);
            lemma_moved_skip_line_sep(mv, line.cursor, len);
            let next = line.with_cursor(line.cursor.skip_line_sep());
            if next.cursor.remaining.len() < st.cursor.remaining.len() {
                lemma_moved_block_lines(mv, next, head, text);
            }
        }
    }
}

/// Moving commutes with reading a block.
pub proof fn lemma_moved_block(mv: Move, st: State, head: Seq<char>, text: Seq<char>)
    requires
        mv.fits(st.cursor, text.len()),
        mv.by == head.len(),
    ensures
        mv.state(st).read_block(head + text) == mv.state(st.read_block(text)),
        mv.fits(st.read_block(text).cursor, text.len()),
{
    let len = text.len();
    lemma_moved_read_token(mv, st.cursor, len, TokenType::OpeningCurly);
    let (open, c) = st.cursor.read_token_with_type(TokenType::OpeningCurly);
    match open {
        Err(d) => {
            lemma_moved_fail(mv, st.with_cursor(c), d, len);
        },
        Ok(_) => {
            lemma_moved_skip_line_sep(mv, c, len);
            lemma_moved_block_lines(mv, st.with_cursor(c.skip_line_sep()), head, text);
        },
    }
}

/// Moving commutes with recording the addresses of a subroutine.
pub proof fn lemma_moved_close_subroutine(
    mv: Move,
    st: State,
    name: Seq<char>,
    start: u16,
    name_span: Span,
)
    ensures
        mv.state(st).close_subroutine(name, start, mv.span(name_span)) == mv.state(
            st.close_subroutine(name, start, name_span),
        ),
        st.close_subroutine(name, start, name_span).cursor == st.cursor,
{
    let (existing, reserved) = st.reserve_area(name, start, st.address);
    if let Some(other) = existing {
        lemma_moved_report(
            mv,
            reserved,
            Diagnostic {
                message: super::impl_sections::overlap_text(name, other),
                span: name_span,
            },
        );
    }
}

/// Moving commutes with reading a subroutine.
pub proof fn lemma_moved_label_block(mv: Move, st: State, head: Seq<char>, text: Seq<char>)
    requires
        mv.fits(st.cursor, text.len()),
        mv.by == head.len(),
    ensures
        mv.state(st).read_label_block(head + text) == mv.state(st.read_label_block(text)),
        mv.fits(st.read_label_block(text).cursor, text.len()),
{
    let len = text.len();
    lemma_moved_peek(mv, st.cursor, len);
    let (specifier, c) = st.cursor.next();
    if let Some(token) = specifier {
        lemma_moved_cut(mv, token.span, head, text);
        let word = token.span.cut(text);
        if word == "sub"@ {
            lemma_moved_read_word(mv, c, head, text);
            let (name, c2) = c.read_ident(text);
            match name {
                Err(d) => {
                    lemma_moved_fail(mv, st.with_cursor(c2), d, len);
                },
                Ok(name) => {
                    let define = Resolution::Define {
                        name,
                        value: st.address,
                        span: c2.latest_span,
                    };
                    lemma_moved_resolution(mv, st.with_cursor(c2), define);
                    let named = st.with_cursor(c2).resolution(define);
                    lemma_moved_skip_line_sep(mv, c2, len);
                    let opening = named.with_cursor(c2.skip_line_sep());
                    lemma_moved_block(mv, opening, head, text);
                    let block = opening.read_block(text);
                    lemma_moved_close_subroutine(mv, block, name, st.address, c2.latest_span);
                },
            }
        } else {
            lemma_moved_fail(
                mv,
                st.with_cursor(c),
                Diagnostic {
                    message: super::impl_sections::unknown_specifier_text(word),
                    span: token.span,
                },
                len,
            );
        }
    }
}

/// Moving commutes with reading `def`.
pub proof fn lemma_moved_def(mv: Move, st: State, head: Seq<char>, text: Seq<char>)
    requires
        mv.fits(st.cursor, text.len()),
        mv.by == head.len(),
    ensures
        mv.state(st).read_def(head + text) == mv.state(st.read_def(text)),
        mv.fits(st.read_def(text).cursor, text.len()),
{
    let len = text.len();
    lemma_moved_read_word(mv, st.cursor, head, text);
    let (name, c1) = st.cursor.read_ident(text);
    match name {
        Err(d) => {
            lemma_moved_fail(mv, st.with_cursor(c1), d, len);
        },
        Ok(name) => {
            lemma_moved_read_token(mv, c1, len, TokenType::Equals);
            let (equals, c2) = c1.read_token_with_type(TokenType::Equals);
            match equals {
                Err(d) => {
                    lemma_moved_fail(mv, st.with_cursor(c2), d, len);
                },
                Ok(_) => {
                    lemma_moved_read_literal(mv, c2, head, text);
                    let (value, c3) = c2.read_literal(text);
                    match value {
                        Err(d) => {
                            lemma_moved_fail(mv, st.with_cursor(c3), d, len);
                        },
                        Ok(value) => {
                            lemma_moved_resolution(
                                mv,
                                st.with_cursor(c3),
                                Resolution::Define { name, value, span: c1.latest_span },
                            );
                        },
                    }
                },
            }
        },
    }
}

/// Moving commutes with reading `rom`.
pub proof fn lemma_moved_rom(
    mv: Move,
    st: State,
    head: Seq<char>,
    text: Seq<char>,
    keyword: Span,
)
    requires
        mv.fits(st.cursor, text.len()),
        mv.by == head.len(),
    ensures
        mv.state(st).read_rom(head + text, mv.span(keyword)) == mv.state(
            st.read_rom(text, keyword),
        ),
        mv.fits(st.read_rom(text, keyword).cursor, text.len()),
{
    let len = text.len();
    lemma_moved_read_word(mv, st.cursor, head, text);
    let (name, c1) = st.cursor.read_ident(text);
    match name {
        Err(d) => {
            lemma_moved_fail(mv, st.with_cursor(c1), d, len);
        },
        Ok(name) => {
            lemma_moved_read_token(mv, c1, len, TokenType::Colon);
            let (colon, c2) = c1.read_token_with_type(TokenType::Colon);
            match colon {
                Err(d) => {
                    lemma_moved_fail(mv, st.with_cursor(c2), d, len);
                },
                Ok(_) => {
                    lemma_moved_read_literal(mv, c2, head, text);
                    let (size, c3) = c2.read_literal(text);
                    match size {
                        Err(d) => {
                            lemma_moved_fail(mv, st.with_cursor(c3), d, len);
                        },
                        Ok(size) => {
                            lemma_moved_read_token(mv, c3, len, TokenType::Equals);
                            let (equals, c4) = c3.read_token_with_type(TokenType::Equals);
                            match equals {
                                Err(d) => {
                                    lemma_moved_fail(mv, st.with_cursor(c4), d, len);
                                },
                                Ok(_) => {
                                    lemma_moved_read_word(mv, c4, head, text);
                                    let (other, c5) = c4.read_ident(text);
                                    match other {
                                        Err(d) => {
                                            lemma_moved_fail(mv, st.with_cursor(c5), d, len);
                                        },
                                        Ok(other) => {
                                            let define = Resolution::Define {
                                                name,
                                                value: st.address,
                                                span: c1.latest_span,
                                            };
                                            lemma_moved_resolution(
                                                mv,
                                                st.with_cursor(c5),
                                                define,
                                            );
                                            let named = st.with_cursor(c5).resolution(define);
                                            lemma_moved_emit(
                                                mv,
                                                named,
                                                Write::Word { symbol: other, span: c5.latest_span },
                                                len,
                                            );
                                            lemma_moved_fail(
                                                mv,
                                                named,
                                                Diagnostic {
                                                    message: super::impl_sections::invalid_size_text(
                                                        size,
                                                    ),
                                                    span: keyword,
                                                },
                                                len,
                                            );
                                        },
                                    }
                                },
                            }
                        },
                    }
                },
            }
        },
    }
}

/// Moving commutes with reading a data declaration.
pub proof fn lemma_moved_data_decl(mv: Move, st: State, head: Seq<char>, text: Seq<char>)
    requires
        mv.fits(st.cursor, text.len()),
        mv.by == head.len(),
    ensures
        mv.state(st).read_data_decl(head + text) == mv.state(st.read_data_decl(text)),
        mv.fits(st.read_data_decl(text).cursor, text.len()),
{
    let len = text.len();
    lemma_moved_peek(mv, st.cursor, len);
    let (keyword, c) = st.cursor.next();
    if let Some(token) = keyword {
        lemma_moved_cut(mv, token.span, head, text);
        let word = token.span.cut(text);
        if word == "def"@ {
            lemma_moved_def(mv, st.with_cursor(c), head, text);
        } else if word == "rom"@ {
            lemma_moved_rom(mv, st.with_cursor(c), head, text, token.span);
        } else {
            lemma_moved_fail(
                mv,
                st.with_cursor(c),
                Diagnostic {
                    message: super::impl_sections::unknown_declaration_text(word),
                    span: token.span,
                },
                len,
            );
        }
    }
}

/// Moving commutes with reading what follows `@origin`.
pub proof fn lemma_moved_origin(mv: Move, st: State, head: Seq<char>, text: Seq<char>)
    requires
        mv.fits(st.cursor, text.len()),
        mv.by == head.len(),
    ensures
        mv.state(st).read_origin(head + text) == mv.state(st.read_origin(text)),
        mv.fits(st.read_origin(text).cursor, text.len()),
{
    let len = text.len();
    lemma_moved_read_token(mv, st.cursor, len, TokenType::OpeningParen);
    let (open, c1) = st.cursor.read_token_with_type(TokenType::OpeningParen);
    match open {
        Err(d) => {
            lemma_moved_fail(mv, st.with_cursor(c1), d, len);
        },
        Ok(_) => {
            lemma_moved_read_literal(mv, c1, head, text);
            let (address, c2) = c1.read_literal(text);
            match address {
                Err(d) => {
                    lemma_moved_fail(mv, st.with_cursor(c2), d, len);
                },
                Ok(address) => {
                    lemma_moved_emit(mv, st.with_cursor(c2), Write::Origin(address), len);
                    let moved = st.with_cursor(c2).set_address(address);
                    lemma_moved_read_token(mv, c2, len, TokenType::ClosingParen);
                    let (close, c3) = c2.read_token_with_type(TokenType::ClosingParen);
                    match close {
                        Err(d) => {
                            lemma_moved_fail(mv, moved.with_cursor(c3), d, len);
                        },
                        Ok(_) => {},
                    }
                },
            }
        },
    }
}

/// Moving commutes with reading a pragma.
pub proof fn lemma_moved_pragma(mv: Move, st: State, head: Seq<char>, text: Seq<char>)
    requires
        mv.fits(st.cursor, text.len()),
        mv.by == head.len(),
    ensures
        mv.state(st).read_top_level_pragma(head + text) == mv.state(
            st.read_top_level_pragma(text),
        ),
        mv.fits(st.read_top_level_pragma(text).cursor, text.len()),
{
    let len = text.len();
    lemma_moved_read_token(mv, st.cursor, len, TokenType::At);
    let (at, c0) = st.cursor.read_token_with_type(TokenType::At);
    lemma_moved_read_word(mv, c0, head, text);
    let (directive, c1) = c0.read_ident(text);
    match directive {
        Err(d) => {
            lemma_moved_fail(mv, st.with_cursor(c1), d, len);
        },
        Ok(word) => {
            if word == "origin"@ {
                lemma_moved_origin(mv, st.with_cursor(c1), head, text);
            } else {
                lemma_moved_fail(
                    mv,
                    st.with_cursor(c1),
                    Diagnostic {
                        message: super::impl_sections::unknown_directive_text(word),
                        span: c1.latest_span,
                    },
                    len,
                );
            }
        },
    }
}

/// Moving commutes with reading an item.
pub proof fn lemma_moved_item(mv: Move, st: State, head: Seq<char>, text: Seq<char>)
    requires
        mv.fits(st.cursor, text.len()),
        mv.by == head.len(),
    ensures
        mv.state(st).compile_remaining(head + text) == mv.state(st.compile_remaining(text)),
        mv.fits(st.compile_remaining(text).cursor, text.len()),
{
    let len = text.len();
    lemma_moved_peek(mv, st.cursor, len);
    let (found, c) = st.cursor.peek();
    if let Some(token) = found {
        if token.ty == TokenType::LabelSpecifier {
            lemma_moved_label_block(mv, st.with_cursor(c), head, text);
        } else if token.ty == TokenType::DataDeclaration {
            lemma_moved_data_decl(mv, st.with_cursor(c), head, text);
        } else if token.ty == TokenType::At {
            lemma_moved_pragma(mv, st.with_cursor(c), head, text);
        } else {
            lemma_moved_fail(
                mv,
                st.with_cursor(c),
                Diagnostic {
                    message: super::impl_sections::unexpected_token_text(token.ty),
                    span: token.span,
                },
                len,
            );
        }
    }
}

/// Moving commutes with reading the items.
pub proof fn lemma_moved_items(mv: Move, st: State, head: Seq<char>, text: Seq<char>)
    requires
        mv.fits(st.cursor, text.len()),
        mv.by == head.len(),
    ensures
        mv.state(st).parse_items(head + text) == mv.state(st.parse_items(text)),
    decreases st.cursor.remaining.len(),
{
    let len = text.len();
    if st.cursor.remaining.len() > 0 {
        lemma_moved_item(mv, st, head, text);
        let item = st.compile_remaining(text);
        lemma_moved_skip_line_sep(mv, item.cursor, len);
        let next = item.with_cursor(item.cursor.skip_line_sep());
        if next.cursor.remaining.len() < st.cursor.remaining.len() {
            lemma_moved_items(mv, next, head, text);
        }
    }
}

/// Two outcomes that differ at most in where their diagnostics point: the
/// same image, or as many diagnostics with the same messages.
pub open spec fn same_outcome(a: Outcome, b: Outcome) -> bool {
    match a {
        Outcome::Done(image) => b == Outcome::Done(image),
        Outcome::Failed(errors) => b matches Outcome::Failed(others) && others.len()
            == errors.len() && forall|k: int|
            0 <= k < errors.len() ==> (#[trigger] others[k]).message == errors[k].message,
    }
}

/// A program moved as a whole assembles to the same image, or fails with
/// the same diagnostics, moved as the program is: where its tokens lie in
/// the text does not matter, as long as they cut the same characters out of
/// it.
pub proof fn lemma_moved_program(mv: Move, head: Seq<char>, text: Seq<char>, tokens: Seq<Token>)
    requires
        mv.by == head.len(),
        mv.lines >= 0,
        mv.by <= usize::MAX,
        mv.lines <= usize::MAX,
        forall|i: int|
            0 <= i < tokens.len() ==> mv.fits_span(#[trigger] tokens[i].span, text.len()),
    ensures
        compile_spec(head + text, mv.tokens(tokens)) == mv.outcome(compile_spec(text, tokens)),
        same_outcome(compile_spec(text, tokens), compile_spec(head + text, mv.tokens(tokens))),
{
    let plain = initial_state(tokens);
    let c0 = plain.cursor;
    assert(mv.fits(c0, text.len()));
    let a = plain.with_cursor(c0.skip_line_sep());
    let other = initial_state(mv.tokens(tokens));
    let d0 = other.cursor;
    let b = other.with_cursor(d0.skip_line_sep());
    lemma_moved_skip_line_sep(mv, c0, text.len());
    lemma_skip_line_sep_forgets_span(d0, mv.span(c0.latest_span));
    assert(mv.cursor(c0) == (Cursor { latest_span: mv.span(c0.latest_span), ..d0 }));
    let moved = mv.state(a);
    assert(mv.diagnostics(a.errors) =~= Seq::<Diagnostic>::empty());
    assert(mv.writes(a.writes) =~= Seq::<Write>::empty());
    assert(mv.resolutions(a.resolutions) =~= Seq::<Resolution>::empty());
    assert(b == moved.noting(b.cursor.latest_span));
    lemma_items_forget_span(moved, head + text, b.cursor.latest_span);
    lemma_moved_items(mv, a, head, text);
    let parsed = a.parse_items(text);
    assert(mv.state(parsed).finish() == b.parse_items(head + text).finish());
    lemma_moved_finish(mv, parsed);
}

/// A line `@origin(0)` put in front of the text of a program, so that the
/// whole program lies one line further on, changes nothing in the image
/// that the program assembles to, nor in whether and with what messages it
/// fails.
pub proof fn lemma_origin_line_in_front(
    mv: Move,
    head: Seq<char>,
    text: Seq<char>,
    tokens: Seq<Token>,
    pragma: Seq<Token>,
)
    requires
        mv.by == head.len(),
        mv.lines >= 0,
        mv.by <= usize::MAX,
        mv.lines <= usize::MAX,
        forall|i: int|
            0 <= i < tokens.len() ==> mv.fits_span(#[trigger] tokens[i].span, text.len()),
        is_origin_line(pragma, head + text, 0),
    ensures
        compile_spec(head + text, pragma + mv.tokens(tokens)) == mv.outcome(
            compile_spec(text, tokens),
        ),
        same_outcome(
            compile_spec(text, tokens),
            compile_spec(head + text, pragma + mv.tokens(tokens)),
        ),
{
    lemma_moved_program(mv, head, text, tokens);
    lemma_origin_at_start(head + text, mv.tokens(tokens), pragma);
}

/// From source text to image: a line `@origin(0)` in front of the text of a
/// program changes nothing in the image that lexing and assembling make of
/// it, nor in whether and with what messages it fails: the diagnostics are
/// those of the text, moved by the line.
pub proof fn lemma_origin_line_in_front_of_text(head: Seq<char>, text: Seq<char>)
    requires
        head.len() > 0,
        head.last() == '\n',
        (head + text).len() <= usize::MAX,
        is_origin_line(lex(head), head, 0),
    ensures
        compile_spec(head + text, lex(head + text)) == (Move {
            by: head.len() as int,
            lines: newlines(head) as int,
        }).outcome(compile_spec(text, lex(text))),
        same_outcome(compile_spec(text, lex(text)), compile_spec(head + text, lex(head + text))),
{
    let mv = Move { by: head.len() as int, lines: newlines(head) as int };
    let pragma = lex(head);
    lemma_lex_lines_in_front(head, text);
    lemma_tokens_on_one_line(head);
    lemma_tokens_on_one_line(text);
    lemma_position_bounds(head);
    assert(pragma[1].span.cut(head + text) =~= pragma[1].span.cut(head));
    assert(pragma[3].span.cut(head + text) =~= pragma[3].span.cut(head));
    assert(literal_of(pragma[3], head + text) == literal_of(pragma[3], head));
    lemma_origin_line_in_front(mv, head, text, lex(text), pragma);
}

/// The line `@origin(0)`, with its line feed.
pub open spec fn origin_line() -> Seq<char> {
    seq!['@', 'o', 'r', 'i', 'g', 'i', 'n', '(', '0', ')', '\n']
}

/// The character is a letter and no number.
pub open spec fn plain_letter(c: char) -> bool {
    alphabetic(c) && !numeric(c)
}

/// What lexing the line `@origin(0)` rests on, of the classes of its
/// characters: that `o`, `r`, `i`, `g` and `n` are letters and no numbers,
/// that `(` is neither a letter nor a number, that `0` is a number, and
/// that the word `origin` in lower case is none of the words that the lexer
/// knows.
pub open spec fn origin_line_classes() -> bool {
    &&& plain_letter('o')
    &&& plain_letter('r')
    &&& plain_letter('i')
    &&& plain_letter('g')
    &&& plain_letter('n')
    &&& !alphabetic('(')
    &&& !numeric('(')
    &&& numeric('0')
    &&& keyword_type(lowercase(origin_line().subrange(1, 7))) == TokenType::Identifier
}

/// Given those classes, the line `@origin(0)` lexes to the six tokens of an
/// origin pragma for address 0.
pub proof fn lemma_origin_line_lexes()
    requires
        origin_line_classes(),
    ensures
        is_origin_line(lex(origin_line()), origin_line(), 0),
{
    let h = origin_line();
    reveal_strlit("origin");
    assert(h.len() == 11);
    assert(h[0] == '@' && h[1] == 'o' && h[2] == 'r' && h[3] == 'i' && h[4] == 'g' && h[5] == 'i'
        && h[6] == 'n' && h[7] == '(' && h[8] == '0' && h[9] == ')' && h[10] == '\n');
    assert(shape(h[0]) == Shape::Punct(TokenType::At));
    assert(shape(h[1]) == Shape::Run(Run::Ident));
    assert(shape(h[7]) == Shape::Punct(TokenType::OpeningParen));
    assert(shape(h[8]) == Shape::Run(Run::Dec));
    assert(shape(h[9]) == Shape::Punct(TokenType::ClosingParen));
    assert(shape(h[10]) == Shape::Punct(TokenType::NewLine));
    lemma_run_end_exact(h, 2, 7, Run::Ident);
    lemma_run_end_exact(h, 9, 9, Run::Dec);
    assert(lexeme_end(h, 0) == 1);
    assert(lexeme_end(h, 1) == 7);
    assert(lexeme_end(h, 7) == 8);
    assert(lexeme_end(h, 8) == 9);
    assert(lexeme_end(h, 9) == 10);
    assert(lexeme_end(h, 10) == 11);
    let t0 = Token { ty: TokenType::At, span: span_of(h, 0, 1) };
    let t1 = Token { ty: TokenType::Identifier, span: span_of(h, 1, 7) };
    let t2 = Token { ty: TokenType::OpeningParen, span: span_of(h, 7, 8) };
    let t3 = Token { ty: TokenType::DecNumber, span: span_of(h, 8, 9) };
    let t4 = Token { ty: TokenType::ClosingParen, span: span_of(h, 9, 10) };
    let t5 = Token { ty: TokenType::NewLine, span: span_of(h, 10, 11) };
    assert(tokens_at(h, 0) == seq![t0]);
    assert(tokens_at(h, 1) == seq![t1]);
    assert(tokens_at(h, 7) == seq![t2]);
    assert(tokens_at(h, 8) == seq![t3]);
    assert(tokens_at(h, 9) == seq![t4]);
    assert(tokens_at(h, 10) == seq![t5]);
    let l6 = lex_between(h, 11, 11);
    assert(l6 =~= Seq::<Token>::empty());
    let l5 = lex_between(h, 10, 11);
    assert(l5 == seq![t5] + l6);
    let l4 = lex_between(h, 9, 11);
    assert(l4 == seq![t4] + l5);
    let l3 = lex_between(h, 8, 11);
    assert(l3 == seq![t3] + l4);
    let l2 = lex_between(h, 7, 11);
    assert(l2 == seq![t2] + l3);
    let l1 = lex_between(h, 1, 11);
    assert(l1 == seq![t1] + l2);
    let l0 = lex_between(h, 0, 11);
    assert(l0 == seq![t0] + l1);
    assert(lex(h) =~= seq![t0, t1, t2, t3, t4, t5]);
    assert(t1.span.cut(h) =~= "origin"@);
    let digits = t3.span.cut(h);
    assert(digits =~= seq!['0']);
    assert(crate::number::digit_value('0', 10) == Some(0int));
    assert(crate::number::read_digits(digits, 1, 0, 10, false) == Ok::<
        int,
        crate::number::NumberError,
    >(0int));
    assert(crate::number::read_digits(digits, 0, 0, 10, false) == Ok::<
        int,
        crate::number::NumberError,
    >(0int));
    assert(crate::number::parse_number(digits, 10) == Ok::<int, crate::number::NumberError>(0int));
    assert(literal_of(t3, h) == Ok::<u16, Diagnostic>(0u16));
}

/// The origin pragma at the natural start: the line `@origin(0)` in front
/// of the text of a program changes nothing in the image that lexing and
/// assembling make of the text, nor in whether and with what messages it
/// fails. Its diagnostics are those of the text, each one line and eleven
/// characters further on.
pub proof fn lemma_origin_pragma_in_front(text: Seq<char>)
    requires
        origin_line_classes(),
        (origin_line() + text).len() <= usize::MAX,
    ensures
        compile_spec(origin_line() + text, lex(origin_line() + text)) == (Move {
            by: 11,
            lines: 1,
        }).outcome(compile_spec(text, lex(text))),
        same_outcome(
            compile_spec(text, lex(text)),
            compile_spec(origin_line() + text, lex(origin_line() + text)),
        ),
{
    assert(newlines(origin_line()) == 1) by {
        reveal_with_fuel(newlines, 12);
    }
    lemma_origin_line_lexes();
    lemma_origin_line_in_front_of_text(origin_line(), text);
}

/// Whether the character is a letter and no number.
fn is_plain_letter(c: char) -> (r: bool)
    ensures
        r == plain_letter(c),
{
    c.is_alphabetic() && !c.is_numeric()
}

/// Whether the classes of the characters of the line `@origin(0)` are
/// those that lexing it rests on.
pub fn origin_line_is_plain() -> (r: bool)
    ensures
        r == origin_line_classes(),
{
    proof {
        reveal_strlit("origin");
        assert(origin_line().subrange(1, 7) =~= "origin"@);
    }
    let word = to_lowercase("origin");
    is_plain_letter('o') && is_plain_letter('r') && is_plain_letter('i') && is_plain_letter('g')
        && is_plain_letter('n') && !'('.is_alphabetic() && !'('.is_numeric() && '0'.is_numeric()
        && classify(word.as_str()) == TokenType::Identifier
}

} // verus!
