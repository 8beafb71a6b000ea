//! What holds of the assembler as a whole.

use super::compiler_context::{apply, attempt, demand_of, symbol_of, Context, Resolution, Write};
use super::engine::{
    all_unresolved, emit_from, lemma_resolve, resolve, sweep, sweep_from, unresolved,
};
use super::impl_read_tokens::literal_of;
use super::impl_sections::{ld_form, ld_not_implemented_text, ld_opcode, overlap_text, LdForm};
use super::types::Target;
use super::{
    compile_spec, first_overlap, initial_state, lemma_first_overlap, ranges_intersect, tokens_ok,
    Cursor, Outcome, State,
};
use crate::errors::Diagnostic;
use crate::tokenizer::laws::lemma_tokens_on_one_line;
use crate::tokenizer::{lex, Token, TokenType};
use vstd::prelude::*;

verus! {

impl State {
    /// With the writes `pre` in front of the writes put off so far.
    pub open spec fn prefixed(self, pre: Seq<Write>) -> State {
        State { writes: pre + self.writes, ..self }
    }

    /// With another span noted as the one looked at last.
    pub open spec fn noting(self, span: crate::Span) -> State {
        State { cursor: Cursor { latest_span: span, ..self.cursor }, ..self }
    }
}

/// Putting off a write does not look at the writes put off before.
pub proof fn lemma_frame_write(pre: Seq<Write>)
    ensures
        forall|st: State, op: Write| #[trigger]
            st.prefixed(pre).write(op) == st.write(op).prefixed(pre),
        forall|st: State, op: Write| #[trigger]
            st.prefixed(pre).emit(op) == st.emit(op).prefixed(pre),
        forall|st: State, a: u16| #[trigger]
            st.prefixed(pre).set_address(a) == st.set_address(a).prefixed(pre),
{
    assert forall|st: State, op: Write| #[trigger]
        st.prefixed(pre).write(op) == st.write(op).prefixed(pre) by {
        assert((pre + st.writes).push(op) =~= pre + st.writes.push(op));
    }
    assert forall|st: State, op: Write| #[trigger]
        st.prefixed(pre).emit(op) == st.emit(op).prefixed(pre) by {
        assert(st.prefixed(pre).write(op) == st.write(op).prefixed(pre));
    }
    assert forall|st: State, a: u16| #[trigger]
        st.prefixed(pre).set_address(a) == st.set_address(a).prefixed(pre) by {
        assert(st.prefixed(pre).write(Write::Origin(a)) == st.write(Write::Origin(a)).prefixed(
            pre,
        ));
    }
}

/// Reading an instruction does not look at the writes put off before, and
/// takes no diagnostic and no recorded area away.
pub proof fn lemma_frame_instruction_line(st: State, text: Seq<char>, pre: Seq<Write>)
    ensures
        st.prefixed(pre).read_instruction_line(text) == st.read_instruction_line(text).prefixed(
            pre,
        ),
        st.read_instruction_line(text).errors.len() >= st.errors.len(),
        st.areas.is_prefix_of(st.read_instruction_line(text).areas),
{
    lemma_frame_write(pre);
}

/// Reading the lines of a block does not look at the writes put off
/// before, and takes no diagnostic away.
pub proof fn lemma_frame_block_lines(st: State, text: Seq<char>, pre: Seq<Write>)
    ensures
        st.prefixed(pre).read_block_lines(text) == st.read_block_lines(text).prefixed(pre),
        st.read_block_lines(text).errors.len() >= st.errors.len(),
        st.areas.is_prefix_of(st.read_block_lines(text).areas),
    decreases st.cursor.remaining.len(),
{
    let (found, c) = st.cursor.peek();
    if let Some(token) = found {
        if token.ty != TokenType::ClosingCurly {
            lemma_frame_instruction_line(st.with_cursor(c), text, pre);
            let line = st.with_cursor(c).read_instruction_line(text);
            let next = line.with_cursor(line.cursor.skip_line_sep());
            if next.cursor.remaining.len() < st.cursor.remaining.len() {
                lemma_frame_block_lines(next, text, pre);
            }
        }
    }
}

/// Reading a block does not look at the writes put off before, and takes
/// no diagnostic away.
pub proof fn lemma_frame_block(st: State, text: Seq<char>, pre: Seq<Write>)
    ensures
        st.prefixed(pre).read_block(text) == st.read_block(text).prefixed(pre),
        st.read_block(text).errors.len() >= st.errors.len(),
        st.areas.is_prefix_of(st.read_block(text).areas),
{
    let (open, c) = st.cursor.read_token_with_type(TokenType::OpeningCurly);
    if open is Ok {
        lemma_frame_block_lines(st.with_cursor(c.skip_line_sep()), text, pre);
    }
}

/// Reading a subroutine does not look at the writes put off before, and
/// takes no diagnostic away.
pub proof fn lemma_frame_label_block(st: State, text: Seq<char>, pre: Seq<Write>)
    ensures
        st.prefixed(pre).read_label_block(text) == st.read_label_block(text).prefixed(pre),
        st.read_label_block(text).errors.len() >= st.errors.len(),
        st.areas.is_prefix_of(st.read_label_block(text).areas),
{
    let (specifier, c) = st.cursor.next();
    if let Some(token) = specifier {
        if token.span.cut(text) == "sub"@ {
            let (name, c2) = c.read_ident(text);
            if let Ok(name) = name {
                let named = st.with_cursor(c2).resolution(
                    Resolution::Define { name, value: st.address, span: c2.latest_span },
                );
                lemma_frame_block(named.with_cursor(named.cursor.skip_line_sep()), text, pre);
            }
        }
    }
}

/// Reading a data declaration does not look at the writes put off before,
/// and takes no diagnostic away.
pub proof fn lemma_frame_data_decl(st: State, text: Seq<char>, pre: Seq<Write>)
    ensures
        st.prefixed(pre).read_data_decl(text) == st.read_data_decl(text).prefixed(pre),
        st.read_data_decl(text).errors.len() >= st.errors.len(),
        st.areas.is_prefix_of(st.read_data_decl(text).areas),
{
    lemma_frame_write(pre);
}

/// Reading a pragma does not look at the writes put off before, and takes
/// no diagnostic away.
pub proof fn lemma_frame_pragma(st: State, text: Seq<char>, pre: Seq<Write>)
    ensures
        st.prefixed(pre).read_top_level_pragma(text) == st.read_top_level_pragma(text).prefixed(
            pre,
        ),
        st.read_top_level_pragma(text).errors.len() >= st.errors.len(),
        st.areas.is_prefix_of(st.read_top_level_pragma(text).areas),
{
    lemma_frame_write(pre);
}

/// Reading an item does not look at the writes put off before, and takes
/// no diagnostic away.
pub proof fn lemma_frame_item(st: State, text: Seq<char>, pre: Seq<Write>)
    ensures
        st.prefixed(pre).compile_remaining(text) == st.compile_remaining(text).prefixed(pre),
        st.compile_remaining(text).errors.len() >= st.errors.len(),
        st.areas.is_prefix_of(st.compile_remaining(text).areas),
{
    let (found, c) = st.cursor.peek();
    if let Some(token) = found {
        lemma_frame_label_block(st.with_cursor(c), text, pre);
        lemma_frame_data_decl(st.with_cursor(c), text, pre);
        lemma_frame_pragma(st.with_cursor(c), text, pre);
    }
}

/// Reading the items does not look at the writes put off before, and takes
/// no diagnostic away.
pub proof fn lemma_frame_items(st: State, text: Seq<char>, pre: Seq<Write>)
    ensures
        st.prefixed(pre).parse_items(text) == st.parse_items(text).prefixed(pre),
        st.parse_items(text).errors.len() >= st.errors.len(),
        st.areas.is_prefix_of(st.parse_items(text).areas),
    decreases st.cursor.remaining.len(),
{
    if st.cursor.remaining.len() > 0 {
        lemma_frame_item(st, text, pre);
        let item = st.compile_remaining(text);
        let next = item.with_cursor(item.cursor.skip_line_sep());
        if next.cursor.remaining.len() < st.cursor.remaining.len() {
            lemma_frame_items(next, text, pre);
        }
    }
}

/// A diagnostic, once recorded, decides the outcome: whatever is read
/// after it, no image comes out.
pub proof fn lemma_errors_are_final(st: State, text: Seq<char>)
    requires
        st.errors.len() > 0,
    ensures
        st.parse_items(text).finish() is Failed,
        st.with_cursor(st.cursor.skip_line_sep()).parse_items(text).finish() is Failed,
{
    lemma_frame_items(st, text, Seq::empty());
    lemma_frame_items(st.with_cursor(st.cursor.skip_line_sep()), text, Seq::empty());
}

/// Where an item starts: at a token that is neither a comment nor a line
/// feed.
pub open spec fn at_item(c: Cursor) -> bool {
    c.remaining.len() > 0 && c.remaining[0].ty != TokenType::CommentLine && c.remaining[0].ty
        != TokenType::NewLine
}

/// Where an item starts, reading it does not depend on the span that was
/// noted before.
pub proof fn lemma_item_forgets_span(st: State, text: Seq<char>, span: crate::Span)
    requires
        at_item(st.cursor),
    ensures
        st.noting(span).compile_remaining(text) == st.compile_remaining(text),
{
    let c = st.cursor;
    let d = st.noting(span).cursor;
    assert(c.skip() == d.skip());
    assert(c.skip_comment_line() == c);
    assert(d.skip_comment_line() == d);
    assert(c.to_line_end() == c.skip().to_line_end());
    assert(d.to_line_end() == d.skip().to_line_end());
}

/// Passing line feeds comes to the start of an item or to the end of the
/// tokens; and but for the span noted, where nothing was passed, it does not
/// depend on the span that was noted before.
pub proof fn lemma_skip_line_sep_forgets_span(c: Cursor, span: crate::Span)
    ensures
        ({
            let a = c.skip_line_sep();
            let b = (Cursor { latest_span: span, ..c }).skip_line_sep();
            &&& a.remaining == b.remaining
            &&& a.remaining.len() <= c.remaining.len()
            &&& a.remaining.len() == 0 || at_item(a)
            &&& a.remaining.len() < c.remaining.len() ==> a == b
            &&& a.remaining.len() == c.remaining.len() ==> a == c && b == (Cursor {
                latest_span: span,
                ..c
            })
        }),
    decreases c.remaining.len(),
{
    let d = Cursor { latest_span: span, ..c };
    lemma_drop_line_forgets_span(c, span);
    let c1 = c.skip_comment_line();
    let d1 = d.skip_comment_line();
    if c1.remaining.len() > 0 && c1.remaining[0].ty == TokenType::NewLine {
        assert(c1.skip() == d1.skip());
        lemma_skip_line_sep_forgets_span(c1.skip(), c1.skip().latest_span);
    }
}

/// Passing a line, or a comment, does not depend on the span that was noted
/// before, but for the span noted where nothing was passed.
pub proof fn lemma_drop_line_forgets_span(c: Cursor, span: crate::Span)
    ensures
        ({
            let d = Cursor { latest_span: span, ..c };
            &&& c.drop_line().remaining == d.drop_line().remaining
            &&& c.drop_line().remaining.len() <= c.remaining.len()
            &&& c.drop_line().remaining.len() < c.remaining.len() ==> c.drop_line()
                == d.drop_line()
            &&& c.drop_line().remaining.len() == c.remaining.len() ==> c.drop_line() == c
                && d.drop_line() == d
            &&& c.drop_line().remaining.len() == 0 || c.drop_line().remaining[0].ty
                == TokenType::NewLine
            &&& c.skip_comment_line().remaining == d.skip_comment_line().remaining
            &&& c.skip_comment_line().remaining.len() <= c.remaining.len()
            &&& c.skip_comment_line().remaining.len() < c.remaining.len() ==> c.skip_comment_line()
                == d.skip_comment_line()
            &&& c.skip_comment_line().remaining.len() == c.remaining.len() ==> c.skip_comment_line()
                == c && d.skip_comment_line() == d
            &&& c.skip_comment_line().remaining.len() == 0 || c.skip_comment_line().remaining[0].ty
                != TokenType::CommentLine
        }),
    decreases c.remaining.len(),
{
    let d = Cursor { latest_span: span, ..c };
    if c.remaining.len() > 0 && c.remaining[0].ty != TokenType::NewLine {
        assert(c.skip() == d.skip());
        lemma_drop_line_forgets_span(c.skip(), c.skip().latest_span);
    }
}

/// From the start of an item on, reading the items does not depend on the
/// span that was noted before, but for the span noted at the very end.
pub proof fn lemma_items_forget_span(st: State, text: Seq<char>, span: crate::Span)
    requires
        st.cursor.remaining.len() == 0 || at_item(st.cursor),
    ensures
        st.noting(span).parse_items(text).finish() == st.parse_items(text).finish(),
{
    if st.cursor.remaining.len() > 0 {
        lemma_item_forgets_span(st, text, span);
    }
}

/// Running writes that stand behind others is running them by themselves.
pub proof fn lemma_emit_shift(pre: Seq<Write>, writes: Seq<Write>, i: int, ctx: Context)
    requires
        0 <= i,
    ensures
        emit_from(pre + writes, pre.len() + i, ctx) == emit_from(writes, i, ctx),
    decreases writes.len() - i,
{
    if i < writes.len() {
        assert((pre + writes)[pre.len() + i] == writes[i]);
        lemma_emit_shift(pre, writes, i + 1, apply(writes[i], ctx));
    }
}

/// A change of origin to address 0 in front of all writes changes nothing
/// in the outcome.
pub proof fn lemma_finish_after_origin(st: State)
    ensures
        st.prefixed(seq![Write::Origin(0)]).finish() == st.finish(),
{
    let pre = seq![Write::Origin(0)];
    let (stalled, table) = resolve(st.resolutions, Map::empty());
    let start = Context { address: 0, binary: Seq::empty(), table };
    assert((pre + st.writes)[0] == Write::Origin(0));
    assert(apply(Write::Origin(0), start) == start);
    lemma_emit_shift(pre, st.writes, 0, start);
    assert(emit_from(pre + st.writes, 0, start) == emit_from(pre + st.writes, 1, start));
}

/// The tokens of a line `@origin(address)`.
pub open spec fn is_origin_line(pragma: Seq<Token>, text: Seq<char>, address: u16) -> bool {
    &&& pragma.len() == 6
    &&& pragma[0].ty == TokenType::At
    &&& pragma[1].ty == TokenType::Identifier
    &&& pragma[1].span.cut(text) == "origin"@
    &&& pragma[2].ty == TokenType::OpeningParen
    &&& literal_of(pragma[3], text) == Ok::<u16, Diagnostic>(address)
    &&& pragma[4].ty == TokenType::ClosingParen
    &&& pragma[5].ty == TokenType::NewLine
}

/// What the parser has made of a line `@origin(0)` at the start of a
/// program, when it comes to the first item behind it.
proof fn lemma_parse_origin_line(text: Seq<char>, tokens: Seq<Token>, pragma: Seq<Token>)
    requires
        is_origin_line(pragma, text, 0),
    ensures
        initial_state(pragma + tokens).parse(text) == (State {
            cursor: (Cursor { remaining: tokens, latest_span: pragma[5].span }).skip_line_sep(),
            writes: seq![Write::Origin(0)],
            ..initial_state(tokens)
        }).parse_items(text),
{
    let all = pragma + tokens;
    let s0 = initial_state(all);
    let c0 = s0.cursor;
    assert(all[0] == pragma[0] && all[1] == pragma[1] && all[2] == pragma[2] && all[3]
        == pragma[3] && all[4] == pragma[4] && all[5] == pragma[5]);
    assert(c0.skip_comment_line() == c0);
    assert(c0.skip_line_sep() == c0);
    let r1 = all.skip(1);
    let r2 = r1.skip(1);
    let r3 = r2.skip(1);
    let r4 = r3.skip(1);
    let r5 = r4.skip(1);
    let r6 = r5.skip(1);
    assert(r1[0] == all[1] && r2[0] == all[2] && r3[0] == all[3] && r4[0] == all[4] && r5[0]
        == all[5]);
    assert(r6 =~= tokens);
    let k1 = Cursor { remaining: r1, latest_span: all[0].span };
    let k2 = Cursor { remaining: r2, latest_span: all[1].span };
    let k3 = Cursor { remaining: r3, latest_span: all[2].span };
    let k4 = Cursor { remaining: r4, latest_span: all[3].span };
    let k5 = Cursor { remaining: r5, latest_span: all[4].span };
    let k6 = Cursor { remaining: r6, latest_span: all[5].span };
    assert(c0.read_token_with_type(TokenType::At) == (Ok::<Token, Diagnostic>(all[0]), k1));
    assert(k1.skip_comment_line() == k1);
    assert(k1.read_ident(text) == (Ok::<Seq<char>, Diagnostic>("origin"@), k2));
    assert(k2.skip_comment_line() == k2);
    assert(k2.read_token_with_type(TokenType::OpeningParen) == (
        Ok::<Token, Diagnostic>(all[2]),
        k3,
    ));
    assert(k3.skip_comment_line() == k3);
    assert(k3.read_literal(text) == (Ok::<u16, Diagnostic>(0u16), k4));
    assert(k4.skip_comment_line() == k4);
    assert(k4.read_token_with_type(TokenType::ClosingParen) == (
        Ok::<Token, Diagnostic>(all[4]),
        k5,
    ));
    let moved = s0.with_cursor(k4).set_address(0);
    assert(moved.writes =~= seq![Write::Origin(0)]);
    assert(s0.with_cursor(k2).read_origin(text) == moved.with_cursor(k5));
    assert(s0.with_cursor(c0).read_top_level_pragma(text) == moved.with_cursor(k5));
    assert(s0.compile_remaining(text) == moved.with_cursor(k5));
    assert(k5.skip_comment_line() == k5);
    assert(k5.skip() == k6);
    assert(k5.skip_line_sep() == k6.skip_line_sep());
    lemma_skip_line_sep_forgets_span(k6, k6.latest_span);
    let next = moved.with_cursor(k5.skip_line_sep());
    assert(next.cursor.remaining.len() < all.len());
    assert(s0.with_cursor(c0.skip_line_sep()) == s0);
    assert(s0.parse_items(text) == next.parse_items(text));
}

/// A line `@origin(0)` in front of a program changes nothing in what the
/// program assembles to: 0 is where the first byte goes anyway. The image
/// is the same, and so are the diagnostics.
pub proof fn lemma_origin_at_start(text: Seq<char>, tokens: Seq<Token>, pragma: Seq<Token>)
    requires
        is_origin_line(pragma, text, 0),
    ensures
        compile_spec(text, pragma + tokens) == compile_spec(text, tokens),
{
    lemma_parse_origin_line(text, tokens, pragma);
    let pre = seq![Write::Origin(0)];
    let plain_cursor = Cursor { remaining: tokens, latest_span: initial_state(tokens).cursor.latest_span };
    let a = plain_cursor.skip_line_sep();
    let b = (Cursor { remaining: tokens, latest_span: pragma[5].span }).skip_line_sep();
    lemma_skip_line_sep_forgets_span(plain_cursor, pragma[5].span);
    let plain = initial_state(tokens).with_cursor(a);
    let noted = plain.noting(b.latest_span);
    assert(b == noted.cursor);
    let with_origin = State { cursor: b, writes: pre, ..initial_state(tokens) };
    assert(pre + noted.writes =~= pre);
    assert(with_origin == noted.prefixed(pre));
    lemma_frame_items(noted, text, pre);
    lemma_items_forget_span(plain, text, b.latest_span);
    lemma_finish_after_origin(noted.parse_items(text));
}

/// A range that intersects a recorded one is not recorded: the name of a
/// recorded range that it intersects comes back instead.
pub proof fn lemma_overlap_is_found(st: State, name: Seq<char>, start: u16, end: u16, i: int)
    requires
        0 <= i < st.areas.len(),
        ranges_intersect(st.areas[i].start, st.areas[i].end, start, end),
    ensures
        st.reserve_area(name, start, end).1 == st,
        st.reserve_area(name, start, end).0 matches Some(other) && exists|j: int|
            0 <= j <= i && #[trigger] st.areas[j].name == other && ranges_intersect(
                st.areas[j].start,
                st.areas[j].end,
                start,
                end,
            ),
{
    lemma_first_overlap(st.areas, start, end, 0);
    let j = first_overlap(st.areas, start, end, 0)->Some_0;
    lemma_first_is_first(st.areas, start, end, 0, i);
    assert(st.areas[j].name == st.areas[j].name);
}

/// `first_overlap` finds no area behind one that the range intersects.
proof fn lemma_first_is_first(areas: Seq<super::Area>, start: u16, end: u16, from: int, i: int)
    requires
        0 <= from <= i < areas.len(),
        ranges_intersect(areas[i].start, areas[i].end, start, end),
    ensures
        first_overlap(areas, start, end, from) matches Some(j) && j <= i,
    decreases i - from,
{
    if from < i && !ranges_intersect(areas[from].start, areas[from].end, start, end) {
        lemma_first_is_first(areas, start, end, from + 1, i);
    }
}

/// A subroutine whose addresses intersect those of one recorded before is
/// an error: it is not recorded, a diagnostic that names both is added at
/// the span of its name, and with that no image comes out, whatever the
/// program goes on with.
pub proof fn lemma_overlapping_subroutine_fails(
    block: State,
    name: Seq<char>,
    start: u16,
    name_span: crate::Span,
    i: int,
    text: Seq<char>,
)
    requires
        0 <= i < block.areas.len(),
        ranges_intersect(block.areas[i].start, block.areas[i].end, start, block.address),
    ensures
        ({
            let closed = block.close_subroutine(name, start, name_span);
            &&& closed.areas == block.areas
            &&& exists|j: int|
                0 <= j <= i && ranges_intersect(
                    block.areas[j].start,
                    block.areas[j].end,
                    start,
                    block.address,
                ) && closed.errors == block.errors.push(
                    Diagnostic {
                        message: overlap_text(name, #[trigger] block.areas[j].name),
                        span: name_span,
                    },
                )
            &&& closed.parse_items(text).finish() is Failed
            &&& closed.with_cursor(closed.cursor.skip_line_sep()).parse_items(text).finish()
                is Failed
        }),
{
    lemma_overlap_is_found(block, name, start, block.address, i);
    lemma_errors_are_final(block.close_subroutine(name, start, name_span), text);
}

/// A demand for a name that no resolution defines never holds: resolving
/// ends all the same, and the demand is among what it leaves.
pub proof fn lemma_undefined_symbol_stalls(
    queue: Seq<Resolution>,
    table: Map<Seq<char>, u16>,
    name: Seq<char>,
    span: crate::Span,
)
    requires
        queue.contains(Resolution::Require { name, span }),
        !table.dom().contains(name),
        forall|j: int|
            0 <= j < queue.len() ==> !(#[trigger] queue[j] matches Resolution::Define {
                name: defined,
                ..
            } && defined == name),
    ensures
        resolve(queue, table).0.contains(Resolution::Require { name, span }),
        !resolve(queue, table).1.dom().contains(name),
{
    lemma_resolve(queue, table);
}

/// A program that refers to a symbol which nothing defines fails: its
/// outcome is one "could not resolve" diagnostic for each resolution that
/// never held, each at the place of its name in the program, and one of
/// them is at the place where the program refers to that symbol.
pub proof fn lemma_undefined_symbol_fails(st: State, name: Seq<char>, span: crate::Span)
    requires
        st.errors.len() == 0,
        st.resolutions.contains(Resolution::Require { name, span }),
        forall|j: int|
            0 <= j < st.resolutions.len() ==> !(#[trigger] st.resolutions[j] matches Resolution::Define {
                name: defined,
                ..
            } && defined == name),
    ensures
        st.finish() matches Outcome::Failed(errors) && errors == all_unresolved(
            resolve(st.resolutions, Map::empty()).0,
        ) && errors.contains(unresolved(Resolution::Require { name, span })),
{
    lemma_undefined_symbol_stalls(st.resolutions, Map::empty(), name, span);
    let stalled = resolve(st.resolutions, Map::empty()).0;
    let r = Resolution::Require { name, span };
    let k = choose|k: int| 0 <= k < stalled.len() && stalled[k] == r;
    assert(all_unresolved(stalled)[k] == unresolved(r));
}

/// A write that looks a symbol up is put off together with the demand that
/// the symbol be defined.
pub proof fn lemma_write_demands_its_symbol(st: State, op: Write)
    ensures
        demand_of(op) matches Some(demand) ==> st.write(op).resolutions.contains(demand),
        symbol_of(op) matches Some(name) ==> demand_of(op) matches Some(
            Resolution::Require { name: demanded, .. },
        ) && demanded == name,
{
    if let Some(demand) = demand_of(op) {
        let after = st.write(op).resolutions;
        assert(after[after.len() - 1] == demand);
    }
}

/// The tokens of a text belong to it: what the lexer hands out, the
/// assembler can take.
pub proof fn lemma_lexed_tokens_belong(text: Seq<char>)
    requires
        text.len() <= usize::MAX,
    ensures
        tokens_ok(lex(text), text.len()),
{
    lemma_tokens_on_one_line(text);
}

/// How many tokens stand in front of the first line feed.
pub open spec fn line_length(tokens: Seq<Token>) -> int
    decreases tokens.len(),
{
    if tokens.len() > 0 && tokens[0].ty != TokenType::NewLine {
        1 + line_length(tokens.skip(1))
    } else {
        0
    }
}

/// Passing a line passes the tokens in front of the next line feed, and
/// no more; the span noted is that of the last of them.
pub proof fn lemma_drop_line_is_the_line(c: Cursor)
    ensures
        0 <= line_length(c.remaining) <= c.remaining.len(),
        c.drop_line().remaining == c.remaining.skip(line_length(c.remaining)),
        c.drop_line().latest_span == (if line_length(c.remaining) == 0 {
            c.latest_span
        } else {
            c.remaining[line_length(c.remaining) - 1].span
        }),
        forall|i: int|
            0 <= i < line_length(c.remaining) ==> (#[trigger] c.remaining[i]).ty
                != TokenType::NewLine,
        line_length(c.remaining) < c.remaining.len() ==> c.remaining[line_length(
            c.remaining,
        )].ty == TokenType::NewLine,
    decreases c.remaining.len(),
{
    if c.remaining.len() > 0 && c.remaining[0].ty != TokenType::NewLine {
        lemma_drop_line_is_the_line(c.skip());
        let n = line_length(c.remaining.skip(1));
        assert(c.remaining.skip(1).skip(n) =~= c.remaining.skip(n + 1));
        assert forall|i: int| 0 <= i < n + 1 implies (#[trigger] c.remaining[i]).ty
            != TokenType::NewLine by {
            if i > 0 {
                assert(c.remaining.skip(1)[i - 1] == c.remaining[i]);
            }
        }
        if n > 0 {
            assert(c.remaining.skip(1)[n - 1] == c.remaining[n]);
        }
        if n < c.remaining.skip(1).len() {
            assert(c.remaining.skip(1)[n] == c.remaining[n + 1]);
        }
    } else {
        assert(c.remaining.skip(0) =~= c.remaining);
    }
}

/// Giving up a line is passing it, comments or not.
pub proof fn lemma_to_line_end_is_drop_line(c: Cursor)
    ensures
        c.to_line_end() == c.drop_line(),
    decreases c.remaining.len(),
{
    lemma_drop_line_forgets_span(c, c.latest_span);
    let k = c.skip_comment_line();
    if c.remaining.len() > 0 && c.remaining[0].ty == TokenType::CommentLine {
        assert(k == c.drop_line());
        lemma_drop_line_idempotent(c);
    } else if k.remaining.len() > 0 && k.remaining[0].ty != TokenType::NewLine {
        lemma_to_line_end_is_drop_line(k.skip());
    }
}

/// Where a line has been passed, there is no more of it to pass.
proof fn lemma_drop_line_idempotent(c: Cursor)
    ensures
        c.drop_line().drop_line() == c.drop_line(),
        c.drop_line().to_line_end() == c.drop_line(),
    decreases c.remaining.len(),
{
    if c.remaining.len() > 0 && c.remaining[0].ty != TokenType::NewLine {
        lemma_drop_line_idempotent(c.skip());
    }
}

/// After an error the parser takes up again at the start of an item, or
/// there is nothing left: an error costs the rest of its line, and the
/// empty lines and the comments behind it, and nothing else.
pub proof fn lemma_recovery_is_by_line(st: State, d: Diagnostic)
    ensures
        st.fail(d).cursor == st.cursor.drop_line().skip_line_sep(),
        st.fail(d).cursor.remaining.len() == 0 || at_item(st.fail(d).cursor),
        st.fail(d).errors == st.errors.push(d),
        st.fail(d).writes == st.writes,
        st.fail(d).resolutions == st.resolutions,
        st.fail(d).address == st.address,
{
    lemma_to_line_end_is_drop_line(st.cursor);
    lemma_skip_line_sep_forgets_span(st.cursor.drop_line(), st.cursor.latest_span);
}

/// The resolution defines the name.
pub open spec fn defines(r: Resolution, name: Seq<char>) -> bool {
    r matches Resolution::Define { name: defined, .. } && defined == name
}

/// Each definition of the queue from `i` on is of a name that the table
/// does not hold and that no definition before it, from `i` on, defines.
pub open spec fn definitions_fresh(queue: Seq<Resolution>, i: int, table: Map<Seq<char>, u16>) -> bool {
    forall|j: int, name: Seq<char>|
        i <= j < queue.len() && #[trigger] defines(queue[j], name) ==> !table.dom().contains(name)
            && forall|k: int| i <= k < j ==> !#[trigger] defines(queue[k], name)
}

/// Each demand of the queue is for a name that the table holds or that a
/// definition of the queue defines.
pub open spec fn demands_met(queue: Seq<Resolution>, table: Map<Seq<char>, u16>) -> bool {
    forall|j: int|
        0 <= j < queue.len() ==> (#[trigger] queue[j] matches Resolution::Require { name, .. }
            ==> table.dom().contains(name) || exists|k: int|
            0 <= k < queue.len() && #[trigger] defines(queue[k], name))
}

/// All of the queue are demands.
pub open spec fn only_demands(queue: Seq<Resolution>) -> bool {
    forall|j: int| 0 <= j < queue.len() ==> #[trigger] queue[j] is Require
}

/// A sweep over fresh definitions lets every one of them hold: it keeps
/// demands only, fewer than the queue is long if the queue has a
/// definition, and its table holds the table's names and every name that
/// the queue defines.
proof fn lemma_sweep_fresh(
    queue: Seq<Resolution>,
    i: int,
    kept: Seq<Resolution>,
    table: Map<Seq<char>, u16>,
)
    requires
        0 <= i <= queue.len(),
        definitions_fresh(queue, i, table),
        only_demands(kept),
    ensures
        ({
            let (after, next) = sweep_from(queue, i, kept, table);
            &&& only_demands(after)
            &&& after.len() <= kept.len() + queue.len() - i
            &&& (exists|j: int| i <= j < queue.len() && #[trigger] queue[j] is Define)
                ==> after.len() < kept.len() + queue.len() - i
            &&& forall|r: Resolution| #[trigger]
                after.contains(r) ==> kept.contains(r) || queue.contains(r)
            &&& forall|name: Seq<char>| table.dom().contains(name) ==> next.dom().contains(name)
            &&& forall|j: int, name: Seq<char>|
                i <= j < queue.len() && #[trigger] defines(queue[j], name) ==> next.dom().contains(
                    name,
                )
        }),
    decreases queue.len() - i,
{
    if i < queue.len() {
        let (done, next) = attempt(queue[i], table);
        let kept2 = if done {
            kept
        } else {
            kept.push(queue[i])
        };
        match queue[i] {
            Resolution::Define { name, value, .. } => {
                assert(defines(queue[i], name));
                assert(done);
                assert forall|j: int, other: Seq<char>|
                    i + 1 <= j < queue.len() && #[trigger] defines(
                        queue[j],
                        other,
                    ) implies !next.dom().contains(other) && forall|k: int|
                    i + 1 <= k < j ==> !#[trigger] defines(queue[k], other) by {
                    if other == name {
                        assert(defines(queue[i], other));
                    }
                }
            },
            Resolution::Require { .. } => {},
        }
        assert(only_demands(kept2));
        lemma_sweep_fresh(queue, i + 1, kept2, next);
        let (after, last) = sweep_from(queue, i, kept, table);
        assert forall|r: Resolution| #[trigger] after.contains(r) implies kept.contains(r)
            || queue.contains(r) by {
            if kept2.contains(r) && !kept.contains(r) {
                let k = choose|k: int| 0 <= k < kept2.len() && kept2[k] == r;
                if k < kept.len() {
                    assert(kept[k] == r);
                }
                assert(queue[i] == r);
            }
        }
        if exists|j: int| i <= j < queue.len() && #[trigger] queue[j] is Define {
            let j = choose|j: int| i <= j < queue.len() && #[trigger] queue[j] is Define;
            if j > i {
                assert(i + 1 <= j < queue.len() && queue[j] is Define);
            }
        }
    }
}

/// A sweep over demands whose names the table holds keeps none of them.
proof fn lemma_sweep_demands(
    queue: Seq<Resolution>,
    i: int,
    kept: Seq<Resolution>,
    table: Map<Seq<char>, u16>,
)
    requires
        0 <= i <= queue.len(),
        forall|j: int|
            i <= j < queue.len() ==> (#[trigger] queue[j] matches Resolution::Require { name, .. }
                && table.dom().contains(name)),
    ensures
        sweep_from(queue, i, kept, table) == (kept, table),
    decreases queue.len() - i,
{
    if i < queue.len() {
        assert(queue[i] matches Resolution::Require { name, .. } && table.dom().contains(name));
        lemma_sweep_demands(queue, i + 1, kept, table);
    }
}

/// Resolving succeeds where it can: where every definition is of a name
/// of its own and every demand is for a name that is defined, nothing is
/// left over.
pub proof fn lemma_resolution_succeeds(queue: Seq<Resolution>, table: Map<Seq<char>, u16>)
    requires
        definitions_fresh(queue, 0, table),
        demands_met(queue, table),
    ensures
        resolve(queue, table).0.len() == 0,
{
    if queue.len() > 0 {
        let (kept, next) = sweep(queue, table);
        lemma_sweep_fresh(queue, 0, Seq::empty(), table);
        assert forall|j: int| 0 <= j < kept.len() implies (#[trigger] kept[j] matches Resolution::Require {
            name,
            ..
        } && next.dom().contains(name)) by {
            assert(kept.contains(kept[j]));
            let k = choose|k: int| 0 <= k < queue.len() && queue[k] == kept[j];
            if let Resolution::Require { name, .. } = queue[k] {
                if !table.dom().contains(name) {
                    let d = choose|d: int| 0 <= d < queue.len() && #[trigger] defines(queue[d], name);
                    assert(next.dom().contains(name));
                }
            }
        }
        let none = Seq::<Resolution>::empty();
        assert(resolve(none, next) == (none, next));
        assert(resolve(none, table) == (none, table));
        if exists|j: int| 0 <= j < queue.len() && #[trigger] queue[j] is Define {
            assert(kept.len() < queue.len());
            assert(resolve(queue, table) == resolve(kept, next));
            if kept.len() > 0 {
                lemma_sweep_demands(kept, 0, none, next);
                assert(sweep(kept, next) == (none, next));
                assert(resolve(kept, next) == resolve(none, next));
            } else {
                assert(kept =~= none);
            }
        } else {
            assert forall|j: int| 0 <= j < queue.len() implies (#[trigger] queue[j] matches Resolution::Require {
                name,
                ..
            } && table.dom().contains(name)) by {
                assert(!(queue[j] is Define));
                if let Resolution::Require { name, .. } = queue[j] {
                    if !table.dom().contains(name) {
                        let d = choose|d: int|
                            0 <= d < queue.len() && #[trigger] defines(queue[d], name);
                        assert(queue[d] is Define);
                    }
                }
            }
            lemma_sweep_demands(queue, 0, none, table);
            assert(sweep(queue, table) == (none, table));
            assert(resolve(queue, table) == resolve(none, table));
        }
    }
}

/// Success is owed to a program without fault: where the parser has no
/// diagnostic, every definition is of a name of its own and every demand
/// is for a name that is defined, the outcome is an image.
pub proof fn lemma_assembling_succeeds(st: State)
    requires
        st.errors.len() == 0,
        definitions_fresh(st.resolutions, 0, Map::empty()),
        demands_met(st.resolutions, Map::empty()),
    ensures
        st.finish() is Done,
{
    lemma_resolution_succeeds(st.resolutions, Map::empty());
}

/// A sweep keeps a definition of a name that the table holds when its turn
/// comes: of a name that the table holds from the start, or that an
/// earlier definition of the sweep defines.
proof fn lemma_sweep_keeps_redefinition(
    queue: Seq<Resolution>,
    i: int,
    kept: Seq<Resolution>,
    table: Map<Seq<char>, u16>,
    j: int,
    name: Seq<char>,
)
    requires
        0 <= i <= j < queue.len(),
        defines(queue[j], name),
        table.dom().contains(name) || exists|k: int| i <= k < j && #[trigger] defines(queue[k], name),
    ensures
        sweep_from(queue, i, kept, table).0.contains(queue[j]),
        sweep_from(queue, i, kept, table).1.dom().contains(name),
    decreases queue.len() - i,
{
    let (done, next) = attempt(queue[i], table);
    let kept2 = if done {
        kept
    } else {
        kept.push(queue[i])
    };
    super::engine::lemma_sweep(queue, i + 1, kept2, next);
    if i == j {
        assert(!done);
        assert(kept2[kept2.len() - 1] == queue[j]);
        assert(kept2.contains(queue[j]));
    } else {
        if !table.dom().contains(name) {
            let k = choose|k: int| i <= k < j && #[trigger] defines(queue[k], name);
            if k == i {
                assert(next.dom().contains(name));
            } else {
                assert(i + 1 <= k < j && defines(queue[k], name));
            }
        }
        lemma_sweep_keeps_redefinition(queue, i + 1, kept2, next, j, name);
    }
}

/// A definition of a name that the table holds never holds.
proof fn lemma_redefinition_stalls(
    queue: Seq<Resolution>,
    table: Map<Seq<char>, u16>,
    j: int,
    name: Seq<char>,
)
    requires
        0 <= j < queue.len(),
        defines(queue[j], name),
        table.dom().contains(name),
    ensures
        resolve(queue, table).0.contains(queue[j]),
    decreases queue.len(),
{
    let (kept, next) = sweep(queue, table);
    lemma_sweep_keeps_redefinition(queue, 0, Seq::empty(), table, j, name);
    if kept.len() < queue.len() {
        let k = choose|k: int| 0 <= k < kept.len() && kept[k] == queue[j];
        lemma_redefinition_stalls(kept, next, k, name);
    }
}

/// A name that two resolutions define is an error: the second definition
/// never holds, and resolving leaves it over.
pub proof fn lemma_duplicate_definition_stalls(
    queue: Seq<Resolution>,
    table: Map<Seq<char>, u16>,
    i: int,
    j: int,
    name: Seq<char>,
)
    requires
        0 <= i < j < queue.len(),
        defines(queue[i], name),
        defines(queue[j], name),
    ensures
        resolve(queue, table).0.contains(queue[j]),
        resolve(queue, table).0.len() > 0,
{
    let (kept, next) = sweep(queue, table);
    lemma_sweep_keeps_redefinition(queue, 0, Seq::empty(), table, j, name);
    if kept.len() < queue.len() {
        let k = choose|k: int| 0 <= k < kept.len() && kept[k] == queue[j];
        lemma_redefinition_stalls(kept, next, k, name);
    }
}

/// The pair of operands is one that `ld` has no encoding for.
pub open spec fn ld_unsupported(to: Target, from: Target) -> bool {
    match ld_form(to, from) {
        LdForm::Unsupported => true,
        LdForm::LoadImmediate(register, v) => v <= 0xFF && ld_opcode(register) is None,
        _ => false,
    }
}

/// An `ld` whose operands both read, but as a pair that has no encoding, is
/// one error and nothing else: one diagnostic more, which names both
/// operands and spans the whole instruction, from the start of the
/// mnemonic to the end of the last operand, on the mnemonic's line; the
/// address and the two queues as they were; and the rest of the line given
/// up, so that reading takes up again at the next item.
pub proof fn lemma_unsupported_ld(st: State, text: Seq<char>)
    requires
        st.cursor.read_data_target(text).0 is Ok,
        st.cursor.read_data_target(text).1.read_token_with_type(TokenType::Comma).0 is Ok,
        st.cursor.read_data_target(text).1.read_token_with_type(
            TokenType::Comma,
        ).1.read_data_target(text).0 is Ok,
        ld_unsupported(
            st.cursor.read_data_target(text).0->Ok_0,
            st.cursor.read_data_target(text).1.read_token_with_type(
                TokenType::Comma,
            ).1.read_data_target(text).0->Ok_0,
        ),
    ensures
        ({
            let mnemonic = st.cursor.latest_span;
            let (to, c1) = st.cursor.read_data_target(text);
            let (comma, c2) = c1.read_token_with_type(TokenType::Comma);
            let (from, c3) = c2.read_data_target(text);
            let after = st.read_ld(text);
            &&& after.errors == st.errors.push(
                Diagnostic {
                    message: ld_not_implemented_text(to->Ok_0, from->Ok_0),
                    span: crate::Span {
                        pos: mnemonic.pos.start..c3.latest_span.pos.end,
                        line: mnemonic.line.start..mnemonic.line.end,
                        col: mnemonic.col.start..c3.latest_span.col.end,
                    },
                },
            )
            &&& after.address == st.address
            &&& after.writes == st.writes
            &&& after.resolutions == st.resolutions
            &&& after.areas == st.areas
            &&& after.cursor == c3.drop_line().skip_line_sep()
            &&& after.cursor.remaining.len() == 0 || at_item(after.cursor)
        }),
{
    let (to, c1) = st.cursor.read_data_target(text);
    let (comma, c2) = c1.read_token_with_type(TokenType::Comma);
    let (from, c3) = c2.read_data_target(text);
    let d = Diagnostic {
        message: ld_not_implemented_text(to->Ok_0, from->Ok_0),
        span: super::impl_sections::ld_span(st.cursor.latest_span, c3.latest_span),
    };
    lemma_recovery_is_by_line(st.with_cursor(c3), d);
}

/// The subroutine that stands at the parser's place, where one does: its
/// name, the span of its name, and the parser behind its block, before its
/// addresses are recorded.
pub open spec fn subroutine_at(st: State, text: Seq<char>) -> Option<(Seq<char>, crate::Span, State)> {
    let (specifier, c) = st.cursor.next();
    match specifier {
        Some(token) => if token.span.cut(text) == "sub"@ {
            let (name, c2) = c.read_ident(text);
            match name {
                Ok(name) => {
                    let named = st.with_cursor(c2).resolution(
                        Resolution::Define { name, value: st.address, span: c2.latest_span },
                    );
                    Some(
                        (
                            name,
                            c2.latest_span,
                            named.with_cursor(named.cursor.skip_line_sep()).read_block(text),
                        ),
                    )
                },
                Err(_) => None,
            }
        } else {
            None
        },
        None => None,
    }
}

/// A subroutine whose addresses intersect no recorded ones is recorded
/// with them, and stays recorded whatever is read after it.
pub proof fn lemma_subroutine_is_recorded(st: State, text: Seq<char>)
    requires
        subroutine_at(st, text) matches Some((name, span, block)) && forall|i: int|
            0 <= i < block.areas.len() ==> !ranges_intersect(
                (#[trigger] block.areas[i]).start,
                block.areas[i].end,
                st.address,
                block.address,
            ),
    ensures
        ({
            let (name, span, block) = subroutine_at(st, text)->Some_0;
            let after = st.read_label_block(text);
            let area = super::Area { name, start: st.address, end: block.address };
            &&& after.areas == block.areas.push(area)
            &&& after.errors == block.errors
            &&& after.areas.is_prefix_of(after.parse_items(text).areas)
            &&& after.areas.is_prefix_of(
                after.with_cursor(after.cursor.skip_line_sep()).parse_items(text).areas,
            )
        }),
{
    let (name, span, block) = subroutine_at(st, text)->Some_0;
    lemma_first_overlap(block.areas, st.address, block.address, 0);
    let after = st.read_label_block(text);
    lemma_frame_items(after, text, Seq::empty());
    lemma_frame_items(after.with_cursor(after.cursor.skip_line_sep()), text, Seq::empty());
}

/// Overlap fails the compilation: a subroutine whose addresses intersect
/// those of an area that is recorded when the parser comes to it is an
/// error, whatever stands in its block and wherever a change of origin has
/// put it. Its diagnostic names it and a recorded subroutine that it
/// intersects, and no image comes out, whatever the program goes on with.
pub proof fn lemma_overlapping_subroutine_is_an_error(st: State, text: Seq<char>, i: int)
    requires
        0 <= i < st.areas.len(),
        subroutine_at(st, text) matches Some((name, span, block)) && ranges_intersect(
            st.areas[i].start,
            st.areas[i].end,
            st.address,
            block.address,
        ),
    ensures
        ({
            let (name, span, block) = subroutine_at(st, text)->Some_0;
            let after = st.read_label_block(text);
            &&& exists|j: int|
                0 <= j <= i && ranges_intersect(
                    #[trigger] block.areas[j].start,
                    block.areas[j].end,
                    st.address,
                    block.address,
                ) && after.errors == block.errors.push(
                    Diagnostic { message: overlap_text(name, block.areas[j].name), span },
                )
            &&& after.areas == block.areas
            &&& after.parse_items(text).finish() is Failed
            &&& after.with_cursor(after.cursor.skip_line_sep()).parse_items(text).finish()
                is Failed
        }),
{
    let (name, span, block) = subroutine_at(st, text)->Some_0;
    let (specifier, c) = st.cursor.next();
    let (ident, c2) = c.read_ident(text);
    let named = st.with_cursor(c2).resolution(
        Resolution::Define { name, value: st.address, span: c2.latest_span },
    );
    lemma_frame_block(named.with_cursor(named.cursor.skip_line_sep()), text, Seq::empty());
    assert(block.areas[i] == st.areas[i]);
    lemma_overlapping_subroutine_fails(block, name, st.address, span, i, text);
}

/// The parser, reading items from the state `st` on, comes to the state
/// `at` at the start of an item.
pub open spec fn comes_to(st: State, text: Seq<char>, at: State) -> bool
    decreases st.cursor.remaining.len(),
{
    st == at || (st.cursor.remaining.len() > 0 && {
        let item = st.compile_remaining(text);
        let next = item.with_cursor(item.cursor.skip_line_sep());
        next.cursor.remaining.len() < st.cursor.remaining.len() && comes_to(next, text, at)
    })
}

/// Reading on from a state that the parser comes to ends where reading
/// from the start ends.
pub proof fn lemma_comes_to(st: State, text: Seq<char>, at: State)
    requires
        comes_to(st, text, at),
    ensures
        st.parse_items(text) == at.parse_items(text),
    decreases st.cursor.remaining.len(),
{
    if st != at {
        let item = st.compile_remaining(text);
        let next = item.with_cursor(item.cursor.skip_line_sep());
        lemma_comes_to(next, text, at);
    }
}

/// Two subroutines whose addresses intersect fail the compilation: if the
/// parser, on its way through a program, comes to a subroutine whose
/// addresses intersect those of an area recorded by then, no image comes
/// out.
pub proof fn lemma_overlap_fails_compilation(
    text: Seq<char>,
    tokens: Seq<Token>,
    at: State,
    i: int,
)
    requires
        comes_to(
            initial_state(tokens).with_cursor(initial_state(tokens).cursor.skip_line_sep()),
            text,
            at,
        ),
        at.cursor.peek().0 matches Some(token) && token.ty == TokenType::LabelSpecifier,
        0 <= i < at.areas.len(),
        subroutine_at(at.with_cursor(at.cursor.peek().1), text) matches Some(
            (name, span, block),
        ) && ranges_intersect(at.areas[i].start, at.areas[i].end, at.address, block.address),
    ensures
        compile_spec(text, tokens) is Failed,
{
    let start = initial_state(tokens).with_cursor(initial_state(tokens).cursor.skip_line_sep());
    lemma_comes_to(start, text, at);
    let sub = at.with_cursor(at.cursor.peek().1);
    lemma_overlapping_subroutine_is_an_error(sub, text, i);
    let item = at.compile_remaining(text);
    assert(item == sub.read_label_block(text));
    assert(at.cursor.remaining.len() > 0);
    let next = item.with_cursor(item.cursor.skip_line_sep());
    if next.cursor.remaining.len() < at.cursor.remaining.len() {
        assert(at.parse_items(text) == next.parse_items(text));
    } else {
        assert(at.parse_items(text) == next);
    }
}

} // verus!
