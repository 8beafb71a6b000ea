//! The assembler: from tokens to a binary image.

use crate::errors::{CompileError, Diagnostic, MultiResult};
use crate::tokenizer::{Token, TokenType};
use crate::Span;
use std::ops::Range;
use vstd::prelude::*;

pub mod compiler_context;
pub mod engine;
pub mod impl_helper;
pub mod impl_read_tokens;
pub mod impl_sections;
pub mod laws;
pub mod moved;
pub mod types;

use compiler_context::{
    demand_of, symbol_of, width, CompilerContext, Context, Resolution, ResolutionOp,
    Write, WriteOp,
};
use engine::{
    all_unresolved, emit_from, emit_queue, lemma_resolve, resolve, resolve_queue, unresolved,
};
use impl_sections::unexpected_token_text;

verus! {

/// The addresses that a subroutine takes.
pub struct AllocatedArea {
    pub name: String,
    pub range: Range<u16>,
}

/// An allocated area as a value.
pub struct Area {
    pub name: Seq<char>,
    pub start: u16,
    pub end: u16,
}

impl DeepView for AllocatedArea {
    type V = Area;

    open spec fn deep_view(&self) -> Area {
        Area { name: self.name@, start: self.range.start, end: self.range.end }
    }
}

/// The parser: the tokens that are left, the address that the next byte will
/// have, and what has been collected and put off so far.
pub struct Compiler<'a> {
    pub text: &'a str,
    pub remaining_tokens: &'a [Token],
    pub latest_span: Span,
    pub errors: Vec<CompileError>,
    pub address: u16,
    pub allocated_areas: Vec<AllocatedArea>,
    /// The writes to run once the symbols are known, in their order.
    pub write_queue: Vec<WriteOp>,
    /// The definitions and demands to settle before that.
    pub resolution_queue: Vec<ResolutionOp>,
}

/// The parser's place among the tokens: those that are left, and the span of
/// the one it looked at last.
pub struct Cursor {
    pub remaining: Seq<Token>,
    pub latest_span: Span,
}

/// The parser as a value.
pub struct State {
    pub cursor: Cursor,
    pub errors: Seq<Diagnostic>,
    pub address: u16,
    pub areas: Seq<Area>,
    pub writes: Seq<Write>,
    pub resolutions: Seq<Resolution>,
}

impl<'a> View for Compiler<'a> {
    type V = State;

    open spec fn view(&self) -> State {
        State {
            cursor: Cursor { remaining: self.remaining_tokens@, latest_span: self.latest_span },
            errors: self.errors.deep_view(),
            address: self.address,
            areas: self.allocated_areas.deep_view(),
            writes: self.write_queue.deep_view(),
            resolutions: self.resolution_queue.deep_view(),
        }
    }
}

/// A span that the parser can work with: its character range lies in the
/// text.
pub open spec fn span_ok(span: Span, text_len: nat) -> bool {
    span.fits(text_len)
}

/// The tokens belong to a text of this length.
pub open spec fn tokens_ok(tokens: Seq<Token>, text_len: nat) -> bool {
    forall|i: int| 0 <= i < tokens.len() ==> span_ok(#[trigger] tokens[i].span, text_len)
}

impl Cursor {
    pub open spec fn ok(self, text_len: nat) -> bool {
        &&& tokens_ok(self.remaining, text_len)
        &&& span_ok(self.latest_span, text_len)
    }
}

/// An address lies in a range of addresses.
pub open spec fn in_range(x: int, start: u16, end: u16) -> bool {
    start <= x < end
}

/// Two ranges of addresses have an address in common.
pub open spec fn ranges_intersect(a_start: u16, a_end: u16, b_start: u16, b_end: u16) -> bool {
    a_start < a_end && b_start < b_end && a_start < b_end && b_start < a_end
}

/// Ranges intersect exactly when some address lies in both.
pub proof fn lemma_ranges_intersect(a_start: u16, a_end: u16, b_start: u16, b_end: u16)
    ensures
        ranges_intersect(a_start, a_end, b_start, b_end) <==> exists|x: int|
            in_range(x, a_start, a_end) && #[trigger] in_range(x, b_start, b_end),
{
    if ranges_intersect(a_start, a_end, b_start, b_end) {
        let x: int = if a_start < b_start {
            b_start as int
        } else {
            a_start as int
        };
        assert(in_range(x, a_start, a_end) && in_range(x, b_start, b_end));
    }
}

/// The first of the areas from `from` on that the range intersects.
pub open spec fn first_overlap(areas: Seq<Area>, start: u16, end: u16, from: int) -> Option<int>
    decreases areas.len() - from,
{
    if 0 <= from < areas.len() {
        if ranges_intersect(areas[from].start, areas[from].end, start, end) {
            Some(from)
        } else {
            first_overlap(areas, start, end, from + 1)
        }
    } else {
        None
    }
}

/// `first_overlap` finds an area exactly when there is one to find.
pub proof fn lemma_first_overlap(areas: Seq<Area>, start: u16, end: u16, from: int)
    requires
        0 <= from,
    ensures
        match first_overlap(areas, start, end, from) {
            Some(i) => from <= i < areas.len() && ranges_intersect(
                areas[i].start,
                areas[i].end,
                start,
                end,
            ),
            None => forall|i: int|
                from <= i < areas.len() ==> !ranges_intersect(
                    (#[trigger] areas[i]).start,
                    areas[i].end,
                    start,
                    end,
                ),
        },
    decreases areas.len() - from,
{
    if from < areas.len() {
        lemma_first_overlap(areas, start, end, from + 1);
    }
}

/// Where the cursor stands after the writes have run: behind the last one,
/// counted from the last change of origin.
pub open spec fn cursor_after(writes: Seq<Write>) -> int
    decreases writes.len(),
{
    if writes.len() == 0 {
        0
    } else {
        match writes.last() {
            Write::Origin(a) => a as int,
            op => cursor_after(writes.drop_last()) + width(op),
        }
    }
}

/// What is said where a write would pass the last address.
pub open spec fn out_of_space_text() -> Seq<char> {
    "Program does not fit into the address space"@
}

impl State {
    pub open spec fn with_cursor(self, cursor: Cursor) -> State {
        State { cursor, ..self }
    }

    /// With one more diagnostic.
    pub open spec fn report(self, d: Diagnostic) -> State {
        State { errors: self.errors.push(d), ..self }
    }

    /// With one more diagnostic, and the rest of the line given up.
    pub open spec fn fail(self, d: Diagnostic) -> State {
        State { errors: self.errors.push(d), cursor: self.cursor.next_reset(), ..self }
    }

    /// With one more resolution put off.
    pub open spec fn resolution(self, r: Resolution) -> State {
        State { resolutions: self.resolutions.push(r), ..self }
    }

    /// With one more write put off. The address moves on by what the write
    /// will take, or to where a change of origin sends it, and a symbol that
    /// the write looks up is demanded.
    pub open spec fn write(self, op: Write) -> State {
        State {
            address: match op {
                Write::Origin(a) => a,
                _ => (self.address + width(op)) as u16,
            },
            writes: self.writes.push(op),
            resolutions: match demand_of(op) {
                Some(demand) => self.resolutions.push(demand),
                None => self.resolutions,
            },
            ..self
        }
    }

    /// With one more write put off, where the address space has room for
    /// it; with a diagnostic, and the line given up, where it has not.
    pub open spec fn emit(self, op: Write) -> State {
        if self.address + width(op) <= 0xFFFF {
            self.write(op)
        } else {
            self.fail(Diagnostic { message: out_of_space_text(), span: self.cursor.latest_span })
        }
    }

    /// At another address, now and when the writes run.
    pub open spec fn set_address(self, new_address: u16) -> State {
        self.write(Write::Origin(new_address))
    }

    /// With the range recorded under the name, if it intersects no range
    /// recorded before; else the name of the first that it intersects.
    pub open spec fn reserve_area(self, name: Seq<char>, start: u16, end: u16) -> (
        Option<Seq<char>>,
        State,
    ) {
        match first_overlap(self.areas, start, end, 0) {
            Some(i) => (Some(self.areas[i].name), self),
            None => (None, State { areas: self.areas.push(Area { name, start, end }), ..self }),
        }
    }

    /// The queues agree with the address: after the writes have run, the
    /// cursor of the image stands where the parser's address is, it has
    /// never passed the last address, and every symbol that a write looks
    /// up is demanded by a resolution.
    pub open spec fn queues_ok(self) -> bool {
        &&& cursor_after(self.writes) == self.address
        &&& forall|k: int|
            0 <= k <= self.writes.len() ==> 0 <= #[trigger] cursor_after(self.writes.take(k))
                <= 0xFFFF
        &&& forall|i: int|
            0 <= i < self.writes.len() ==> (demand_of(#[trigger] self.writes[i]) matches Some(
                demand,
            ) ==> self.resolutions.contains(demand))
    }
}

pub proof fn lemma_resolution_keeps_queues(st: State, r: Resolution)
    requires
        st.queues_ok(),
    ensures
        st.resolution(r).queues_ok(),
{
    let after = st.resolution(r);
    assert forall|i: int| 0 <= i < after.writes.len() implies (demand_of(
        #[trigger] after.writes[i],
    ) matches Some(demand) ==> after.resolutions.contains(demand)) by {
        if let Some(demand) = demand_of(after.writes[i]) {
            let j = choose|j: int| 0 <= j < st.resolutions.len() && st.resolutions[j] == demand;
            assert(after.resolutions[j] == demand);
        }
    }
}

pub proof fn lemma_write_keeps_queues(st: State, op: Write)
    requires
        st.queues_ok(),
        st.address + width(op) <= 0xFFFF,
        width(op) >= 0,
    ensures
        st.write(op).queues_ok(),
{
    let after = st.write(op);
    assert(after.writes.drop_last() =~= st.writes);
    assert forall|k: int| 0 <= k <= after.writes.len() implies 0 <= #[trigger] cursor_after(
        after.writes.take(k),
    ) <= 0xFFFF by {
        if k <= st.writes.len() {
            assert(after.writes.take(k) =~= st.writes.take(k));
        } else {
            assert(after.writes.take(k) =~= after.writes);
        }
    }
    assert forall|i: int| 0 <= i < after.writes.len() implies (demand_of(
        #[trigger] after.writes[i],
    ) matches Some(demand) ==> after.resolutions.contains(demand)) by {
        if let Some(demand) = demand_of(after.writes[i]) {
            if i < st.writes.len() {
                let j = choose|j: int|
                    0 <= j < st.resolutions.len() && st.resolutions[j] == demand;
                assert(after.resolutions[j] == demand);
            } else {
                assert(after.resolutions[after.resolutions.len() - 1] == demand);
            }
        }
    }
}

impl WriteOp {
    /// How many bytes the write takes.
    pub fn width(&self) -> (w: usize)
        ensures
            w == width(self.deep_view()),
    {
        match self {
            WriteOp::Data(bytes) => bytes.len(),
            WriteOp::Absolute { .. } => 3,
            WriteOp::Word { .. } => 2,
            WriteOp::Origin(_) => 0,
        }
    }
}

impl<'a> Compiler<'a> {
    /// The parser's fields agree with one another and with the text.
    pub open spec fn wf(&self) -> bool {
        self.cursor_ok() && self@.queues_ok()
    }

    /// A parser at the start of the tokens.
    pub fn new(text: &'a str, tokens: &'a [Token]) -> (r: Compiler<'a>)
        requires
            tokens_ok(tokens@, text@.len()),
        ensures
            r.wf(),
            r.text == text,
            r@ == initial_state(tokens@),
    {
        let r = Compiler {
            text,
            remaining_tokens: tokens,
            latest_span: Span::default(),
            errors: Vec::new(),
            write_queue: Vec::new(),
            resolution_queue: Vec::new(),
            allocated_areas: Vec::new(),
            address: 0,
        };
        proof {
            assert(r@.errors =~= Seq::<Diagnostic>::empty());
            assert(r@.areas =~= Seq::<Area>::empty());
            assert(r@.writes =~= Seq::<Write>::empty());
            assert(r@.resolutions =~= Seq::<Resolution>::empty());
            assert forall|k: int| 0 <= k <= r@.writes.len() implies 0 <= #[trigger] cursor_after(
                r@.writes.take(k),
            ) <= 0xFFFF by {
                assert(r@.writes.take(k) =~= r@.writes);
            }
        }
        r
    }

    /// Adds a diagnostic.
    pub fn report(&mut self, e: CompileError)
        requires
            old(self).wf(),
        ensures
            final(self).wf(),
            final(self)@ == old(self)@.report(e.deep_view()),
            final(self).text == old(self).text,
            final(self).remaining_tokens == old(self).remaining_tokens,
    {
        self.errors.push(e);
        assert(self@.errors =~= old(self)@.errors.push(e.deep_view()));
    }

    /// Adds a diagnostic and gives up the line.
    pub fn fail(&mut self, e: CompileError)
        requires
            old(self).wf(),
        ensures
            final(self).wf(),
            final(self)@ == old(self)@.fail(e.deep_view()),
            final(self).text == old(self).text,
            final(self).remaining_tokens@.len() <= old(self).remaining_tokens@.len(),
            old(self)@.cursor.peek().0 is Some ==> final(self).remaining_tokens@.len() < old(self).remaining_tokens@.len(),
    {
        self.report(e);
        self.next_reset();
    }

    /// Puts off a write, and moves the address on by what it will take.
    pub fn write(&mut self, op: WriteOp)
        requires
            old(self).wf(),
            old(self).address + width(op.deep_view()) <= 0xFFFF,
        ensures
            final(self).wf(),
            final(self)@ == old(self)@.write(op.deep_view()),
            final(self).text == old(self).text,
            final(self).remaining_tokens == old(self).remaining_tokens,
    {
        proof {
            lemma_write_keeps_queues(self@, op.deep_view());
        }
        let w = op.width();
        match &op {
            WriteOp::Absolute { symbol, span, .. } => {
                self.resolution_queue.push(
                    ResolutionOp::Require { name: symbol.clone(), span: span.clone() },
                );
            },
            WriteOp::Word { symbol, span } => {
                self.resolution_queue.push(
                    ResolutionOp::Require { name: symbol.clone(), span: span.clone() },
                );
            },
            _ => {},
        }
        self.address = match &op {
            WriteOp::Origin(new_address) => *new_address,
            _ => self.address + (w as u16),
        };
        self.write_queue.push(op);
        proof {
            assert(self@.writes =~= old(self)@.write(op.deep_view()).writes);
            assert(self@.resolutions =~= old(self)@.write(op.deep_view()).resolutions);
        }
    }

    /// Puts off a write where the address space has room for it; where it
    /// has not, that is an error, and the line is given up.
    pub fn emit(&mut self, op: WriteOp)
        requires
            old(self).wf(),
        ensures
            final(self).wf(),
            final(self)@ == old(self)@.emit(op.deep_view()),
            final(self).text == old(self).text,
            final(self).remaining_tokens@.len() <= old(self).remaining_tokens@.len(),
    {
        if op.width() <= 0xFFFF - (self.address as usize) {
            self.write(op);
        } else {
            let e = CompileError {
                message: String::from_str("Program does not fit into the address space"),
                span: self.latest_span.clone(),
            };
            self.fail(e);
        }
    }

    /// Moves the address, now and when the writes run.
    pub fn set_address(&mut self, new_address: u16)
        requires
            old(self).wf(),
        ensures
            final(self).wf(),
            final(self)@ == old(self)@.set_address(new_address),
            final(self).text == old(self).text,
            final(self).remaining_tokens == old(self).remaining_tokens,
    {
        self.write(WriteOp::Origin(new_address));
    }

    /// Records the range under the name, unless it intersects a range
    /// recorded before: then the name of the first such range comes back.
    pub fn reserve_area(&mut self, name: &str, new_range: Range<u16>) -> (r: Option<String>)
        requires
            old(self).wf(),
        ensures
            final(self).wf(),
            crate::errors::name_of(r) == old(self)@.reserve_area(
                name@,
                new_range.start,
                new_range.end,
            ).0,
            final(self)@ == old(self)@.reserve_area(name@, new_range.start, new_range.end).1,
            final(self).text == old(self).text,
            final(self).remaining_tokens == old(self).remaining_tokens,
    {
        let mut i: usize = 0;
        while i < self.allocated_areas.len()
            invariant
                i <= self.allocated_areas@.len(),
                *self == *old(self),
                self.wf(),
                first_overlap(self@.areas, new_range.start, new_range.end, 0) == first_overlap(
                    self@.areas,
                    new_range.start,
                    new_range.end,
                    i as int,
                ),
            decreases self.allocated_areas@.len() - i,
        {
            let area = &self.allocated_areas[i];
            assert(self@.areas[i as int] == area.deep_view());
            if area.range.start < area.range.end && new_range.start < new_range.end
                && area.range.start < new_range.end && new_range.start < area.range.end {
                return Some(area.name.clone());
            }
            i = i + 1;
        }
        self.allocated_areas.push(
            AllocatedArea { name: name.to_owned(), range: new_range.start..new_range.end },
        );
        proof {
            assert(self@.areas =~= old(self)@.areas.push(
                Area { name: name@, start: new_range.start, end: new_range.end },
            ));
        }
        None
    }

    /// Puts off a resolution.
    pub fn resolution(&mut self, op: ResolutionOp)
        requires
            old(self).wf(),
        ensures
            final(self).wf(),
            final(self)@ == old(self)@.resolution(op.deep_view()),
            final(self).text == old(self).text,
            final(self).remaining_tokens == old(self).remaining_tokens,
    {
        proof {
            lemma_resolution_keeps_queues(self@, op.deep_view());
        }
        self.resolution_queue.push(op);
        assert(self@.resolutions =~= old(self)@.resolutions.push(op.deep_view()));
    }
}

/// The parser before it has read anything.
pub open spec fn initial_state(tokens: Seq<Token>) -> State {
    State {
        cursor: Cursor { remaining: tokens, latest_span: Span { pos: 0..0, line: 0..0, col: 0..0 } },
        errors: Seq::empty(),
        address: 0,
        areas: Seq::empty(),
        writes: Seq::empty(),
        resolutions: Seq::empty(),
    }
}

/// How assembling ends, as a value: with diagnostics, or with an image.
pub enum Outcome {
    Failed(Seq<Diagnostic>),
    Done(Seq<u8>),
}

/// The outcome that a result stands for.
pub open spec fn outcome_of(r: MultiResult<Vec<u8>>) -> Outcome {
    match r {
        MultiResult::Failed(errors) => Outcome::Failed(errors.deep_view()),
        MultiResult::Done(binary) => Outcome::Done(binary@),
    }
}

impl State {
    /// Reads one item of the top level: a subroutine, a data declaration or
    /// a pragma. Anything else is an error.
    pub open spec fn compile_remaining(self, text: Seq<char>) -> State {
        let (found, c) = self.cursor.peek();
        match found {
            None => self.with_cursor(c),
            Some(token) => if token.ty == TokenType::LabelSpecifier {
                self.with_cursor(c).read_label_block(text)
            } else if token.ty == TokenType::DataDeclaration {
                self.with_cursor(c).read_data_decl(text)
            } else if token.ty == TokenType::At {
                self.with_cursor(c).read_top_level_pragma(text)
            } else {
                self.with_cursor(c).fail(
                    Diagnostic { message: unexpected_token_text(token.ty), span: token.span },
                )
            },
        }
    }

    /// Reads items, and the line feeds between them, for as long as tokens
    /// are left.
    pub open spec fn parse_items(self, text: Seq<char>) -> State
        decreases self.cursor.remaining.len(),
    {
        if self.cursor.remaining.len() > 0 {
            let item = self.compile_remaining(text);
            let next = item.with_cursor(item.cursor.skip_line_sep());
            if next.cursor.remaining.len() < self.cursor.remaining.len() {
                next.parse_items(text)
            } else {
                next
            }
        } else {
            self
        }
    }

    /// Reads the whole program.
    pub open spec fn parse(self, text: Seq<char>) -> State {
        self.with_cursor(self.cursor.skip_line_sep()).parse_items(text)
    }

    /// What the two passes behind the parser make of what it collected:
    /// its diagnostics if it has any; else one diagnostic for each
    /// resolution that never held, at the place of its name in the program;
    /// else the image that the writes make.
    pub open spec fn finish(self) -> Outcome {
        if self.errors.len() > 0 {
            Outcome::Failed(self.errors)
        } else {
            let (stalled, table) = resolve(self.resolutions, Map::empty());
            if stalled.len() > 0 {
                Outcome::Failed(all_unresolved(stalled))
            } else {
                Outcome::Done(
                    emit_from(
                        self.writes,
                        0,
                        Context { address: 0, binary: Seq::empty(), table },
                    ).binary,
                )
            }
        }
    }

    /// What assembling from this state on comes to.
    pub open spec fn compile(self, text: Seq<char>) -> Outcome {
        self.parse(text).finish()
    }
}

/// What assembling the tokens of a text comes to.
pub open spec fn compile_spec(text: Seq<char>, tokens: Seq<Token>) -> Outcome {
    initial_state(tokens).compile(text)
}

impl<'a> Compiler<'a> {
    /// Reads one item of the top level.
    pub fn compile_remaining(&mut self)
        requires
            old(self).wf(),
        ensures
            final(self).wf(),
            final(self)@ == old(self)@.compile_remaining(old(self).text@),
            final(self).text == old(self).text,
            final(self).remaining_tokens@.len() <= old(self).remaining_tokens@.len(),
            old(self).remaining_tokens@.len() > 0 ==> final(self).remaining_tokens@.len() < old(self).remaining_tokens@.len(),
    {
        let token = match self.peek() {
            Some(token) => token,
            None => {
                return ;
            },
        };
        match token.ty {
            TokenType::LabelSpecifier => self.read_label_block(),
            TokenType::DataDeclaration => self.read_data_decl(),
            TokenType::At => self.read_top_level_pragma(),
            _ => {
                let mut message = String::from_str("Unexpected token ");
                message.append(token.ty.name());
                self.fail(CompileError { message, span: token.span });
            },
        }
    }

    /// Reads the whole program.
    fn parse(&mut self)
        requires
            old(self).wf(),
        ensures
            final(self).wf(),
            final(self)@ == old(self)@.parse(old(self).text@),
            final(self).text == old(self).text,
    {
        self.skip_line_sep();
        while self.remaining_tokens.len() > 0
            invariant
                self.wf(),
                self.text == old(self).text,
                self@.parse_items(self.text@) == old(self)@.parse(old(self).text@),
            decreases self.remaining_tokens@.len(),
        {
            self.compile_remaining();
            self.skip_line_sep();
        }
    }

    /// Assembles: reads the program, settles the symbols, and writes the
    /// image. Every diagnostic of the pass that failed comes back.
    pub fn compile(self) -> (r: MultiResult<Vec<u8>>)
        requires
            self.wf(),
        ensures
            outcome_of(r) == self@.compile(self.text@),
    {
        let mut this = self;
        this.parse();
        if this.errors.len() > 0 {
            return MultiResult::Failed(this.errors);
        }
        let ghost parsed = this@;
        let mut ctx = CompilerContext::new();
        let Compiler { resolution_queue, write_queue, .. } = this;
        let stalled = resolve_queue(resolution_queue, &mut ctx);
        assert(stalled.deep_view().len() == stalled@.len());
        if stalled.len() > 0 {
            let mut errors: Vec<CompileError> = Vec::new();
            let mut i: usize = 0;
            while i < stalled.len()
                invariant
                    i <= stalled@.len(),
                    errors@.len() == i,
                    forall|k: int|
                        0 <= k < i ==> (#[trigger] errors@[k]).deep_view() == unresolved(
                            stalled@[k].deep_view(),
                        ),
                decreases stalled@.len() - i,
            {
                let span = match &stalled[i] {
                    ResolutionOp::Define { span, .. } => span.clone(),
                    ResolutionOp::Require { span, .. } => span.clone(),
                };
                errors.push(
                    CompileError {
                        message: String::from_str("Could not resolve a declaration"),
                        span,
                    },
                );
                i = i + 1;
            }
            assert(errors.deep_view() =~= all_unresolved(stalled.deep_view()));
            return MultiResult::Failed(errors);
        }
        proof {
            lemma_resolve(parsed.resolutions, Map::empty());
            assert forall|i: int| 0 <= i < parsed.writes.len() implies (symbol_of(
                #[trigger] parsed.writes[i],
            ) matches Some(name) ==> ctx@.table.dom().contains(name)) by {
                if let Some(demand) = demand_of(parsed.writes[i]) {
                    assert(parsed.resolutions.contains(demand));
                    assert(!stalled.deep_view().contains(demand));
                }
            }
        }
        emit_queue(&write_queue, &mut ctx);
        MultiResult::Done(ctx.binary)
    }
}

/// Whether the tokens belong to the text: whether each span lies in it.
pub fn tokens_belong(text: &str, tokens: &[Token]) -> (r: bool)
    ensures
        r == tokens_ok(tokens@, text@.len()),
{
    let len = text.unicode_len();
    let mut i: usize = 0;
    while i < tokens.len()
        invariant
            i <= tokens@.len(),
            len == text@.len(),
            forall|k: int| 0 <= k < i ==> span_ok(#[trigger] tokens@[k].span, text@.len()),
        decreases tokens@.len() - i,
    {
        let span = &tokens[i].span;
        if !(span.pos.start <= span.pos.end && span.pos.end <= len) {
            return false;
        }
        i = i + 1;
    }
    true
}

/// Assembles the tokens of a text into a binary image, or says everything
/// that is wrong with them.
pub fn compile(text: &str, tokens: &[Token]) -> (r: MultiResult<Vec<u8>>)
    requires
        tokens_ok(tokens@, text@.len()),
    ensures
        outcome_of(r) == compile_spec(text@, tokens@),
{
    Compiler::new(text, tokens).compile()
}

} // verus!
