//! Reading the parts of a program: operands, instructions, blocks,
//! declarations and pragmas.

use super::compiler_context::{high_byte, low_byte, Resolution, ResolutionOp, Write, WriteOp};
use super::types::{
    short_register_name, target_text, DataTarget, Register, ShortRegister, Target,
};
use super::{span_ok, Compiler, Cursor, State};
use crate::errors::{CompileError, Diagnostic};
use crate::number::{decimal, push_decimal};
use crate::text::same_text;
use crate::tokenizer::{token_type_name, TokenType};
use crate::Span;
use vstd::prelude::*;

verus! {

pub open spec fn invalid_target_text() -> Seq<char> {
    "Invalid data target"@
}

pub open spec fn too_big_for_register_text(v: u16, register: ShortRegister) -> Seq<char> {
    "Number '"@ + decimal(v as int) + "' is too big to fit into the "@ + short_register_name(
        register,
    ) + " register"@
}

pub open spec fn ld_not_implemented_text(to: Target, from: Target) -> Seq<char> {
    "'ld' isn't implemented for "@ + target_text(to) + " <- "@ + target_text(from)
}

pub open spec fn unknown_mnemonic_text(word: Seq<char>) -> Seq<char> {
    "Unable to find mnemonic '"@ + word + "'"@
}

pub open spec fn overlap_text(name: Seq<char>, existing: Seq<char>) -> Seq<char> {
    "Subroutine '"@ + name + "' overlaps with '"@ + existing + "'"@
}

pub open spec fn unknown_specifier_text(word: Seq<char>) -> Seq<char> {
    "Unimplemented specifier type '"@ + word + "'"@
}

pub open spec fn invalid_size_text(size: u16) -> Seq<char> {
    "Invalid data size '"@ + decimal(size as int) + "', expected 2"@
}

pub open spec fn unknown_declaration_text(word: Seq<char>) -> Seq<char> {
    "Unimplemented data declaration type '"@ + word + "'"@
}

pub open spec fn unknown_directive_text(word: Seq<char>) -> Seq<char> {
    "Unknown top level directive '"@ + word + "'"@
}

pub open spec fn unexpected_token_text(found: TokenType) -> Seq<char> {
    "Unexpected token "@ + token_type_name(found)
}

/// The opcode that loads a number into a short register, where there is
/// one.
pub open spec fn ld_opcode(register: ShortRegister) -> Option<u8> {
    match register {
        ShortRegister::A => Some(0x3Eu8),
        ShortRegister::B => Some(0x06u8),
        ShortRegister::C => Some(0x0Eu8),
        ShortRegister::D => Some(0x16u8),
        ShortRegister::E => Some(0x1Eu8),
        ShortRegister::H => Some(0x26u8),
        ShortRegister::L => Some(0x2Eu8),
        _ => None,
    }
}

/// The span of a whole instruction, given the span of its mnemonic and the
/// span of its last operand: from the start of the one to the end of the
/// other, on the line of the mnemonic.
pub open spec fn ld_span(start: Span, end: Span) -> Span {
    Span {
        pos: start.pos.start..end.pos.end,
        line: start.line.start..start.line.end,
        col: start.col.start..end.col.end,
    }
}

/// What a pair of operands makes of `ld`.
pub enum LdForm {
    /// a number into a short register
    LoadImmediate(ShortRegister, u16),
    /// the register A into the memory at a number
    StoreAt(u16),
    /// the register A into the memory at the value of a symbol
    StoreAtSymbol(Seq<char>),
    /// anything else
    Unsupported,
}

pub open spec fn ld_form(to: Target, from: Target) -> LdForm {
    match to {
        Target::Register(Register::Short(register)) => match from {
            Target::Immediate(v) => LdForm::LoadImmediate(register, v),
            _ => LdForm::Unsupported,
        },
        Target::Address(address) => match from {
            Target::Register(Register::Short(ShortRegister::A)) => LdForm::StoreAt(address),
            _ => LdForm::Unsupported,
        },
        Target::IdentifierAddress(name) => match from {
            Target::Register(Register::Short(ShortRegister::A)) => LdForm::StoreAtSymbol(name),
            _ => LdForm::Unsupported,
        },
        _ => LdForm::Unsupported,
    }
}

impl Cursor {
    /// Passes a `*` if one comes next, and says whether one did. Where none
    /// does, the span noted stays the one noted before, whatever comment
    /// was passed in looking: the span of the operand in front.
    pub open spec fn read_star(self) -> (bool, Cursor) {
        let (found, c) = self.peek();
        if found matches Some(token) && token.ty == TokenType::Star {
            (true, c.skip())
        } else {
            (false, Cursor { latest_span: self.latest_span, ..c })
        }
    }

    /// Reads an operand: a register, or a number, or a name, in this order
    /// of trial; a `*` behind a number or a name makes an address of it.
    pub open spec fn read_data_target(self, text: Seq<char>) -> (
        Result<Target, Diagnostic>,
        Cursor,
    ) {
        let (register, c1) = self.peek_register(text);
        if register is Ok {
            let (register, c2) = c1.read_register(text);
            match register {
                Ok(register) => (Ok(Target::Register(register)), c2),
                Err(d) => (Err(d), c2),
            }
        } else {
            let (literal, c2) = c1.peek_literal(text);
            if literal is Ok {
                let (literal, c3) = c2.read_literal(text);
                match literal {
                    Ok(v) => {
                        let (star, c4) = c3.read_star();
                        (
                            Ok(
                                if star {
                                    Target::Address(v)
                                } else {
                                    Target::Immediate(v)
                                },
                            ),
                            c4,
                        )
                    },
                    Err(d) => (Err(d), c3),
                }
            } else {
                let (ident, c3) = c2.peek_ident(text);
                if ident is Ok {
                    let (ident, c4) = c3.read_ident(text);
                    match ident {
                        Ok(name) => {
                            let (star, c5) = c4.read_star();
                            (
                                Ok(
                                    if star {
                                        Target::IdentifierAddress(name)
                                    } else {
                                        Target::IdentifierImmediate(name)
                                    },
                                ),
                                c5,
                            )
                        },
                        Err(d) => (Err(d), c4),
                    }
                } else {
                    (
                        Err(Diagnostic { message: invalid_target_text(), span: c3.latest_span }),
                        c3,
                    )
                }
            }
        }
    }
}

impl State {
    /// Encodes `ld` for a pair of operands.
    pub open spec fn encode_ld(self, to: Target, from: Target, start_span: Span) -> State {
        let here = self.cursor.latest_span;
        let unsupported = self.fail(
            Diagnostic {
                message: ld_not_implemented_text(to, from),
                span: ld_span(start_span, here),
            },
        );
        match ld_form(to, from) {
            LdForm::LoadImmediate(register, v) => if v > 0xFF {
                self.fail(
                    Diagnostic { message: too_big_for_register_text(v, register), span: here },
                )
            } else {
                match ld_opcode(register) {
                    Some(opcode) => self.emit(Write::Data(seq![opcode, v as u8])),
                    None => unsupported,
                }
            },
            LdForm::StoreAt(address) => self.emit(
                Write::Data(seq![0x32u8, low_byte(address), high_byte(address)]),
            ),
            LdForm::StoreAtSymbol(name) => self.emit(
                Write::Absolute { opcode: 0x32, symbol: name, span: ld_span(start_span, here) },
            ),
            LdForm::Unsupported => unsupported,
        }
    }

    /// Reads the operands of `ld`, and encodes it.
    pub open spec fn read_ld(self, text: Seq<char>) -> State {
        let start_span = self.cursor.latest_span;
        let (to, c1) = self.cursor.read_data_target(text);
        match to {
            Err(d) => self.with_cursor(c1).fail(d),
            Ok(to) => {
                let (comma, c2) = c1.read_token_with_type(TokenType::Comma);
                match comma {
                    Err(d) => self.with_cursor(c2).fail(d),
                    Ok(_) => {
                        let (from, c3) = c2.read_data_target(text);
                        match from {
                            Err(d) => self.with_cursor(c3).fail(d),
                            Ok(from) => self.with_cursor(c3).encode_ld(to, from, start_span),
                        }
                    },
                }
            },
        }
    }

    /// Reads the label of `jp`, and encodes it.
    pub open spec fn read_jp(self, text: Seq<char>) -> State {
        let (target, c) = self.cursor.read_ident(text);
        match target {
            Err(d) => self.with_cursor(c).fail(d),
            Ok(name) => self.with_cursor(c).emit(
                Write::Absolute { opcode: 0xC3, symbol: name, span: c.latest_span },
            ),
        }
    }

    /// Reads one instruction.
    pub open spec fn read_instruction_line(self, text: Seq<char>) -> State {
        let (mnemonic, c) = self.cursor.read_instruction(text);
        match mnemonic {
            Err(d) => self.with_cursor(c).fail(d),
            Ok(word) => if word == "ld"@ {
                self.with_cursor(c).read_ld(text)
            } else if word == "jp"@ {
                self.with_cursor(c).read_jp(text)
            } else {
                self.with_cursor(c).fail(
                    Diagnostic { message: unknown_mnemonic_text(word), span: c.latest_span },
                )
            },
        }
    }

    /// Reads the instructions of a block, up to and with the `}` that ends
    /// it.
    pub open spec fn read_block_lines(self, text: Seq<char>) -> State
        decreases self.cursor.remaining.len(),
    {
        let (found, c) = self.cursor.peek();
        match found {
            None => self.with_cursor(c),
            Some(token) => if token.ty == TokenType::ClosingCurly {
                self.with_cursor(c.skip())
            } else {
                let line = self.with_cursor(c).read_instruction_line(text);
                let next = line.with_cursor(line.cursor.skip_line_sep());
                if next.cursor.remaining.len() < self.cursor.remaining.len() {
                    next.read_block_lines(text)
                } else {
                    next
                }
            },
        }
    }

    /// Reads a block: `{`, instructions, `}`.
    pub open spec fn read_block(self, text: Seq<char>) -> State {
        let (open, c) = self.cursor.read_token_with_type(TokenType::OpeningCurly);
        match open {
            Err(d) => self.with_cursor(c).fail(d),
            Ok(_) => self.with_cursor(c.skip_line_sep()).read_block_lines(text),
        }
    }

    /// Records the addresses of a subroutine whose block has been read: from
    /// `start` to the address reached. Where they intersect those of a
    /// subroutine recorded before, that is an error, which names both.
    pub open spec fn close_subroutine(self, name: Seq<char>, start: u16, name_span: Span) -> State {
        let (existing, reserved) = self.reserve_area(name, start, self.address);
        match existing {
            Some(other) => reserved.report(
                Diagnostic { message: overlap_text(name, other), span: name_span },
            ),
            None => reserved,
        }
    }

    /// Reads a subroutine: its name, which is defined as the address where
    /// it starts, and its block, whose range of addresses is recorded.
    pub open spec fn read_label_block(self, text: Seq<char>) -> State {
        let (specifier, c) = self.cursor.next();
        match specifier {
            None => self.with_cursor(c),
            Some(token) => {
                let word = token.span.cut(text);
                if word == "sub"@ {
                    let (name, c2) = c.read_ident(text);
                    match name {
                        Err(d) => self.with_cursor(c2).fail(d),
                        Ok(name) => {
                            let name_span = c2.latest_span;
                            let start = self.address;
                            let named = self.with_cursor(c2).resolution(
                                Resolution::Define { name, value: start, span: name_span },
                            );
                            let block = named.with_cursor(named.cursor.skip_line_sep()).read_block(
                                text,
                            );
                            block.close_subroutine(name, start, name_span)
                        },
                    }
                } else {
                    self.with_cursor(c).fail(
                        Diagnostic { message: unknown_specifier_text(word), span: token.span },
                    )
                }
            },
        }
    }

    /// Reads `def NAME = number`.
    pub open spec fn read_def(self, text: Seq<char>) -> State {
        let (name, c1) = self.cursor.read_ident(text);
        match name {
            Err(d) => self.with_cursor(c1).fail(d),
            Ok(name) => {
                let (equals, c2) = c1.read_token_with_type(TokenType::Equals);
                match equals {
                    Err(d) => self.with_cursor(c2).fail(d),
                    Ok(_) => {
                        let (value, c3) = c2.read_literal(text);
                        match value {
                            Err(d) => self.with_cursor(c3).fail(d),
                            Ok(value) => self.with_cursor(c3).resolution(
                                Resolution::Define { name, value, span: c1.latest_span },
                            ),
                        }
                    },
                }
            },
        }
    }

    /// Reads `rom NAME : size = OTHER`, for a declaration whose keyword has
    /// the span `keyword`.
    pub open spec fn read_rom(self, text: Seq<char>, keyword: Span) -> State {
        let (name, c1) = self.cursor.read_ident(text);
        match name {
            Err(d) => self.with_cursor(c1).fail(d),
            Ok(name) => {
                let (colon, c2) = c1.read_token_with_type(TokenType::Colon);
                match colon {
                    Err(d) => self.with_cursor(c2).fail(d),
                    Ok(_) => {
                        let (size, c3) = c2.read_literal(text);
                        match size {
                            Err(d) => self.with_cursor(c3).fail(d),
                            Ok(size) => {
                                let (equals, c4) = c3.read_token_with_type(TokenType::Equals);
                                match equals {
                                    Err(d) => self.with_cursor(c4).fail(d),
                                    Ok(_) => {
                                        let (other, c5) = c4.read_ident(text);
                                        match other {
                                            Err(d) => self.with_cursor(c5).fail(d),
                                            Ok(other) => {
                                                let named = self.with_cursor(c5).resolution(
                                                    Resolution::Define {
                                                        name,
                                                        value: self.address,
                                                        span: c1.latest_span,
                                                    },
                                                );
                                                if size == 2 {
                                                    named.emit(
                                                        Write::Word {
                                                            symbol: other,
                                                            span: c5.latest_span,
                                                        },
                                                    )
                                                } else {
                                                    named.fail(
                                                        Diagnostic {
                                                            message: invalid_size_text(size),
                                                            span: keyword,
                                                        },
                                                    )
                                                }
                                            },
                                        }
                                    },
                                }
                            },
                        }
                    },
                }
            },
        }
    }

    /// Reads a data declaration.
    pub open spec fn read_data_decl(self, text: Seq<char>) -> State {
        let (keyword, c) = self.cursor.next();
        match keyword {
            None => self.with_cursor(c),
            Some(token) => {
                let word = token.span.cut(text);
                if word == "def"@ {
                    self.with_cursor(c).read_def(text)
                } else if word == "rom"@ {
                    self.with_cursor(c).read_rom(text, token.span)
                } else {
                    self.with_cursor(c).fail(
                        Diagnostic { message: unknown_declaration_text(word), span: token.span },
                    )
                }
            },
        }
    }

    /// Reads `(number)` behind `@origin`, and moves the address there.
    pub open spec fn read_origin(self, text: Seq<char>) -> State {
        let (open, c1) = self.cursor.read_token_with_type(TokenType::OpeningParen);
        match open {
            Err(d) => self.with_cursor(c1).fail(d),
            Ok(_) => {
                let (address, c2) = c1.read_literal(text);
                match address {
                    Err(d) => self.with_cursor(c2).fail(d),
                    Ok(address) => {
                        let moved = self.with_cursor(c2).set_address(address);
                        let (close, c3) = c2.read_token_with_type(TokenType::ClosingParen);
                        match close {
                            Err(d) => moved.with_cursor(c3).fail(d),
                            Ok(_) => moved.with_cursor(c3),
                        }
                    },
                }
            },
        }
    }

    /// Reads a pragma: `@`, a directive, and what the directive takes.
    pub open spec fn read_top_level_pragma(self, text: Seq<char>) -> State {
        let (at, c0) = self.cursor.read_token_with_type(TokenType::At);
        let (directive, c1) = c0.read_ident(text);
        match directive {
            Err(d) => self.with_cursor(c1).fail(d),
            Ok(word) => if word == "origin"@ {
                self.with_cursor(c1).read_origin(text)
            } else {
                self.with_cursor(c1).fail(
                    Diagnostic { message: unknown_directive_text(word), span: c1.latest_span },
                )
            },
        }
    }
}

/// The opcode that loads a number into a short register.
fn opcode_for(register: ShortRegister) -> (r: Option<u8>)
    ensures
        r == ld_opcode(register),
{
    match register {
        ShortRegister::A => Some(0x3E),
        ShortRegister::B => Some(0x06),
        ShortRegister::C => Some(0x0E),
        ShortRegister::D => Some(0x16),
        ShortRegister::E => Some(0x1E),
        ShortRegister::H => Some(0x26),
        ShortRegister::L => Some(0x2E),
        _ => None,
    }
}

/// A message: `before`, a word, `after`.
fn framed(before: &str, word: &str, after: &str) -> (r: String)
    ensures
        r@ == before@ + word@ + after@,
{
    let mut message = String::from_str(before);
    message.append(word);
    message.append(after);
    message
}

impl<'a> Compiler<'a> {
    /// Passes a `*` if one comes next.
    fn read_star(&mut self) -> (r: bool)
        requires
            old(self).wf(),
        ensures
            final(self).wf(),
            r == old(self)@.cursor.read_star().0,
            final(self)@ == old(self)@.with_cursor(old(self)@.cursor.read_star().1),
            final(self).text == old(self).text,
            final(self).remaining_tokens@.len() <= old(self).remaining_tokens@.len(),
    {
        let noted = self.latest_span.clone();
        if let Some(next) = self.peek() {
            if next.ty == TokenType::Star {
                self.skip();
                return true;
            }
        }
        self.latest_span = noted;
        false
    }

    /// Reads an operand.
    pub fn read_data_target(&mut self) -> (r: Result<DataTarget, CompileError>)
        requires
            old(self).wf(),
        ensures
            final(self).wf(),
            crate::compiler::types::lift_target(r) == old(self)@.cursor.read_data_target(
                old(self).text@,
            ).0,
            final(self)@ == old(self)@.with_cursor(
                old(self)@.cursor.read_data_target(old(self).text@).1,
            ),
            final(self).text == old(self).text,
            final(self).remaining_tokens@.len() <= old(self).remaining_tokens@.len(),
    {
        if self.peek_register().is_ok() {
            return match self.read_register() {
                Ok(register) => Ok(DataTarget::Register(register)),
                Err(e) => Err(e),
            };
        }
        if self.peek_literal().is_ok() {
            let literal = match self.read_literal() {
                Ok(literal) => literal,
                Err(e) => {
                    return Err(e);
                },
            };
            let is_address = self.read_star();
            return Ok(
                if is_address {
                    DataTarget::Address(literal)
                } else {
                    DataTarget::Immediate(literal)
                },
            );
        }
        if self.peek_ident().is_ok() {
            let ident = match self.read_ident() {
                Ok(ident) => ident.to_owned(),
                Err(e) => {
                    return Err(e);
                },
            };
            let is_address = self.read_star();
            return Ok(
                if is_address {
                    DataTarget::IdentifierAddress(ident)
                } else {
                    DataTarget::IdentifierImmediate(ident)
                },
            );
        }
        Err(
            CompileError {
                message: String::from_str("Invalid data target"),
                span: self.latest_span.clone(),
            },
        )
    }

    /// The span of the instruction whose mnemonic has the span `start` and
    /// whose last operand was looked at last.
    fn instruction_span(&self, start: &Span) -> (span: Span)
        ensures
            span == ld_span(*start, self.latest_span),
    {
        Span {
            pos: start.pos.start..self.latest_span.pos.end,
            line: start.line.start..start.line.end,
            col: start.col.start..self.latest_span.col.end,
        }
    }

    /// Says that `ld` has no encoding for these operands, and gives up the
    /// line.
    fn ld_unsupported(&mut self, to: &DataTarget, from: &DataTarget, start_span: &Span)
        requires
            old(self).wf(),
            span_ok(*start_span, old(self).text@.len()),
        ensures
            final(self).wf(),
            final(self)@ == old(self)@.fail(
                Diagnostic {
                    message: ld_not_implemented_text(to.deep_view(), from.deep_view()),
                    span: ld_span(*start_span, old(self).latest_span),
                },
            ),
            final(self).text == old(self).text,
            final(self).remaining_tokens@.len() <= old(self).remaining_tokens@.len(),
    {
        let mut message = String::from_str("'ld' isn't implemented for ");
        to.describe(&mut message);
        message.append(" <- ");
        from.describe(&mut message);
        let span = self.instruction_span(start_span);
        self.fail(CompileError { message, span });
    }

    /// Encodes `ld` for a pair of operands.
    fn encode_ld(&mut self, to: DataTarget, from: DataTarget, start_span: Span)
        requires
            old(self).wf(),
            span_ok(start_span, old(self).text@.len()),
        ensures
            final(self).wf(),
            final(self)@ == old(self)@.encode_ld(to.deep_view(), from.deep_view(), start_span),
            final(self).text == old(self).text,
            final(self).remaining_tokens@.len() <= old(self).remaining_tokens@.len(),
    {
        match (&to, &from) {
            (DataTarget::Register(Register::Short(short_reg)), DataTarget::Immediate(imm)) => {
                if *imm > 0xFF {
                    let mut message = String::from_str("Number '");
                    push_decimal(&mut message, *imm as u32);
                    message.append("' is too big to fit into the ");
                    message.append(short_reg.name());
                    message.append(" register");
                    let span = self.latest_span.clone();
                    self.fail(CompileError { message, span });
                    return ;
                }
                match opcode_for(*short_reg) {
                    Some(opcode) => {
                        let mut bytes: Vec<u8> = Vec::new();
                        bytes.push(opcode);
                        bytes.push(*imm as u8);
                        assert(bytes@ =~= seq![opcode, *imm as u8]);
                        self.emit(WriteOp::Data(bytes));
                    },
                    None => {
                        self.ld_unsupported(&to, &from, &start_span);
                    },
                }
            },
            (
                DataTarget::Address(addr),
                DataTarget::Register(Register::Short(ShortRegister::A)),
            ) => {
                let mut bytes: Vec<u8> = Vec::new();
                bytes.push(0x32);
                bytes.push((*addr % 256) as u8);
                bytes.push((*addr / 256) as u8);
                assert(bytes@ =~= seq![0x32u8, low_byte(*addr), high_byte(*addr)]);
                self.emit(WriteOp::Data(bytes));
            },
            (
                DataTarget::IdentifierAddress(ident),
                DataTarget::Register(Register::Short(ShortRegister::A)),
            ) => {
                let span = self.instruction_span(&start_span);
                self.emit(WriteOp::Absolute { opcode: 0x32, symbol: ident.clone(), span });
            },
            _ => {
                self.ld_unsupported(&to, &from, &start_span);
            },
        }
    }

    /// Reads the operands of `ld`, and encodes it.
    pub fn read_ld(&mut self)
        requires
            old(self).wf(),
        ensures
            final(self).wf(),
            final(self)@ == old(self)@.read_ld(old(self).text@),
            final(self).text == old(self).text,
            final(self).remaining_tokens@.len() <= old(self).remaining_tokens@.len(),
    {
        let start_span = self.latest_span.clone();
        let to = match self.read_data_target() {
            Ok(to) => to,
            Err(e) => {
                self.fail(e);
                return ;
            },
        };
        if let Err(e) = self.read_token_with_type(TokenType::Comma) {
            self.fail(e);
            return ;
        }
        let from = match self.read_data_target() {
            Ok(from) => from,
            Err(e) => {
                self.fail(e);
                return ;
            },
        };
        self.encode_ld(to, from, start_span);
    }

    /// Reads the label of `jp`, and encodes it.
    pub fn read_jp(&mut self)
        requires
            old(self).wf(),
        ensures
            final(self).wf(),
            final(self)@ == old(self)@.read_jp(old(self).text@),
            final(self).text == old(self).text,
            final(self).remaining_tokens@.len() <= old(self).remaining_tokens@.len(),
    {
        let target = match self.read_ident() {
            Ok(target) => target.to_owned(),
            Err(e) => {
                self.fail(e);
                return ;
            },
        };
        let span = self.latest_span.clone();
        self.emit(WriteOp::Absolute { opcode: 0xC3, symbol: target, span });
    }

    /// Reads one instruction.
    pub fn read_instruction_line(&mut self)
        requires
            old(self).wf(),
        ensures
            final(self).wf(),
            final(self)@ == old(self)@.read_instruction_line(old(self).text@),
            final(self).text == old(self).text,
            final(self).remaining_tokens@.len() <= old(self).remaining_tokens@.len(),
            old(self)@.cursor.peek().0 is Some ==> final(self).remaining_tokens@.len() < old(self).remaining_tokens@.len(),
    {
        let inst = match self.read_instruction() {
            Ok(inst) => inst,
            Err(e) => {
                self.fail(e);
                return ;
            },
        };
        if same_text(inst, "ld") {
            self.read_ld();
        } else if same_text(inst, "jp") {
            self.read_jp();
        } else {
            let message = framed("Unable to find mnemonic '", inst, "'");
            let span = self.latest_span.clone();
            self.fail(CompileError { message, span });
        }
    }

    /// Reads a block: `{`, instructions, `}`.
    pub fn read_block(&mut self)
        requires
            old(self).wf(),
        ensures
            final(self).wf(),
            final(self)@ == old(self)@.read_block(old(self).text@),
            final(self).text == old(self).text,
            final(self).remaining_tokens@.len() <= old(self).remaining_tokens@.len(),
    {
        if let Err(e) = self.read_token_with_type(TokenType::OpeningCurly) {
            self.fail(e);
            return ;
        }
        self.skip_line_sep();
        loop
            invariant_except_break
                self@.read_block_lines(self.text@) == old(self)@.read_block(old(self).text@),
            invariant
                self.wf(),
                self.text == old(self).text,
                self.remaining_tokens@.len() <= old(self).remaining_tokens@.len(),
            ensures
                self.wf(),
                self.text == old(self).text,
                self.remaining_tokens@.len() <= old(self).remaining_tokens@.len(),
                self@ == old(self)@.read_block(old(self).text@),
            decreases self.remaining_tokens@.len(),
        {
            let peek_token = match self.peek() {
                Some(peek_token) => peek_token,
                None => {
                    break ;
                },
            };
            if peek_token.ty == TokenType::ClosingCurly {
                self.skip();
                break ;
            }
            self.read_instruction_line();
            self.skip_line_sep();
        }
    }

    /// Reads a subroutine.
    pub fn read_label_block(&mut self)
        requires
            old(self).wf(),
        ensures
            final(self).wf(),
            final(self)@ == old(self)@.read_label_block(old(self).text@),
            final(self).text == old(self).text,
            final(self).remaining_tokens@.len() <= old(self).remaining_tokens@.len(),
            old(self)@.cursor.peek().0 is Some ==> final(self).remaining_tokens@.len() < old(self).remaining_tokens@.len(),
    {
        let specifier = match self.next() {
            Some(specifier) => specifier,
            None => {
                return ;
            },
        };
        let word = specifier.span.slice(self.text);
        if same_text(word, "sub") {
            let name = match self.read_ident() {
                Ok(name) => name,
                Err(e) => {
                    self.fail(e);
                    return ;
                },
            };
            let name_span = self.latest_span.clone();
            let start_address = self.address;
            self.resolution(
                ResolutionOp::Define {
                    name: name.to_owned(),
                    value: start_address,
                    span: name_span.clone(),
                },
            );
            self.skip_line_sep();
            self.read_block();
            let end_address = self.address;
            if let Some(existing) = self.reserve_area(name, start_address..end_address) {
                let mut message = String::from_str("Subroutine '");
                message.append(name);
                message.append("' overlaps with '");
                message.append(existing.as_str());
                message.append("'");
                self.report(CompileError { message, span: name_span });
            }
        } else {
            let message = framed("Unimplemented specifier type '", word, "'");
            self.fail(CompileError { message, span: specifier.span });
        }
    }

    /// Reads `def NAME = number`.
    fn read_def(&mut self)
        requires
            old(self).wf(),
        ensures
            final(self).wf(),
            final(self)@ == old(self)@.read_def(old(self).text@),
            final(self).text == old(self).text,
            final(self).remaining_tokens@.len() <= old(self).remaining_tokens@.len(),
    {
        let name = match self.read_ident() {
            Ok(name) => name,
            Err(e) => {
                self.fail(e);
                return ;
            },
        };
        let name_span = self.latest_span.clone();
        if let Err(e) = self.read_token_with_type(TokenType::Equals) {
            self.fail(e);
            return ;
        }
        let value = match self.read_literal() {
            Ok(value) => value,
            Err(e) => {
                self.fail(e);
                return ;
            },
        };
        self.resolution(ResolutionOp::Define { name: name.to_owned(), value, span: name_span });
    }

    /// Reads `rom NAME : size = OTHER`.
    fn read_rom(&mut self, keyword: Span)
        requires
            old(self).wf(),
        ensures
            final(self).wf(),
            final(self)@ == old(self)@.read_rom(old(self).text@, keyword),
            final(self).text == old(self).text,
            final(self).remaining_tokens@.len() <= old(self).remaining_tokens@.len(),
    {
        let name = match self.read_ident() {
            Ok(name) => name,
            Err(e) => {
                self.fail(e);
                return ;
            },
        };
        let name_span = self.latest_span.clone();
        if let Err(e) = self.read_token_with_type(TokenType::Colon) {
            self.fail(e);
            return ;
        }
        let size = match self.read_literal() {
            Ok(size) => size,
            Err(e) => {
                self.fail(e);
                return ;
            },
        };
        if let Err(e) = self.read_token_with_type(TokenType::Equals) {
            self.fail(e);
            return ;
        }
        let value_ident = match self.read_ident() {
            Ok(value_ident) => value_ident,
            Err(e) => {
                self.fail(e);
                return ;
            },
        };
        let value_span = self.latest_span.clone();
        let current_address = self.address;
        self.resolution(
            ResolutionOp::Define { name: name.to_owned(), value: current_address, span: name_span },
        );
        if size == 2 {
            self.emit(WriteOp::Word { symbol: value_ident.to_owned(), span: value_span });
        } else {
            let mut message = String::from_str("Invalid data size '");
            push_decimal(&mut message, size as u32);
            message.append("', expected 2");
            self.fail(CompileError { message, span: keyword });
        }
    }

    /// Reads a data declaration.
    pub fn read_data_decl(&mut self)
        requires
            old(self).wf(),
        ensures
            final(self).wf(),
            final(self)@ == old(self)@.read_data_decl(old(self).text@),
            final(self).text == old(self).text,
            final(self).remaining_tokens@.len() <= old(self).remaining_tokens@.len(),
            old(self)@.cursor.peek().0 is Some ==> final(self).remaining_tokens@.len() < old(self).remaining_tokens@.len(),
    {
        let tok = match self.next() {
            Some(tok) => tok,
            None => {
                return ;
            },
        };
        let word = tok.span.slice(self.text);
        if same_text(word, "def") {
            self.read_def();
        } else if same_text(word, "rom") {
            self.read_rom(tok.span);
        } else {
            let message = framed("Unimplemented data declaration type '", word, "'");
            self.fail(CompileError { message, span: tok.span });
        }
    }

    /// Reads `(number)` behind `@origin`, and moves the address there.
    fn read_origin(&mut self)
        requires
            old(self).wf(),
        ensures
            final(self).wf(),
            final(self)@ == old(self)@.read_origin(old(self).text@),
            final(self).text == old(self).text,
            final(self).remaining_tokens@.len() <= old(self).remaining_tokens@.len(),
    {
        if let Err(e) = self.read_token_with_type(TokenType::OpeningParen) {
            self.fail(e);
            return ;
        }
        let new_address = match self.read_literal() {
            Ok(new_address) => new_address,
            Err(e) => {
                self.fail(e);
                return ;
            },
        };
        self.set_address(new_address);
        if let Err(e) = self.read_token_with_type(TokenType::ClosingParen) {
            self.fail(e);
            return ;
        }
    }

    /// Reads a pragma.
    pub fn read_top_level_pragma(&mut self)
        requires
            old(self).wf(),
        ensures
            final(self).wf(),
            final(self)@ == old(self)@.read_top_level_pragma(old(self).text@),
            final(self).text == old(self).text,
            final(self).remaining_tokens@.len() <= old(self).remaining_tokens@.len(),
            old(self)@.cursor.peek().0 is Some ==> final(self).remaining_tokens@.len() < old(self).remaining_tokens@.len(),
    {
        let _ = self.read_token_with_type(TokenType::At);
        let directive = match self.read_ident() {
            Ok(directive) => directive,
            Err(e) => {
                self.fail(e);
                return ;
            },
        };
        if same_text(directive, "origin") {
            self.read_origin();
        } else {
            let message = framed("Unknown top level directive '", directive, "'");
            let span = self.latest_span.clone();
            self.fail(CompileError { message, span });
        }
    }
}

} // verus!
