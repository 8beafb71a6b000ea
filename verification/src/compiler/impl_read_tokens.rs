//! Reading one thing from the tokens: a name, a register, a number.

use super::types::{LongRegister, Register, ShortRegister};
use super::{span_ok, Compiler, Cursor, State};
use crate::compiler::impl_helper::end_of_input_text;
use crate::errors::{lift, lift_text, CompileError, Diagnostic};
use crate::number::{decimal, number_error_text, parse_i32, parse_number, push_integer};
use crate::text::same_text;
use crate::tokenizer::{token_type_name, Token, TokenType};
use vstd::prelude::*;

verus! {

/// The register that a word names. Only the upper-case names do.
pub open spec fn register_named(word: Seq<char>) -> Option<Register> {
    if word == "A"@ {
        Some(Register::Short(ShortRegister::A))
    } else if word == "B"@ {
        Some(Register::Short(ShortRegister::B))
    } else if word == "C"@ {
        Some(Register::Short(ShortRegister::C))
    } else if word == "D"@ {
        Some(Register::Short(ShortRegister::D))
    } else if word == "E"@ {
        Some(Register::Short(ShortRegister::E))
    } else if word == "F"@ {
        Some(Register::Short(ShortRegister::F))
    } else if word == "H"@ {
        Some(Register::Short(ShortRegister::H))
    } else if word == "L"@ {
        Some(Register::Short(ShortRegister::L))
    } else if word == "I"@ {
        Some(Register::Short(ShortRegister::I))
    } else if word == "R"@ {
        Some(Register::Short(ShortRegister::R))
    } else if word == "AF"@ {
        Some(Register::Long(LongRegister::AF))
    } else if word == "BC"@ {
        Some(Register::Long(LongRegister::BC))
    } else if word == "DE"@ {
        Some(Register::Long(LongRegister::DE))
    } else if word == "HL"@ {
        Some(Register::Long(LongRegister::HL))
    } else if word == "PC"@ {
        Some(Register::Long(LongRegister::PC))
    } else if word == "SP"@ {
        Some(Register::Long(LongRegister::SP))
    } else if word == "IX"@ {
        Some(Register::Long(LongRegister::IX))
    } else if word == "IY"@ {
        Some(Register::Long(LongRegister::IY))
    } else {
        None
    }
}

/// What is said of a register token whose word names no register.
pub open spec fn unknown_register_text() -> Seq<char> {
    "Unimplemented register"@
}

/// What is said of a token that is no number where one is wanted.
pub open spec fn not_a_literal_text(found: TokenType) -> Seq<char> {
    "Expected a literal, found "@ + token_type_name(found)
}

/// What is said of a number that 16 bits cannot hold.
pub open spec fn too_big_text(v: int) -> Seq<char> {
    "Number '"@ + decimal(v) + "' is too big to fit into the A register"@
}

/// The digits of a literal: all of a decimal one, and what follows the `$`
/// of a hexadecimal one.
pub open spec fn literal_digits(ty: TokenType, word: Seq<char>) -> Seq<char> {
    if ty == TokenType::HexNumber && word.len() > 0 {
        word.skip(1)
    } else {
        word
    }
}

/// The base that a literal is written in.
pub open spec fn literal_radix(ty: TokenType) -> int {
    if ty == TokenType::HexNumber {
        16
    } else {
        10
    }
}

/// An integer of at most 16 bits as an unsigned one; a negative one counts
/// down from 0x10000.
pub open spec fn word16(v: int) -> u16 {
    (v % 0x10000) as u16
}

/// The number that a token stands for.
pub open spec fn literal_of(token: Token, text: Seq<char>) -> Result<u16, Diagnostic> {
    if token.ty != TokenType::HexNumber && token.ty != TokenType::DecNumber {
        Err(Diagnostic { message: not_a_literal_text(token.ty), span: token.span })
    } else {
        match parse_number(
            literal_digits(token.ty, token.span.cut(text)),
            literal_radix(token.ty),
        ) {
            Err(e) => Err(Diagnostic { message: number_error_text(e), span: token.span }),
            Ok(v) => if v > 0xFFFF || v < -0xFFFF {
                Err(Diagnostic { message: too_big_text(v), span: token.span })
            } else {
                Ok(word16(v))
            },
        }
    }
}

/// The text of a token, or the diagnostic that came in its place.
pub open spec fn cut_of(r: Result<Token, Diagnostic>, text: Seq<char>) -> Result<
    Seq<char>,
    Diagnostic,
> {
    match r {
        Ok(token) => Ok(token.span.cut(text)),
        Err(d) => Err(d),
    }
}

impl Cursor {
    /// Reads a name.
    pub open spec fn read_ident(self, text: Seq<char>) -> (Result<Seq<char>, Diagnostic>, Cursor) {
        let (r, c) = self.read_token_with_type(TokenType::Identifier);
        (cut_of(r, text), c)
    }

    /// The name that comes next.
    pub open spec fn peek_ident(self, text: Seq<char>) -> (Result<Seq<char>, Diagnostic>, Cursor) {
        let (r, c) = self.peek_token_with_type(TokenType::Identifier);
        (cut_of(r, text), c)
    }

    /// Reads a mnemonic.
    pub open spec fn read_instruction(self, text: Seq<char>) -> (
        Result<Seq<char>, Diagnostic>,
        Cursor,
    ) {
        let (r, c) = self.read_token_with_type(TokenType::Instruction);
        (cut_of(r, text), c)
    }

    /// The register that comes next.
    pub open spec fn peek_register(self, text: Seq<char>) -> (Result<Register, Diagnostic>, Cursor) {
        let (r, c) = self.peek_token_with_type(TokenType::Register);
        match r {
            Err(d) => (Err(d), c),
            Ok(token) => match register_named(token.span.cut(text)) {
                Some(register) => (Ok(register), c),
                None => (
                    Err(Diagnostic { message: unknown_register_text(), span: token.span }),
                    c,
                ),
            },
        }
    }

    /// Reads a register.
    pub open spec fn read_register(self, text: Seq<char>) -> (Result<Register, Diagnostic>, Cursor) {
        let (r, c) = self.peek_register(text);
        match r {
            Ok(register) => (Ok(register), c.skip()),
            Err(d) => (Err(d), c),
        }
    }

    /// The number that comes next.
    pub open spec fn peek_literal(self, text: Seq<char>) -> (Result<u16, Diagnostic>, Cursor) {
        let (found, c) = self.peek();
        match found {
            None => (Err(Diagnostic { message: end_of_input_text(), span: c.latest_span }), c),
            Some(token) => (literal_of(token, text), Cursor { latest_span: token.span, ..c }),
        }
    }

    /// Reads a number.
    pub open spec fn read_literal(self, text: Seq<char>) -> (Result<u16, Diagnostic>, Cursor) {
        let (r, c) = self.peek_literal(text);
        match r {
            Ok(v) => (Ok(v), c.skip()),
            Err(d) => (Err(d), c),
        }
    }
}

/// The register that a word names.
fn register_by_name(word: &str) -> (r: Option<Register>)
    ensures
        r == register_named(word@),
{
    if same_text(word, "A") {
        Some(Register::Short(ShortRegister::A))
    } else if same_text(word, "B") {
        Some(Register::Short(ShortRegister::B))
    } else if same_text(word, "C") {
        Some(Register::Short(ShortRegister::C))
    } else if same_text(word, "D") {
        Some(Register::Short(ShortRegister::D))
    } else if same_text(word, "E") {
        Some(Register::Short(ShortRegister::E))
    } else if same_text(word, "F") {
        Some(Register::Short(ShortRegister::F))
    } else if same_text(word, "H") {
        Some(Register::Short(ShortRegister::H))
    } else if same_text(word, "L") {
        Some(Register::Short(ShortRegister::L))
    } else if same_text(word, "I") {
        Some(Register::Short(ShortRegister::I))
    } else if same_text(word, "R") {
        Some(Register::Short(ShortRegister::R))
    } else if same_text(word, "AF") {
        Some(Register::Long(LongRegister::AF))
    } else if same_text(word, "BC") {
        Some(Register::Long(LongRegister::BC))
    } else if same_text(word, "DE") {
        Some(Register::Long(LongRegister::DE))
    } else if same_text(word, "HL") {
        Some(Register::Long(LongRegister::HL))
    } else if same_text(word, "PC") {
        Some(Register::Long(LongRegister::PC))
    } else if same_text(word, "SP") {
        Some(Register::Long(LongRegister::SP))
    } else if same_text(word, "IX") {
        Some(Register::Long(LongRegister::IX))
    } else if same_text(word, "IY") {
        Some(Register::Long(LongRegister::IY))
    } else {
        None
    }
}

/// The number that a token stands for in `text`.
fn read_number(text: &str, token: &Token) -> (r: Result<u16, CompileError>)
    requires
        span_ok(token.span, text@.len()),
    ensures
        lift(r) == literal_of(*token, text@),
{
    let parsed = match token.ty {
        TokenType::HexNumber => {
            let digits = if token.span.pos.start < token.span.pos.end {
                text.substring_char(token.span.pos.start + 1, token.span.pos.end)
            } else {
                token.span.slice(text)
            };
            assert(digits@ =~= literal_digits(token.ty, token.span.cut(text@)));
            parse_i32(digits, 16)
        },
        TokenType::DecNumber => parse_i32(token.span.slice(text), 10),
        _ => {
            let mut message = String::from_str("Expected a literal, found ");
            message.append(token.ty.name());
            return Err(CompileError { message, span: token.span.clone() });
        },
    };
    let value = match parsed {
        Ok(value) => value,
        Err(e) => {
            return Err(CompileError { message: e.message(), span: token.span.clone() });
        },
    };
    if value > 0xFFFF || value < -0xFFFF {
        let mut message = String::from_str("Number '");
        push_integer(&mut message, value);
        message.append("' is too big to fit into the A register");
        return Err(CompileError { message, span: token.span.clone() });
    }
    if value >= 0 {
        Ok(value as u16)
    } else {
        Ok((0x10000 + value) as u16)
    }
}

impl<'a> Compiler<'a> {
    /// Reads a name.
    pub fn read_ident(&mut self) -> (r: Result<&'a str, CompileError>)
        requires
            old(self).cursor_ok(),
        ensures
            final(self).cursor_ok(),
            lift_text(r) == old(self)@.cursor.read_ident(old(self).text@).0,
            final(self)@ == (State {
                cursor: old(self)@.cursor.read_ident(old(self).text@).1,
                ..old(self)@
            }),
            final(self).text == old(self).text,
            final(self).remaining_tokens@.len() <= old(self).remaining_tokens@.len(),
            r is Ok || old(self)@.cursor.peek().0 is Some ==> final(self).remaining_tokens@.len()
                < old(self).remaining_tokens@.len(),
    {
        match self.read_token_with_type(TokenType::Identifier) {
            Ok(token) => Ok(token.span.slice(self.text)),
            Err(e) => Err(e),
        }
    }

    /// The name that comes next.
    pub fn peek_ident(&mut self) -> (r: Result<&'a str, CompileError>)
        requires
            old(self).cursor_ok(),
        ensures
            final(self).cursor_ok(),
            lift_text(r) == old(self)@.cursor.peek_ident(old(self).text@).0,
            final(self)@ == (State {
                cursor: old(self)@.cursor.peek_ident(old(self).text@).1,
                ..old(self)@
            }),
            final(self).text == old(self).text,
            final(self).remaining_tokens@.len() <= old(self).remaining_tokens@.len(),
            r is Ok ==> final(self).remaining_tokens@.len() > 0,
    {
        match self.peek_token_with_type(TokenType::Identifier) {
            Ok(token) => Ok(token.span.slice(self.text)),
            Err(e) => Err(e),
        }
    }

    /// Reads a register.
    pub fn read_register(&mut self) -> (r: Result<Register, CompileError>)
        requires
            old(self).cursor_ok(),
        ensures
            final(self).cursor_ok(),
            lift(r) == old(self)@.cursor.read_register(old(self).text@).0,
            final(self)@ == (State {
                cursor: old(self)@.cursor.read_register(old(self).text@).1,
                ..old(self)@
            }),
            final(self).text == old(self).text,
            final(self).remaining_tokens@.len() <= old(self).remaining_tokens@.len(),
            r is Ok ==> final(self).remaining_tokens@.len() < old(self).remaining_tokens@.len(),
    {
        let register = match self.peek_register() {
            Ok(register) => register,
            Err(e) => {
                return Err(e);
            },
        };
        self.skip();
        Ok(register)
    }

    /// The register that comes next.
    pub fn peek_register(&mut self) -> (r: Result<Register, CompileError>)
        requires
            old(self).cursor_ok(),
        ensures
            final(self).cursor_ok(),
            lift(r) == old(self)@.cursor.peek_register(old(self).text@).0,
            final(self)@ == (State {
                cursor: old(self)@.cursor.peek_register(old(self).text@).1,
                ..old(self)@
            }),
            final(self).text == old(self).text,
            final(self).remaining_tokens@.len() <= old(self).remaining_tokens@.len(),
            r is Ok ==> final(self).remaining_tokens@.len() > 0,
    {
        let token = match self.peek_token_with_type(TokenType::Register) {
            Ok(token) => token,
            Err(e) => {
                return Err(e);
            },
        };
        match register_by_name(token.span.slice(self.text)) {
            Some(register) => Ok(register),
            None => Err(
                CompileError {
                    message: String::from_str("Unimplemented register"),
                    span: token.span,
                },
            ),
        }
    }

    /// Reads a mnemonic.
    pub fn read_instruction(&mut self) -> (r: Result<&'a str, CompileError>)
        requires
            old(self).cursor_ok(),
        ensures
            final(self).cursor_ok(),
            lift_text(r) == old(self)@.cursor.read_instruction(old(self).text@).0,
            final(self)@ == (State {
                cursor: old(self)@.cursor.read_instruction(old(self).text@).1,
                ..old(self)@
            }),
            final(self).text == old(self).text,
            final(self).remaining_tokens@.len() <= old(self).remaining_tokens@.len(),
            r is Ok || old(self)@.cursor.peek().0 is Some ==> final(self).remaining_tokens@.len()
                < old(self).remaining_tokens@.len(),
    {
        match self.read_token_with_type(TokenType::Instruction) {
            Ok(token) => Ok(token.span.slice(self.text)),
            Err(e) => Err(e),
        }
    }

    /// Reads a number.
    pub fn read_literal(&mut self) -> (r: Result<u16, CompileError>)
        requires
            old(self).cursor_ok(),
        ensures
            final(self).cursor_ok(),
            lift(r) == old(self)@.cursor.read_literal(old(self).text@).0,
            final(self)@ == (State {
                cursor: old(self)@.cursor.read_literal(old(self).text@).1,
                ..old(self)@
            }),
            final(self).text == old(self).text,
            final(self).remaining_tokens@.len() <= old(self).remaining_tokens@.len(),
            r is Ok ==> final(self).remaining_tokens@.len() < old(self).remaining_tokens@.len(),
    {
        let literal = match self.peek_literal() {
            Ok(literal) => literal,
            Err(e) => {
                return Err(e);
            },
        };
        self.skip();
        Ok(literal)
    }

    /// The number that comes next.
    pub fn peek_literal(&mut self) -> (r: Result<u16, CompileError>)
        requires
            old(self).cursor_ok(),
        ensures
            final(self).cursor_ok(),
            lift(r) == old(self)@.cursor.peek_literal(old(self).text@).0,
            final(self)@ == (State {
                cursor: old(self)@.cursor.peek_literal(old(self).text@).1,
                ..old(self)@
            }),
            final(self).text == old(self).text,
            final(self).remaining_tokens@.len() <= old(self).remaining_tokens@.len(),
            r is Ok ==> final(self).remaining_tokens@.len() > 0,
    {
        let token = match self.peek() {
            Some(token) => token,
            None => {
                return Err(
                    CompileError {
                        message: String::from_str("Expected identifier, found EOF"),
                        span: self.latest_span.clone(),
                    },
                );
            },
        };
        self.latest_span = token.span.clone();
        read_number(self.text, &token)
    }
}

} // verus!
