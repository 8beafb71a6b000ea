//! The operands of an instruction.

use crate::errors::{CompileError, Diagnostic};
use crate::number::{decimal, push_decimal};
use crate::text::{quote, quoted};
use vstd::prelude::*;

verus! {

#[derive(Debug, Clone, Copy, Hash, PartialEq, Eq, Structural)]
pub enum ShortRegister {
    A,
    B,
    C,
    D,
    E,
    F,
    H,
    L,
    I,
    R,
}

#[derive(Debug, Clone, Copy, Hash, PartialEq, Eq, Structural)]
pub enum LongRegister {
    AF,
    BC,
    DE,
    HL,
    PC,
    SP,
    IX,
    IY,
}

#[derive(Debug, Clone, Copy, Hash, PartialEq, Eq, Structural)]
pub enum Register {
    Short(ShortRegister),
    Long(LongRegister),
}

/// What an instruction reads from or writes to.
#[derive(Debug, Hash, PartialEq, Eq)]
pub enum DataTarget {
    Register(Register),
    /// the memory at a number
    Address(u16),
    /// a number
    Immediate(u16),
    /// the value of a symbol
    IdentifierImmediate(String),
    /// the memory at the value of a symbol
    IdentifierAddress(String),
}

/// An operand as a value: a `DataTarget` with its names as characters.
pub enum Target {
    Register(Register),
    Address(u16),
    Immediate(u16),
    IdentifierImmediate(Seq<char>),
    IdentifierAddress(Seq<char>),
}

impl DeepView for DataTarget {
    type V = Target;

    open spec fn deep_view(&self) -> Target {
        match self {
            DataTarget::Register(r) => Target::Register(*r),
            DataTarget::Address(a) => Target::Address(*a),
            DataTarget::Immediate(v) => Target::Immediate(*v),
            DataTarget::IdentifierImmediate(s) => Target::IdentifierImmediate(s@),
            DataTarget::IdentifierAddress(s) => Target::IdentifierAddress(s@),
        }
    }
}

/// A result with its operand and its diagnostic as values.
pub open spec fn lift_target(r: Result<DataTarget, CompileError>) -> Result<Target, Diagnostic> {
    match r {
        Ok(target) => Ok(target.deep_view()),
        Err(e) => Err(e.deep_view()),
    }
}

impl Clone for DataTarget {
    fn clone(&self) -> (r: DataTarget)
        ensures
            r.deep_view() == self.deep_view(),
    {
        match self {
            DataTarget::Register(r) => DataTarget::Register(*r),
            DataTarget::Address(a) => DataTarget::Address(*a),
            DataTarget::Immediate(v) => DataTarget::Immediate(*v),
            DataTarget::IdentifierImmediate(s) => DataTarget::IdentifierImmediate(s.clone()),
            DataTarget::IdentifierAddress(s) => DataTarget::IdentifierAddress(s.clone()),
        }
    }
}

/// The name of a short register, as diagnostics write it.
pub open spec fn short_register_name(r: ShortRegister) -> Seq<char> {
    match r {
        ShortRegister::A => "A"@,
        ShortRegister::B => "B"@,
        ShortRegister::C => "C"@,
        ShortRegister::D => "D"@,
        ShortRegister::E => "E"@,
        ShortRegister::F => "F"@,
        ShortRegister::H => "H"@,
        ShortRegister::L => "L"@,
        ShortRegister::I => "I"@,
        ShortRegister::R => "R"@,
    }
}

/// The name of a long register, as diagnostics write it.
pub open spec fn long_register_name(r: LongRegister) -> Seq<char> {
    match r {
        LongRegister::AF => "AF"@,
        LongRegister::BC => "BC"@,
        LongRegister::DE => "DE"@,
        LongRegister::HL => "HL"@,
        LongRegister::PC => "PC"@,
        LongRegister::SP => "SP"@,
        LongRegister::IX => "IX"@,
        LongRegister::IY => "IY"@,
    }
}

/// A register as diagnostics write it: its size, and its name in brackets.
pub open spec fn register_text(r: Register) -> Seq<char> {
    match r {
        Register::Short(s) => "Short("@ + short_register_name(s) + ")"@,
        Register::Long(l) => "Long("@ + long_register_name(l) + ")"@,
    }
}

/// An operand as diagnostics write it: its form, and in brackets the
/// register, the number in decimal, or the name between quotes.
pub open spec fn target_text(t: Target) -> Seq<char> {
    match t {
        Target::Register(r) => "Register("@ + register_text(r) + ")"@,
        Target::Address(a) => "Address("@ + decimal(a as int) + ")"@,
        Target::Immediate(v) => "Immediate("@ + decimal(v as int) + ")"@,
        Target::IdentifierImmediate(s) => "IdentifierImmediate("@ + quoted(s) + ")"@,
        Target::IdentifierAddress(s) => "IdentifierAddress("@ + quoted(s) + ")"@,
    }
}

impl ShortRegister {
    pub fn name(&self) -> (r: &'static str)
        ensures
            r@ == short_register_name(*self),
    {
        match self {
            ShortRegister::A => "A",
            ShortRegister::B => "B",
            ShortRegister::C => "C",
            ShortRegister::D => "D",
            ShortRegister::E => "E",
            ShortRegister::F => "F",
            ShortRegister::H => "H",
            ShortRegister::L => "L",
            ShortRegister::I => "I",
            ShortRegister::R => "R",
        }
    }
}

impl LongRegister {
    pub fn name(&self) -> (r: &'static str)
        ensures
            r@ == long_register_name(*self),
    {
        match self {
            LongRegister::AF => "AF",
            LongRegister::BC => "BC",
            LongRegister::DE => "DE",
            LongRegister::HL => "HL",
            LongRegister::PC => "PC",
            LongRegister::SP => "SP",
            LongRegister::IX => "IX",
            LongRegister::IY => "IY",
        }
    }
}

impl Register {
    /// Appends the register as diagnostics write it.
    pub fn describe(&self, out: &mut String)
        ensures
            final(out)@ == old(out)@ + register_text(*self),
    {
        match self {
            Register::Short(s) => {
                out.append("Short(");
                out.append(s.name());
                out.append(")");
            },
            Register::Long(l) => {
                out.append("Long(");
                out.append(l.name());
                out.append(")");
            },
        }
        assert(out@ =~= old(out)@ + register_text(*self));
    }
}

impl DataTarget {
    /// Appends the operand as diagnostics write it.
    pub fn describe(&self, out: &mut String)
        ensures
            final(out)@ == old(out)@ + target_text(self.deep_view()),
    {
        match self {
            DataTarget::Register(r) => {
                out.append("Register(");
                r.describe(out);
            },
            DataTarget::Address(a) => {
                out.append("Address(");
                push_decimal(out, *a as u32);
            },
            DataTarget::Immediate(v) => {
                out.append("Immediate(");
                push_decimal(out, *v as u32);
            },
            DataTarget::IdentifierImmediate(s) => {
                out.append("IdentifierImmediate(");
                let q = quote(s.as_str());
                out.append(q.as_str());
            },
            DataTarget::IdentifierAddress(s) => {
                out.append("IdentifierAddress(");
                let q = quote(s.as_str());
                out.append(q.as_str());
            },
        }
        out.append(")");
        assert(out@ =~= old(out)@ + target_text(self.deep_view()));
    }
}

} // verus!
