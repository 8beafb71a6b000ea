//! What the two last passes work on: the table of symbols and the binary
//! image, and the operations that the parser has put off for them.

use crate::Span;
use vstd::hash_map::StringHashMap;
use vstd::prelude::*;

verus! {

/// The symbol table and the image, with the place where the next byte goes.
pub struct CompilerContext {
    pub address: usize,
    pub binary: Vec<u8>,
    pub declarations: StringHashMap<u16>,
}

/// A context as a value: the cursor, the bytes of the image, and the table
/// as a map from names to values.
pub struct Context {
    pub address: int,
    pub binary: Seq<u8>,
    pub table: Map<Seq<char>, u16>,
}

impl View for CompilerContext {
    type V = Context;

    open spec fn view(&self) -> Context {
        Context {
            address: self.address as int,
            binary: self.binary@,
            table: self.declarations@,
        }
    }
}

/// An image made as long as `min_length` with zeros, if it is shorter.
pub open spec fn padded(binary: Seq<u8>, min_length: int) -> Seq<u8> {
    if min_length > binary.len() {
        binary + Seq::new((min_length - binary.len()) as nat, |i: int| 0u8)
    } else {
        binary
    }
}

/// An image with `data` in place of its bytes from `at` on.
pub open spec fn overwritten(binary: Seq<u8>, at: int, data: Seq<u8>) -> Seq<u8> {
    Seq::new(
        binary.len(),
        |i: int|
            if at <= i < at + data.len() {
                data[i - at]
            } else {
                binary[i]
            },
    )
}

/// The context after `data` is written at its cursor: the image grows with
/// zeros as far as the data reaches, the data takes its place, and the
/// cursor stands behind it.
pub open spec fn put(ctx: Context, data: Seq<u8>) -> Context {
    Context {
        address: ctx.address + data.len(),
        binary: overwritten(padded(ctx.binary, ctx.address + data.len()), ctx.address, data),
        table: ctx.table,
    }
}

/// What writing does to the image: the data stands at the cursor, the image
/// is as long as it was or as far as the data reaches, whichever is more,
/// and every other byte is what it was, or zero where there was none.
pub proof fn lemma_put(ctx: Context, data: Seq<u8>)
    requires
        0 <= ctx.address,
    ensures
        put(ctx, data).address == ctx.address + data.len(),
        put(ctx, data).table == ctx.table,
        put(ctx, data).binary.len() == (if ctx.address + data.len() > ctx.binary.len() {
            ctx.address + data.len()
        } else {
            ctx.binary.len() as int
        }),
        forall|i: int|
            ctx.address <= i < ctx.address + data.len() ==> #[trigger] put(ctx, data).binary[i]
                == data[i - ctx.address],
        forall|i: int|
            0 <= i < put(ctx, data).binary.len() && !(ctx.address <= i < ctx.address + data.len())
                ==> #[trigger] put(ctx, data).binary[i] == (if i < ctx.binary.len() {
                ctx.binary[i]
            } else {
                0u8
            }),
{
}

pub open spec fn low_byte(v: u16) -> u8 {
    (v % 256) as u8
}

pub open spec fn high_byte(v: u16) -> u8 {
    (v / 256) as u8
}

/// The two bytes of a value are the value, low byte first.
pub proof fn lemma_little_endian(v: u16)
    ensures
        low_byte(v) + 256 * high_byte(v) == v,
{
}

/// A write that the parser has put off until the symbols are known.
#[derive(Debug)]
pub enum WriteOp {
    /// these bytes
    Data(Vec<u8>),
    /// an opcode, then the value of a symbol, low byte first; the span is
    /// where the program refers to the symbol
    Absolute { opcode: u8, symbol: String, span: Span },
    /// the value of a symbol, low byte first; the span is where the program
    /// refers to the symbol
    Word { symbol: String, span: Span },
    /// no bytes: the cursor moves to this address
    Origin(u16),
}

/// A deferred write as a value.
pub enum Write {
    Data(Seq<u8>),
    Absolute { opcode: u8, symbol: Seq<char>, span: Span },
    Word { symbol: Seq<char>, span: Span },
    Origin(u16),
}

impl DeepView for WriteOp {
    type V = Write;

    open spec fn deep_view(&self) -> Write {
        match self {
            WriteOp::Data(bytes) => Write::Data(bytes@),
            WriteOp::Absolute { opcode, symbol, span } => Write::Absolute {
                opcode: *opcode,
                symbol: symbol@,
                span: *span,
            },
            WriteOp::Word { symbol, span } => Write::Word { symbol: symbol@, span: *span },
            WriteOp::Origin(a) => Write::Origin(*a),
        }
    }
}

/// A definition that the parser has put off, or a demand that a symbol be
/// defined by the time the image is written.
#[derive(Debug)]
pub enum ResolutionOp {
    /// gives the name this value, if the name is free; the span is where
    /// the program declares the name
    Define { name: String, value: u16, span: Span },
    /// holds once the name is defined; the span is where the program refers
    /// to the name
    Require { name: String, span: Span },
}

/// A deferred resolution as a value.
pub enum Resolution {
    Define { name: Seq<char>, value: u16, span: Span },
    Require { name: Seq<char>, span: Span },
}

impl DeepView for ResolutionOp {
    type V = Resolution;

    open spec fn deep_view(&self) -> Resolution {
        match self {
            ResolutionOp::Define { name, value, span } => Resolution::Define {
                name: name@,
                value: *value,
                span: *span,
            },
            ResolutionOp::Require { name, span } => Resolution::Require {
                name: name@,
                span: *span,
            },
        }
    }
}

/// How many bytes a write takes.
pub open spec fn width(op: Write) -> int {
    match op {
        Write::Data(bytes) => bytes.len() as int,
        Write::Absolute { .. } => 3,
        Write::Word { .. } => 2,
        Write::Origin(_) => 0,
    }
}

/// The symbol that a write looks up.
pub open spec fn symbol_of(op: Write) -> Option<Seq<char>> {
    match op {
        Write::Absolute { symbol, .. } => Some(symbol),
        Write::Word { symbol, .. } => Some(symbol),
        _ => None,
    }
}

/// The demand that a write makes: that the symbol which it looks up be
/// defined, noted at the place where the program refers to it.
pub open spec fn demand_of(op: Write) -> Option<Resolution> {
    match op {
        Write::Absolute { symbol, span, .. } => Some(Resolution::Require { name: symbol, span }),
        Write::Word { symbol, span } => Some(Resolution::Require { name: symbol, span }),
        _ => None,
    }
}

/// Where the program declares or refers to the name of a resolution.
pub open spec fn place_of(r: Resolution) -> Span {
    match r {
        Resolution::Define { span, .. } => span,
        Resolution::Require { span, .. } => span,
    }
}

/// The bytes of a write, given the table.
pub open spec fn bytes_of(op: Write, table: Map<Seq<char>, u16>) -> Seq<u8> {
    match op {
        Write::Data(bytes) => bytes,
        Write::Absolute { opcode, symbol, .. } => seq![
            opcode,
            low_byte(table[symbol]),
            high_byte(table[symbol]),
        ],
        Write::Word { symbol, .. } => seq![low_byte(table[symbol]), high_byte(table[symbol])],
        Write::Origin(_) => Seq::empty(),
    }
}

/// The context after a write has run.
pub open spec fn apply(op: Write, ctx: Context) -> Context {
    match op {
        Write::Origin(a) => Context { address: a as int, ..ctx },
        _ => put(ctx, bytes_of(op, ctx.table)),
    }
}

/// Whether a resolution succeeds on a table, and the table after it.
pub open spec fn attempt(op: Resolution, table: Map<Seq<char>, u16>) -> (bool, Map<Seq<char>, u16>) {
    match op {
        Resolution::Define { name, value, .. } => if table.dom().contains(name) {
            (false, table)
        } else {
            (true, table.insert(name, value))
        },
        Resolution::Require { name, .. } => (table.dom().contains(name), table),
    }
}

impl CompilerContext {
    /// A context with nothing in it.
    pub fn new() -> (r: CompilerContext)
        ensures
            r@ == (Context { address: 0, binary: Seq::empty(), table: Map::empty() }),
    {
        CompilerContext { address: 0, binary: Vec::new(), declarations: StringHashMap::new() }
    }

    /// Makes the image at least `min_length` bytes long.
    pub fn reserve_min(&mut self, min_length: usize)
        ensures
            final(self)@ == (Context {
                binary: padded(old(self)@.binary, min_length as int),
                ..old(self)@
            }),
    {
        while self.binary.len() < min_length
            invariant
                self.address == old(self).address,
                self.declarations@ == old(self).declarations@,
                old(self).binary@.len() <= self.binary@.len(),
                self.binary@.len() <= min_length || self.binary@ == old(self).binary@,
                forall|i: int| 0 <= i < old(self).binary@.len() ==> self.binary@[i] == old(self).binary@[i],
                forall|i: int| old(self).binary@.len() <= i < self.binary@.len() ==> self.binary@[i] == 0,
            decreases min_length - self.binary.len(),
        {
            self.binary.push(0);
        }
        assert(self.binary@ =~= padded(old(self)@.binary, min_length as int));
    }

    /// Writes `data` at the cursor and moves the cursor behind it.
    pub fn write(&mut self, data: &[u8])
        requires
            old(self).address + data@.len() <= usize::MAX,
        ensures
            final(self)@ == put(old(self)@, data@),
    {
        let start = self.address;
        let end_address = start + data.len();
        self.reserve_min(end_address);
        let ghost grown = self.binary@;
        let mut i: usize = 0;
        while i < data.len()
            invariant
                i <= data@.len(),
                start + data@.len() == end_address <= self.binary@.len() == grown.len(),
                self.address == start,
                self@.table == old(self)@.table,
                forall|j: int|
                    0 <= j < grown.len() ==> self.binary@[j] == (if start <= j < start + i {
                        data@[j - start]
                    } else {
                        grown[j]
                    }),
            decreases data@.len() - i,
        {
            self.binary[start + i] = data[i];
            i = i + 1;
        }
        self.address = end_address;
        assert(self.binary@ =~= overwritten(grown, start as int, data@));
    }

    /// Moves the cursor.
    pub fn set_address(&mut self, new_address: u16)
        ensures
            final(self)@ == (Context { address: new_address as int, ..old(self)@ }),
    {
        self.address = new_address as usize;
    }

    /// Declares a name that is not declared yet.
    pub fn set(&mut self, name: &str, value: u16)
        requires
            !old(self)@.table.dom().contains(name@),
        ensures
            final(self)@ == (Context {
                table: old(self)@.table.insert(name@, value),
                ..old(self)@
            }),
    {
        self.declarations.insert(name.to_owned(), value);
    }

    /// The value of a name, if it is declared.
    pub fn get(&self, name: &str) -> (r: Option<u16>)
        ensures
            r == (if self@.table.dom().contains(name@) {
                Some(self@.table[name@])
            } else {
                None::<u16>
            }),
    {
        match self.declarations.get(name) {
            Some(value) => Some(*value),
            None => None,
        }
    }
}

impl ResolutionOp {
    /// Tries the resolution on the table, and says whether it held.
    pub fn run(&self, ctx: &mut CompilerContext) -> (done: bool)
        ensures
            (done, final(ctx)@.table) == attempt(self.deep_view(), old(ctx)@.table),
            final(ctx)@.address == old(ctx)@.address,
            final(ctx)@.binary == old(ctx)@.binary,
    {
        match self {
            ResolutionOp::Define { name, value, .. } => {
                if ctx.get(name.as_str()).is_some() {
                    false
                } else {
                    ctx.set(name.as_str(), *value);
                    true
                }
            },
            ResolutionOp::Require { name, .. } => ctx.get(name.as_str()).is_some(),
        }
    }
}

impl WriteOp {
    /// Writes the bytes of this operation into the image.
    pub fn run(&self, ctx: &mut CompilerContext)
        requires
            old(ctx).address + width(self.deep_view()) <= usize::MAX,
            symbol_of(self.deep_view()) matches Some(s) ==> old(ctx)@.table.dom().contains(s),
        ensures
            final(ctx)@ == apply(self.deep_view(), old(ctx)@),
    {
        match self {
            WriteOp::Data(bytes) => {
                ctx.write(bytes.as_slice());
            },
            WriteOp::Absolute { opcode, symbol, .. } => {
                if let Some(value) = ctx.get(symbol.as_str()) {
                    let data = [*opcode, (value % 256) as u8, (value / 256) as u8];
                    assert(data@ =~= bytes_of(self.deep_view(), ctx@.table));
                    ctx.write(data.as_slice());
                }
            },
            WriteOp::Word { symbol, .. } => {
                if let Some(value) = ctx.get(symbol.as_str()) {
                    let data = [(value % 256) as u8, (value / 256) as u8];
                    assert(data@ =~= bytes_of(self.deep_view(), ctx@.table));
                    ctx.write(data.as_slice());
                }
            },
            WriteOp::Origin(address) => {
                ctx.set_address(*address);
            },
        }
    }
}

} // verus!
