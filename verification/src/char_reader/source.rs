//! Where a reader's bytes come from.

use std::io::Read;
use vstd::prelude::*;

verus! {

/// A source of bytes: a reader of the standard library, of whose bytes
/// nothing is known before they are there, or bytes in memory, which are
/// handed out in pieces.
pub enum Source<R> {
    Reader(R),
    Bytes {
        data: Vec<u8>,
        /// how many of the bytes have been handed out
        at: usize,
        /// how many are handed out at a time, at most
        piece: usize,
    },
}

/// `Read::read` on the part of `buf` from `from` on. The bytes before `from`
/// are out of the call's reach; of what comes back nothing is taken on
/// trust.
#[verifier::external_body]
fn read_into<R: Read>(src: &mut R, buf: &mut Vec<u8>, from: usize) -> (r: Result<
    usize,
    std::io::Error,
>)
    requires
        from <= old(buf).len(),
    ensures
        final(buf).len() == old(buf).len(),
        forall|i: int| 0 <= i < from ==> final(buf)[i] == old(buf)[i],
{
    src.read(&mut buf[from..])
}

/// `std::io::Error::new` with the kind `InvalidData`.
#[verifier::external_body]
pub(crate) fn invalid_data(message: &str) -> std::io::Error {
    std::io::Error::new(std::io::ErrorKind::InvalidData, message)
}

impl<R> Source<R> {
    /// The bytes that the source has still to deliver, where that is known.
    pub open spec fn rest(&self) -> Option<Seq<u8>> {
        match self {
            Source::Reader(_) => None,
            Source::Bytes { data, at, piece } => Some(
                if *at <= data@.len() {
                    data@.skip(*at as int)
                } else {
                    Seq::empty()
                },
            ),
        }
    }

    /// The bytes in memory as a source that hands out at most `piece` of
    /// them at a time, and at least one.
    pub fn bytes(data: Vec<u8>, piece: usize) -> (r: Self)
        ensures
            r.rest() == Some(data@),
    {
        assert(data@.skip(0) =~= data@);
        Source::Bytes { data, at: 0, piece }
    }
}

impl<R: Read> Source<R> {
    /// Puts bytes into `buf` from `from` on, and returns how many: none at
    /// the end of the source. Bytes in memory come in their order, at least
    /// one where there is one and room for it, and without fail. A reader
    /// that claims to have delivered more than there was room for is a
    /// reader that has failed.
    pub fn read(&mut self, buf: &mut Vec<u8>, from: usize) -> (r: Result<usize, std::io::Error>)
        requires
            from <= old(buf).len(),
        ensures
            final(buf).len() == old(buf).len(),
            forall|i: int| 0 <= i < from ==> final(buf)[i] == old(buf)[i],
            r matches Ok(n) ==> n <= old(buf).len() - from,
            old(self).rest() is None ==> final(self).rest() is None,
            old(self).rest() matches Some(bytes) ==> {
                &&& r matches Ok(n) && n <= bytes.len() && final(buf)@.subrange(
                    from as int,
                    from + n,
                ) == bytes.take(n as int) && final(self).rest() == Some(bytes.skip(n as int)) && (n
                    == 0 ==> bytes.len() == 0 || from == old(buf).len())
            },
    {
        match self {
            Source::Reader(reader) => {
                let room = buf.len() - from;
                match read_into(reader, buf, from) {
                    Ok(n) => {
                        if n > room {
                            Err(invalid_data("The source delivered more than it was asked for"))
                        } else {
                            Ok(n)
                        }
                    },
                    Err(e) => Err(e),
                }
            },
            Source::Bytes { data, at, piece } => {
                if *at >= data.len() {
                    assert(old(self).rest()->Some_0.len() == 0);
                    assert(buf@.subrange(from as int, from + 0) =~= Seq::<u8>::empty().take(0));
                    return Ok(0);
                }
                let start = *at;
                let room = buf.len() - from;
                let total = data.len();
                let left = total - start;
                let mut n = if room < left {
                    room
                } else {
                    left
                };
                if 0 < *piece && *piece < n {
                    n = *piece;
                }
                let ghost bytes = data@.skip(start as int);
                let mut i: usize = 0;
                while i < n
                    invariant
                        i <= n,
                        n <= buf.len() - from,
                        start + n <= data@.len() == total,
                        buf.len() == old(buf).len(),
                        forall|j: int| 0 <= j < from ==> buf[j] == old(buf)[j],
                        forall|j: int| from <= j < from + i ==> #[trigger] buf[j] == data@[start + j - from],
                    decreases n - i,
                {
                    buf[from + i] = data[start + i];
                    i = i + 1;
                }
                *at = start + n;
                proof {
                    assert(buf@.subrange(from as int, from + n) =~= bytes.take(n as int));
                    assert(data@.skip(start + n) =~= bytes.skip(n as int));
                }
                Ok(n)
            },
        }
    }
}

} // verus!
