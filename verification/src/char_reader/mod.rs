//! A reader that turns a byte source into characters, one at a time and with
//! one character of lookahead, and keeps count of where it is in the text.

use std::io::Read;
use vstd::prelude::*;
use vstd::utf8::{encode_scalar, encode_utf8};

pub mod source;
pub mod unicode;

use source::{invalid_data, Source};
use unicode::{
    decode_char, first_char, first_char_len, is_malformed, is_truncated,
    lemma_encoding_starts_with_char, lemma_first_char_encoding, lemma_read_text_encoded,
    read_text, starts_with_char, utf8_char_width,
};

verus! {

/// `std::io::Error`, of which nothing is known here: the library hands such
/// errors on as it gets them.
#[verifier::external_type_specification]
#[verifier::external_body]
pub struct ExIoError(std::io::Error);

/// The number of bytes that the reader asks its source for at a time.
pub const DEFAULT_BUF_SIZE: usize = 5_000;

/// How many line feeds a text holds: the line index of whatever follows it.
pub open spec fn newlines(s: Seq<char>) -> nat
    decreases s.len(),
{
    if s.len() == 0 {
        0
    } else {
        newlines(s.drop_last()) + if s.last() == '\n' {
            1nat
        } else {
            0nat
        }
    }
}

/// How many characters follow the last line feed of a text: the column of
/// whatever follows it.
pub open spec fn column(s: Seq<char>) -> nat
    decreases s.len(),
{
    if s.len() == 0 || s.last() == '\n' {
        0
    } else {
        column(s.drop_last()) + 1
    }
}

/// For each line of a text that holds a character, the offset of its first
/// character; the first line's 0 is there even for an empty text.
pub open spec fn line_starts(s: Seq<char>) -> Seq<usize>
    decreases s.len(),
{
    if s.len() == 0 {
        seq![0usize]
    } else if s.len() >= 2 && s[s.len() - 2] == '\n' {
        line_starts(s.drop_last()).push((s.len() - 1) as usize)
    } else {
        line_starts(s.drop_last())
    }
}

/// A reader's counters.
pub struct Place {
    pub pos: Option<usize>,
    pub line: usize,
    pub col: Option<usize>,
    pub lines: Seq<usize>,
}

/// The counters of a reader that has handed out the text `s`.
pub open spec fn place_after(s: Seq<char>) -> Place {
    if s.len() == 0 {
        Place { pos: None, line: 0, col: None, lines: line_starts(s) }
    } else {
        Place {
            pos: Some((s.len() - 1) as usize),
            line: newlines(s.drop_last()) as usize,
            col: Some(column(s.drop_last()) as usize),
            lines: line_starts(s),
        }
    }
}

/// Reads characters from a byte source of any kind. The source is asked for
/// bytes only when the buffered ones do not hold a whole character.
pub struct CharReader<R> {
    src: Source<R>,
    buffer: Vec<u8>,
    pos: usize,
    len: usize,
    ended: bool,
    char_pos: Option<usize>,
    line: usize,
    col: Option<usize>,
    lines: Vec<usize>,
    was_newline: bool,
    received: Ghost<Seq<u8>>,
    chars: Ghost<Seq<char>>,
}

/// Moves the bytes from `pos` up to `len` to the front of the buffer.
fn move_to_front(buf: &mut Vec<u8>, pos: usize, len: usize)
    requires
        pos <= len <= old(buf).len(),
    ensures
        final(buf).len() == old(buf).len(),
        final(buf)@.subrange(0, len - pos) == old(buf)@.subrange(pos as int, len as int),
{
    let count = len - pos;
    let mut i: usize = 0;
    while i < count
        invariant
            i <= count == len - pos,
            pos <= len <= buf.len() == old(buf).len(),
            forall|j: int| 0 <= j < i ==> buf[j] == old(buf)[pos + j],
            forall|j: int| pos + i <= j < len ==> buf[j] == old(buf)[j],
        decreases count - i,
    {
        let b = buf[pos + i];
        buf[i] = b;
        i = i + 1;
    }
    assert(buf@.subrange(0, len - pos) =~= old(buf)@.subrange(pos as int, len as int));
}

/// Asks the source for bytes, behind the `len` that the buffer holds, until
/// it holds `want` of them or the source has no more. `Ok(false)` says that
/// the source ended first.
fn fill<R: Read>(src: &mut Source<R>, buf: &mut Vec<u8>, len: &mut usize, want: usize) -> (r: Result<
    bool,
    std::io::Error,
>)
    requires
        *old(len) <= old(buf).len(),
        want <= old(buf).len(),
    ensures
        final(buf).len() == old(buf).len(),
        *old(len) <= *final(len) <= final(buf).len(),
        forall|i: int| 0 <= i < *old(len) ==> final(buf)[i] == old(buf)[i],
        r matches Ok(enough) ==> enough == (*final(len) >= want),
        old(src).rest() is None ==> final(src).rest() is None,
        old(src).rest() matches Some(bytes) ==> {
            let got = *final(len) - *old(len);
            &&& r is Ok
            &&& got <= bytes.len()
            &&& final(buf)@.subrange(*old(len) as int, *final(len) as int) == bytes.take(got)
            &&& final(src).rest() == Some(bytes.skip(got))
            &&& r matches Ok(false) ==> got == bytes.len()
        },
{
    let mut held: usize = *len;
    let ghost first = *len;
    proof {
        if let Some(bytes) = src.rest() {
            assert(buf@.subrange(first as int, held as int) =~= bytes.take(0));
            assert(bytes.skip(0) =~= bytes);
        }
    }
    while held < want
        invariant
            first == *old(len),
            first <= held <= buf.len() == old(buf).len(),
            want <= buf.len(),
            forall|i: int| 0 <= i < first ==> buf[i] == old(buf)[i],
            old(src).rest() is None ==> src.rest() is None,
            old(src).rest() matches Some(bytes) ==> {
                &&& held - first <= bytes.len()
                &&& buf@.subrange(first as int, held as int) == bytes.take(held - first)
                &&& src.rest() == Some(bytes.skip(held - first))
            },
        decreases buf.len() - held,
    {
        let ghost before = buf@;
        let ghost rest_before = src.rest();
        let n = match src.read(buf, held) {
            Ok(n) => n,
            Err(e) => {
                *len = held;
                return Err(e);
            },
        };
        proof {
            if let Some(bytes) = old(src).rest() {
                let now = rest_before->Some_0;
                assert(buf@.subrange(first as int, held + n) =~= bytes.take(held + n - first)) by {
                    assert forall|k: int| 0 <= k < held + n - first implies buf@[first + k]
                        == bytes[k] by {
                        if k < held - first {
                            assert(before.subrange(first as int, held as int)[k] == bytes[k]);
                        } else {
                            assert(buf@.subrange(held as int, held + n)[k - (held - first)]
                                == now.take(n as int)[k - (held - first)]);
                        }
                    }
                }
                assert(now.skip(n as int) =~= bytes.skip(held + n - first));
            }
        }
        if n == 0 {
            *len = held;
            return Ok(false);
        }
        held = held + n;
    }
    *len = held;
    Ok(true)
}

impl<R> CharReader<R> {
    /// The characters handed out so far.
    pub closed spec fn chars(&self) -> Seq<char> {
        self.chars@
    }

    /// Every byte that the source has delivered so far, in order.
    pub closed spec fn received(&self) -> Seq<u8> {
        self.received@
    }

    /// The bytes that are buffered and not yet decoded.
    pub closed spec fn pending(&self) -> Seq<u8> {
        self.buffer@.subrange(self.pos as int, self.len as int)
    }

    /// The source has said that it has no more bytes.
    pub closed spec fn source_ended(&self) -> bool {
        self.ended
    }

    /// The bytes that the source has still to deliver, where that is known.
    pub closed spec fn upcoming(&self) -> Option<Seq<u8>> {
        self.src.rest()
    }

    /// The bytes that are still to be read as text, where the source's are
    /// known: those buffered and those that the source has still to deliver.
    pub open spec fn coming(&self) -> Option<Seq<u8>> {
        match self.upcoming() {
            Some(rest) => Some(self.pending() + rest),
            None => None,
        }
    }

    /// All the bytes of the source, where they are known: those delivered
    /// and those still to come.
    pub open spec fn stream(&self) -> Option<Seq<u8>> {
        match self.upcoming() {
            Some(rest) => Some(self.received() + rest),
            None => None,
        }
    }

    /// Reading cannot go on, where the source's bytes are known: they do
    /// not go on as text, or the reader has counted as far as it can. Of a
    /// reader whose source's bytes are not known this says nothing: there an
    /// error may as well be the source's own.
    pub open spec fn stuck(&self) -> bool {
        self.coming() matches Some(bytes) ==> is_malformed(bytes) || (self.chars().len()
            == usize::MAX && starts_with_char(bytes))
    }

    /// The character that the buffered bytes already hold, whole.
    pub open spec fn lookahead(&self) -> Option<char> {
        if starts_with_char(self.pending()) {
            Some(first_char(self.pending()))
        } else {
            None
        }
    }

    /// No further character will come: the source has ended and what is
    /// buffered is not a whole character.
    pub open spec fn at_end(&self) -> bool {
        self.source_ended() && is_truncated(self.pending())
    }

    /// The text as far as the reader knows it: what it handed out and the
    /// character that it holds ready.
    pub open spec fn known(&self) -> Seq<char> {
        match self.lookahead() {
            Some(c) => self.chars().push(c),
            None => self.chars(),
        }
    }

    /// What comes next is settled: a character is ready, or the end is.
    pub open spec fn determined(&self) -> bool {
        self.lookahead() is Some || self.at_end()
    }

    spec fn buffer_wf(&self) -> bool {
        &&& self.buffer.len() == DEFAULT_BUF_SIZE
        &&& self.pos <= self.len <= self.buffer.len()
        &&& self.received@ == encode_utf8(self.chars@) + self.pending()
        &&& self.chars@.len() <= usize::MAX
        &&& self.ended ==> (self.src.rest() matches Some(rest) ==> rest.len() == 0)
    }

    spec fn position_wf(&self) -> bool {
        let s = self.chars@;
        if s.len() == 0 {
            &&& self.char_pos is None
            &&& self.col is None
            &&& self.line == 0
            &&& !self.was_newline
            &&& self.lines@ == line_starts(s)
        } else {
            &&& self.char_pos == Some((s.len() - 1) as usize)
            &&& self.col == Some(column(s.drop_last()) as usize)
            &&& self.line == newlines(s.drop_last())
            &&& self.was_newline == (s.last() == '\n')
            &&& self.lines@ == line_starts(s)
        }
    }

    /// Where the reader stands: the offset, the line and the column of the
    /// character read last, if there is one, and the table of line starts.
    pub closed spec fn place(&self) -> Place {
        Place { pos: self.char_pos, line: self.line, col: self.col, lines: self.lines@ }
    }

    /// The reader's fields agree with one another: the bytes received are
    /// the encoding of the text handed out followed by the buffered bytes,
    /// and the counters are those of that text.
    pub closed spec fn wf(&self) -> bool {
        self.buffer_wf() && self.position_wf()
    }

    /// The reader `self` has come from the reader `before` by asking the
    /// source for bytes and by nothing else: it has handed out nothing
    /// more, it holds what was buffered and perhaps more behind it, and it
    /// has as much still to read.
    spec fn refilled_from(&self, before: &Self) -> bool {
        &&& self.wf()
        &&& self.chars@ == before.chars@
        &&& self.char_pos == before.char_pos
        &&& self.line == before.line
        &&& self.col == before.col
        &&& self.lines == before.lines
        &&& self.was_newline == before.was_newline
        &&& before.received().is_prefix_of(self.received())
        &&& before.pending().is_prefix_of(self.pending())
        &&& self.stream() == before.stream()
        &&& self.coming() == before.coming()
        &&& before.ended ==> self.ended
    }

    /// Once the buffered bytes settle what comes next, so do the bytes that
    /// are still to be read as a whole, and the same way; and the buffered
    /// bytes that settled it before settle it still.
    proof fn lemma_settled(&self, before: &Self)
        requires
            self.refilled_from(before),
        ensures
            self.coming() matches Some(bytes) ==> {
                &&& starts_with_char(self.pending()) ==> starts_with_char(bytes) && first_char(bytes)
                    == first_char(self.pending())
                &&& is_malformed(self.pending()) ==> is_malformed(bytes)
                &&& self.at_end() ==> is_truncated(bytes)
            },
            starts_with_char(before.pending()) ==> starts_with_char(self.pending()) && first_char(
                self.pending(),
            ) == first_char(before.pending()),
            is_malformed(before.pending()) ==> is_malformed(self.pending()),
            before.known().is_prefix_of(self.known()),
    {
        let p = self.pending();
        let q = before.pending();
        unicode::lemma_decode_cases(p);
        unicode::lemma_decode_cases(q);
        assert(forall|k: int| 0 <= k < q.len() ==> q[k] == p[k]);
        if let Some(rest) = self.upcoming() {
            let bytes = p + rest;
            unicode::lemma_decode_cases(bytes);
            assert(forall|k: int| 0 <= k < p.len() ==> p[k] == bytes[k]);
            if self.at_end() {
                assert(bytes =~= p);
            }
        }
    }

    /// What `wf` says of the bytes received.
    pub proof fn lemma_received(&self)
        requires
            self.wf(),
        ensures
            self.received() == encode_utf8(self.chars()) + self.pending(),
            self.chars().len() <= usize::MAX,
            self.place() == place_after(self.chars()),
            !(self.lookahead() is Some && self.at_end()),
            self.source_ended() ==> (self.upcoming() matches Some(rest) ==> rest.len() == 0),
    {
        lemma_position_bounds(self.chars@);
        if self.chars@.len() > 0 {
            lemma_position_bounds(self.chars@.drop_last());
        }
    }

    /// The text of the whole stream, where it is known, is the text handed
    /// out and then the text of what is still to be read. So at the end the
    /// text handed out is the text of the stream, however it was cut into
    /// reads; and a reader that is stuck on bytes that are no text has a
    /// stream that has no text.
    pub proof fn lemma_stream_text(&self)
        requires
            self.wf(),
        ensures
            self.stream() matches Some(all) ==> self.coming() matches Some(bytes) && all
                == encode_utf8(self.chars()) + bytes && read_text(all) == unicode::followed_by(
                self.chars(),
                read_text(bytes),
            ) && all.len() >= self.chars().len() + bytes.len(),
            self.stream() matches Some(all) ==> (self.at_end() ==> read_text(all) == Some(
                self.chars(),
            )),
            self.stream() matches Some(all) ==> (self.stuck() && all.len() <= usize::MAX
                ==> read_text(all) is None),
    {
        if let Some(rest) = self.upcoming() {
            let bytes = self.pending() + rest;
            let all = self.received() + rest;
            assert(all =~= encode_utf8(self.chars()) + bytes);
            lemma_read_text_encoded(self.chars(), bytes);
            if self.at_end() {
                assert(bytes =~= self.pending());
                assert(self.chars() + Seq::<char>::empty() =~= self.chars());
            }
            unicode::lemma_decode_cases(bytes);
        }
    }

    /// At the end of a source that delivered well-formed UTF-8, in whatever
    /// pieces, the text handed out is the text that the bytes encode.
    pub proof fn lemma_valid_stream_is_decoded(&self)
        requires
            self.wf(),
            self.at_end(),
            vstd::utf8::valid_utf8(self.received()),
        ensures
            self.pending().len() == 0,
            self.chars() == vstd::utf8::decode_utf8(self.received()),
    {
        let done = encode_utf8(self.chars());
        let all = self.received();
        vstd::utf8::encode_utf8_valid_utf8(self.chars());
        assert(all.subrange(0, done.len() as int) =~= done);
        assert(all.subrange(done.len() as int, all.len() as int) =~= self.pending());
        if !vstd::utf8::valid_utf8(self.pending()) {
            vstd::utf8::partial_valid_partial_invalid_utf8(all, done.len() as int);
        }
        unicode::lemma_decode_cases(self.pending());
        assert(self.pending().len() == 0);
        assert(all =~= done);
        vstd::utf8::encode_utf8_decode_utf8(self.chars());
    }

    /// Chunk boundaries leave no trace: two readers whose sources delivered
    /// beginnings of the same byte stream, cut into reads in any two ways,
    /// have handed out the same text as far as both have come; and where
    /// they have come equally far, their counters are the same.
    pub proof fn lemma_chunking_leaves_no_trace<R2>(
        &self,
        other: &CharReader<R2>,
        stream: Seq<u8>,
    )
        requires
            self.wf(),
            other.wf(),
            self.received().is_prefix_of(stream),
            other.received().is_prefix_of(stream),
            self.chars().len() <= other.chars().len(),
        ensures
            self.chars() == other.chars().take(self.chars().len() as int),
            self.chars().len() == other.chars().len() ==> self.chars() == other.chars()
                && self.place() == other.place(),
    {
        self.lemma_received();
        other.lemma_received();
        let ea = encode_utf8(self.chars());
        let eb = encode_utf8(other.chars());
        assert(ea.is_prefix_of(stream)) by {
            assert(ea =~= stream.subrange(0, ea.len() as int)) by {
                assert(forall|k: int| 0 <= k < ea.len() ==> ea[k] == (ea + self.pending())[k]);
            }
        }
        assert(eb.is_prefix_of(stream)) by {
            assert(eb =~= stream.subrange(0, eb.len() as int)) by {
                assert(forall|k: int| 0 <= k < eb.len() ==> eb[k] == (eb + other.pending())[k]);
            }
        }
        lemma_same_stream_same_text(self.chars(), other.chars(), stream);
        if self.chars().len() == other.chars().len() {
            assert(other.chars().take(self.chars().len() as int) =~= other.chars());
        }
    }
}

impl<R: Read> CharReader<R> {
    /// A reader at the start of `src`.
    pub fn new(src: R) -> (r: Self)
        ensures
            r.wf(),
            r.chars() == Seq::<char>::empty(),
            r.received() == Seq::<u8>::empty(),
            r.pending() == Seq::<u8>::empty(),
            !r.source_ended(),
            r.upcoming() is None,
    {
        CharReader::from_source(Source::Reader(src))
    }

    /// A reader at the start of a source of either kind.
    pub fn from_source(src: Source<R>) -> (r: Self)
        ensures
            r.wf(),
            r.chars() == Seq::<char>::empty(),
            r.received() == Seq::<u8>::empty(),
            r.pending() == Seq::<u8>::empty(),
            !r.source_ended(),
            r.upcoming() == src.rest(),
            r.stream() == src.rest(),
    {
        let buffer: Vec<u8> = vec![0u8; DEFAULT_BUF_SIZE];
        let mut lines: Vec<usize> = Vec::new();
        lines.push(0);
        let r = CharReader {
            src,
            buffer,
            pos: 0,
            len: 0,
            ended: false,
            char_pos: None,
            line: 0,
            col: None,
            lines,
            was_newline: false,
            received: Ghost(Seq::empty()),
            chars: Ghost(Seq::empty()),
        };
        proof {
            assert(r.pending() =~= Seq::<u8>::empty());
            assert(encode_utf8(r.chars@) + r.pending() =~= Seq::<u8>::empty());
            assert(r.lines@ =~= line_starts(r.chars@));
            if let Some(rest) = src.rest() {
                assert(r.received() + rest =~= rest);
            }
        }
        r
    }

    /// Asks the source for bytes where none are buffered. `Ok(false)` says
    /// that the source has none left.
    fn start_buffer(&mut self) -> (r: Result<bool, std::io::Error>)
        requires
            old(self).wf(),
            old(self).pos >= old(self).len,
        ensures
            final(self).refilled_from(old(self)),
            r matches Ok(true) ==> final(self).pending().len() > 0,
            r matches Ok(false) ==> final(self).ended && final(self).pending().len() == 0,
            old(self).ended ==> (r matches Ok(false)) && final(self).received() == old(self).received(),
            old(self).upcoming() is Some ==> r is Ok,
    {
        assert(self.pending() =~= Seq::<u8>::empty());
        if self.ended {
            return Ok(false);
        }
        let ghost rest_before = self.src.rest();
        let n = match self.src.read(&mut self.buffer, 0) {
            Ok(n) => n,
            Err(e) => {
                assert(self.pending() =~= old(self).pending());
                return Err(e);
            },
        };
        if n == 0 {
            self.ended = true;
            proof {
                assert(self.pending() =~= old(self).pending());
                if let Some(rest) = rest_before {
                    assert(rest.skip(0) =~= rest);
                }
            }
            return Ok(false);
        }
        self.pos = 0;
        self.len = n;
        proof {
            self.received@ = self.received@ + self.buffer@.subrange(0, n as int);
            assert(old(self).received@ =~= encode_utf8(self.chars@));
            if let Some(rest) = rest_before {
                assert(self.pending() == rest.take(n as int));
                assert(self.pending() + rest.skip(n as int) =~= old(self).pending() + rest);
                assert(self.received@ + rest.skip(n as int) =~= old(self).received@ + rest);
            }
        }
        Ok(true)
    }

    /// Asks the source for bytes where fewer than the `want` of a character
    /// are buffered: moves them to the front of the buffer, and asks until
    /// they are `want` or the source has no more, which `Ok(false)` says.
    fn extend_buffer(&mut self, want: usize) -> (r: Result<bool, std::io::Error>)
        requires
            old(self).wf(),
            1 <= want <= 4,
            old(self).pos < old(self).len < old(self).pos + want,
        ensures
            final(self).refilled_from(old(self)),
            r matches Ok(true) ==> final(self).pending().len() >= want,
            r matches Ok(false) ==> final(self).ended && final(self).pending().len() < want,
            old(self).ended ==> (r matches Ok(false)) && final(self).received() == old(self).received() && final(self).pending() == old(self).pending(),
            old(self).upcoming() is Some ==> r is Ok,
            final(self).pos < final(self).len,
    {
        if self.ended {
            return Ok(false);
        }
        let ghost before = self.pending();
        let ghost received_before = self.received@;
        let ghost rest_before = self.src.rest();
        move_to_front(&mut self.buffer, self.pos, self.len);
        self.len = self.len - self.pos;
        self.pos = 0;
        assert(self.pending() =~= before);
        let ghost had = self.len;
        let filled = fill(&mut self.src, &mut self.buffer, &mut self.len, want);
        proof {
            let more = self.buffer@.subrange(had as int, self.len as int);
            self.received@ = self.received@ + more;
            assert(self.pending() =~= before + more);
            assert(self.received@ =~= encode_utf8(self.chars@) + self.pending());
            assert(received_before.is_prefix_of(self.received@));
            assert(before.is_prefix_of(self.pending()));
            if let Some(rest) = rest_before {
                let got = self.len - had;
                assert(self.pending() + rest.skip(got) =~= before + rest);
                assert(self.received@ + rest.skip(got) =~= received_before + rest);
            }
        }
        match filled {
            Ok(true) => Ok(true),
            Ok(false) => {
                self.ended = true;
                proof {
                    if let Some(rest) = rest_before {
                        assert(rest.skip(rest.len() as int) =~= Seq::<u8>::empty());
                    }
                }
                Ok(false)
            },
            Err(e) => Err(e),
        }
    }

    /// Makes sure that a whole character is buffered, asking the source where
    /// it must, and returns it with the number of bytes it takes; `None` at
    /// the end of the source.
    fn load_char(&mut self) -> (r: Result<Option<(char, usize)>, std::io::Error>)
        requires
            old(self).wf(),
        ensures
            final(self).wf(),
            final(self).chars@ == old(self).chars@,
            final(self).char_pos == old(self).char_pos,
            final(self).line == old(self).line,
            final(self).col == old(self).col,
            final(self).lines == old(self).lines,
            final(self).was_newline == old(self).was_newline,
            old(self).received().is_prefix_of(final(self).received()),
            old(self).known().is_prefix_of(final(self).known()),
            final(self).stream() == old(self).stream(),
            final(self).coming() == old(self).coming(),
            match r {
                Ok(Some((c, w))) => final(self).lookahead() == Some(c) && w == first_char_len(
                    final(self).pending(),
                ),
                Ok(None) => final(self).at_end(),
                Err(_) => true,
            },
            old(self).determined() ==> r is Ok && final(self).pending() == old(self).pending()
                && final(self).received() == old(self).received() && final(self).source_ended()
                == old(self).source_ended(),
            is_malformed(old(self).pending()) ==> r is Err,
            old(self).coming() matches Some(bytes) ==> match r {
                Ok(Some((c, w))) => starts_with_char(bytes) && c == first_char(bytes),
                Ok(None) => is_truncated(bytes),
                Err(_) => is_malformed(bytes),
            },
    {
        proof {
            unicode::lemma_decode_cases(self.pending());
        }
        if self.pos >= self.len {
            match self.start_buffer() {
                Ok(true) => {},
                Ok(false) => {
                    proof {
                        self.lemma_settled(old(self));
                    }
                    return Ok(None);
                },
                Err(e) => {
                    return Err(e);
                },
            }
        }
        let ghost started = *self;
        let b = self.buffer[self.pos];
        let w = utf8_char_width(b);
        assert(self.pending()[0] == b);
        if w == 0 {
            proof {
                self.lemma_settled(old(self));
            }
            return Err(invalid_data("Not UTF8"));
        }
        if self.pos + w > self.len {
            match self.extend_buffer(w) {
                Ok(true) => {},
                Ok(false) => {
                    proof {
                        assert(self.pending()[0] == started.pending()[0]);
                        self.lemma_settled(old(self));
                    }
                    return Ok(None);
                },
                Err(e) => {
                    proof {
                        assert(self.pending()[0] == started.pending()[0]);
                        unicode::lemma_decode_cases(self.pending());
                    }
                    return Err(e);
                },
            }
        }
        let ghost tail = self.buffer@.skip(self.pos as int);
        proof {
            assert(self.pending()[0] == started.pending()[0]);
            assert(forall|k: int| 0 <= k < w ==> tail[k] == self.pending()[k]);
            assert(starts_with_char(tail) == starts_with_char(self.pending()));
            assert(starts_with_char(tail) ==> first_char(tail) == first_char(self.pending()));
            unicode::lemma_decode_cases(self.pending());
            self.lemma_settled(old(self));
        }
        match decode_char(self.buffer.as_slice(), self.pos, w) {
            Some(c) => Ok(Some((c, w))),
            None => Err(invalid_data("Not UTF8")),
        }
    }

    /// Hands out the character that is held ready: passes its bytes and
    /// counts it. A reader that has counted as far as it can fails instead,
    /// and stays as it is.
    fn take_char(&mut self, c: char, w: usize) -> (r: Result<(), std::io::Error>)
        requires
            old(self).wf(),
            old(self).lookahead() == Some(c),
            w == first_char_len(old(self).pending()),
        ensures
            final(self).wf(),
            final(self).received() == old(self).received(),
            final(self).upcoming() == old(self).upcoming(),
            final(self).source_ended() == old(self).source_ended(),
            match r {
                Ok(_) => final(self).chars() == old(self).chars().push(c) && final(self).pending() == old(self).pending().skip(w as int) && w <= old(self).pending().len(),
                Err(_) => final(self).chars() == old(self).chars() && final(self).pending()
                    == old(self).pending() && old(self).chars().len() == usize::MAX,
            },
            old(self).chars().len() < usize::MAX ==> r is Ok,
    {
        let index: usize = match self.char_pos {
            Some(p) => {
                if p >= usize::MAX - 1 {
                    return Err(invalid_data("Input too long"));
                }
                p + 1
            },
            None => 0,
        };
        let ghost before = *self;
        proof {
            lemma_first_char_encoding(self.pending());
            lemma_encode_push(self.chars@, c);
            lemma_position_bounds(self.chars@);
            if self.chars@.len() > 0 {
                lemma_position_bounds(self.chars@.drop_last());
            }
        }
        self.pos = self.pos + w;
        self.col = Some(
            match self.col {
                Some(col) => col + 1,
                None => 0,
            },
        );
        self.char_pos = Some(index);
        if self.was_newline {
            self.line = self.line + 1;
            self.col = Some(0);
            self.lines.push(index);
            self.was_newline = false;
        }
        if c == '\n' {
            self.was_newline = true;
        }
        proof {
            self.chars@ = self.chars@.push(c);
            assert(self.chars@.drop_last() =~= before.chars@);
            assert(self.pending() =~= before.pending().skip(w as int));
            assert(before.pending() =~= before.pending().subrange(0, w as int) + self.pending());
            assert(self.received@ =~= encode_utf8(self.chars@) + self.pending());
            assert(self.lines@ =~= line_starts(self.chars@));
        }
        Ok(())
    }

    /// Reads the next character; `None` at the end of the source. Where the
    /// bytes of the source are known, what comes back is decided by those
    /// that are still to be read, whatever the pieces they come in: their
    /// first character where they start with one, `None` where they are at
    /// most the beginning of one, an error where they are neither.
    pub fn next_char(&mut self) -> (r: Result<Option<char>, std::io::Error>)
        requires
            old(self).wf(),
        ensures
            final(self).wf(),
            old(self).received().is_prefix_of(final(self).received()),
            old(self).known().is_prefix_of(final(self).known()),
            final(self).stream() == old(self).stream(),
            match r {
                Ok(Some(c)) => final(self).chars() == old(self).chars().push(c),
                Ok(None) => final(self).chars() == old(self).chars() && final(self).at_end(),
                Err(_) => final(self).chars() == old(self).chars(),
            },
            old(self).determined() ==> (r matches Ok(c) ==> c == old(self).lookahead() && final(self).received() == old(self).received()),
            old(self).determined() && old(self).chars().len() < usize::MAX ==> r is Ok,
            is_malformed(old(self).pending()) ==> r is Err,
            old(self).coming() matches Some(bytes) ==> match r {
                Ok(Some(c)) => starts_with_char(bytes) && c == first_char(bytes) && final(self).coming() == Some(bytes.skip(first_char_len(bytes))),
                Ok(None) => is_truncated(bytes) && final(self).coming() == Some(bytes),
                Err(_) => final(self).coming() == Some(bytes) && final(self).stuck(),
            },
    {
        let loaded = match self.load_char() {
            Ok(loaded) => loaded,
            Err(e) => {
                return Err(e);
            },
        };
        match loaded {
            Some((c, w)) => {
                let ghost loaded_state = *self;
                proof {
                    lemma_first_char_encoding(self.pending());
                    if let Some(bytes) = self.coming() {
                        lemma_first_char_encoding(bytes);
                    }
                    unicode::lemma_decode_cases(old(self).pending());
                }
                match self.take_char(c, w) {
                    Ok(_) => {
                        proof {
                            if let Some(rest) = self.upcoming() {
                                assert(self.pending() + rest =~= (loaded_state.pending()
                                    + rest).skip(w as int));
                                assert(self.received() + rest =~= loaded_state.received() + rest);
                            }
                        }
                        Ok(Some(c))
                    },
                    Err(e) => Err(e),
                }
            },
            None => Ok(None),
        }
    }

    /// Returns the next character and leaves it to be read.
    pub fn peek_char(&mut self) -> (r: Result<Option<char>, std::io::Error>)
        requires
            old(self).wf(),
        ensures
            final(self).wf(),
            final(self).chars() == old(self).chars(),
            old(self).received().is_prefix_of(final(self).received()),
            old(self).known().is_prefix_of(final(self).known()),
            final(self).stream() == old(self).stream(),
            final(self).coming() == old(self).coming(),
            match r {
                Ok(Some(c)) => final(self).lookahead() == Some(c),
                Ok(None) => final(self).at_end(),
                Err(_) => true,
            },
            old(self).determined() ==> r is Ok && r->Ok_0 == old(self).lookahead() && final(self).pending() == old(self).pending() && final(self).received() == old(self).received()
                && final(self).source_ended() == old(self).source_ended(),
            is_malformed(old(self).pending()) ==> r is Err,
            old(self).coming() matches Some(bytes) ==> match r {
                Ok(Some(c)) => starts_with_char(bytes) && c == first_char(bytes),
                Ok(None) => is_truncated(bytes),
                Err(_) => is_malformed(bytes) && final(self).stuck(),
            },
    {
        proof {
            unicode::lemma_decode_cases(self.pending());
        }
        match self.load_char() {
            Ok(Some((c, _))) => Ok(Some(c)),
            Ok(None) => Ok(None),
            Err(e) => Err(e),
        }
    }

    /// The column of the character read last.
    pub fn col(&self) -> (r: usize)
        requires
            self.wf(),
            self.chars().len() > 0,
        ensures
            r == column(self.chars().drop_last()),
    {
        proof {
            lemma_position_bounds(self.chars@.drop_last());
        }
        self.col.unwrap()
    }

    /// The column of the character that comes next.
    pub fn peek_col(&self) -> (r: usize)
        requires
            self.wf(),
        ensures
            r == column(self.chars()),
    {
        proof {
            lemma_position_bounds(self.chars@);
            if self.chars@.len() > 0 {
                lemma_position_bounds(self.chars@.drop_last());
            }
        }
        if self.was_newline {
            0
        } else {
            match self.col {
                Some(col) => col + 1,
                None => 0,
            }
        }
    }

    /// The line of the character read last, 0 before the first.
    pub fn line(&self) -> (r: usize)
        requires
            self.wf(),
        ensures
            r == (if self.chars().len() == 0 {
                0
            } else {
                newlines(self.chars().drop_last())
            }),
    {
        self.line
    }

    /// The line of the character that comes next.
    pub fn peek_line(&self) -> (r: usize)
        requires
            self.wf(),
        ensures
            r == newlines(self.chars()),
    {
        proof {
            lemma_position_bounds(self.chars@);
        }
        if self.was_newline {
            self.line + 1
        } else {
            self.line
        }
    }

    /// The offset of the character read last.
    pub fn pos(&self) -> (r: usize)
        requires
            self.wf(),
            self.chars().len() > 0,
        ensures
            r == self.chars().len() - 1,
    {
        self.char_pos.unwrap()
    }

    /// The offset of the character that comes next.
    pub fn peek_pos(&self) -> (r: usize)
        requires
            self.wf(),
        ensures
            r == self.chars().len(),
    {
        match self.char_pos {
            Some(pos) => pos + 1,
            None => 0,
        }
    }

    /// Gives up the reader for its table of line starts.
    pub fn lines_consume(self) -> (r: Vec<usize>)
        requires
            self.wf(),
        ensures
            r@ == line_starts(self.chars()),
    {
        self.lines
    }
}

pub proof fn lemma_position_bounds(s: Seq<char>)
    ensures
        newlines(s) <= s.len(),
        column(s) <= s.len(),
    decreases s.len(),
{
    if s.len() > 0 {
        lemma_position_bounds(s.drop_last());
    }
}

/// A text without a line feed in its last `k` characters: they all lie on one
/// line, each one column after the one before.
pub proof fn lemma_same_line(s: Seq<char>, k: int)
    requires
        0 <= k <= s.len(),
        forall|i: int| s.len() - k <= i < s.len() ==> s[i] != '\n',
    ensures
        newlines(s) == newlines(s.take(s.len() - k)),
        column(s) == column(s.take(s.len() - k)) + k,
    decreases k,
{
    if k == 0 {
        assert(s.take(s.len() - 0) =~= s);
    } else {
        lemma_same_line(s.drop_last(), k - 1);
        assert(s.drop_last().take(s.len() - k) =~= s.take(s.len() - k));
    }
}

pub proof fn lemma_encode_push(chars: Seq<char>, c: char)
    ensures
        encode_utf8(chars.push(c)) == encode_utf8(chars) + encode_scalar(c as u32),
    decreases chars.len(),
{
    if chars.len() == 0 {
        assert(chars.push(c).drop_first() =~= chars);
        assert(encode_utf8(chars) =~= Seq::<u8>::empty());
        assert(encode_utf8(chars.push(c)) =~= encode_scalar(c as u32) + encode_utf8(chars));
        assert(encode_utf8(chars.push(c)) =~= encode_utf8(chars) + encode_scalar(c as u32));
    } else {
        lemma_encode_push(chars.drop_first(), c);
        assert(chars.push(c).drop_first() =~= chars.drop_first().push(c));
        assert(encode_utf8(chars.push(c)) =~= encode_utf8(chars) + encode_scalar(c as u32));
    }
}

/// Text whose encodings begin the same byte stream is the same text as far
/// as it goes: how the stream was cut into reads leaves no trace in it.
pub proof fn lemma_same_stream_same_text(a: Seq<char>, b: Seq<char>, stream: Seq<u8>)
    requires
        encode_utf8(a).is_prefix_of(stream),
        encode_utf8(b).is_prefix_of(stream),
        a.len() <= b.len(),
    ensures
        a == b.take(a.len() as int),
    decreases a.len(),
{
    if a.len() == 0 {
        assert(a =~= b.take(0));
    } else {
        let ea = encode_scalar(a[0] as u32);
        let eb = encode_scalar(b[0] as u32);
        let ra = encode_utf8(a.drop_first());
        let rb = encode_utf8(b.drop_first());
        assert(encode_utf8(a) == ea + ra);
        assert(encode_utf8(b) == eb + rb);
        assert(ea.is_prefix_of(stream)) by {
            assert(ea =~= stream.subrange(0, ea.len() as int)) by {
                assert(forall|k: int| 0 <= k < ea.len() ==> ea[k] == (ea + ra)[k]);
            }
        }
        assert(eb.is_prefix_of(stream)) by {
            assert(eb =~= stream.subrange(0, eb.len() as int)) by {
                assert(forall|k: int| 0 <= k < eb.len() ==> eb[k] == (eb + rb)[k]);
            }
        }
        lemma_encoding_starts_with_char(a[0], stream);
        lemma_encoding_starts_with_char(b[0], stream);
        let w = ea.len() as int;
        let rest = stream.subrange(w, stream.len() as int);
        assert(ra.is_prefix_of(rest)) by {
            assert(ra =~= rest.subrange(0, ra.len() as int)) by {
                assert(forall|k: int| 0 <= k < ra.len() ==> ra[k] == (ea + ra)[w + k]);
            }
        }
        assert(rb.is_prefix_of(rest)) by {
            assert(rb =~= rest.subrange(0, rb.len() as int)) by {
                assert(forall|k: int| 0 <= k < rb.len() ==> rb[k] == (eb + rb)[w + k]);
            }
        }
        lemma_same_stream_same_text(a.drop_first(), b.drop_first(), rest);
        assert(a =~= b.take(a.len() as int)) by {
            assert forall|k: int| 0 <= k < a.len() implies a[k] == b[k] by {
                if k > 0 {
                    assert(a.drop_first()[k - 1] == b.drop_first().take(a.len() - 1)[k - 1]);
                }
            }
        }
    }
}

/// The line table of a text begins with 0, rises, and holds offsets of
/// characters of the text.
pub proof fn lemma_line_starts(s: Seq<char>)
    ensures
        line_starts(s).len() >= 1,
        line_starts(s)[0] == 0,
        s.len() <= usize::MAX ==> forall|k: int|
            0 <= k < line_starts(s).len() ==> (#[trigger] line_starts(s)[k] < s.len() || (k == 0
                && s.len() == 0)),
        s.len() <= usize::MAX ==> forall|k: int|
            0 <= k < line_starts(s).len() - 1 ==> (#[trigger] line_starts(s)[k]) < line_starts(
                s,
            )[k + 1],
    decreases s.len(),
{
    if s.len() > 0 {
        lemma_line_starts(s.drop_last());
    }
}

} // verus!
