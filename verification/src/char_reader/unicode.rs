//! Decoding one UTF-8 encoded character from the front of a byte sequence.

use vstd::prelude::*;
use vstd::utf8::{
    char_u32_cast, codepoint_width_1, codepoint_width_2, codepoint_width_3, codepoint_width_4,
    decode_first_scalar, decode_utf8_first_scalar, encode_scalar, encode_utf8,
    encode_utf8_first_scalar, is_continuation_byte, length_of_first_scalar, pop_first_scalar,
    take_first_scalar, valid_first_scalar, valid_utf8,
};

verus! {

/// How many bytes the character that starts with `b` is encoded in; 0 where
/// `b` starts no character: a continuation byte, a byte that could only
/// start the longer form of a short code point, or one that could only
/// start a code point above the last.
pub open spec fn char_width(b: u8) -> nat {
    if b <= 0x7f {
        1
    } else if 0xc2 <= b <= 0xdf {
        2
    } else if 0xe0 <= b <= 0xef {
        3
    } else if 0xf0 <= b <= 0xf4 {
        4
    } else {
        0
    }
}

/// The bytes start with a whole, well-formed character.
pub open spec fn starts_with_char(bytes: Seq<u8>) -> bool {
    valid_first_scalar(bytes)
}

/// The character at the front of the bytes.
pub open spec fn first_char(bytes: Seq<u8>) -> char {
    decode_first_scalar(bytes) as char
}

/// The number of bytes that the character at the front takes.
pub open spec fn first_char_len(bytes: Seq<u8>) -> int {
    length_of_first_scalar(bytes)
}

/// The bytes are the beginning of a character, of which at least one byte
/// is still missing; so are no bytes at all.
pub open spec fn is_truncated(bytes: Seq<u8>) -> bool {
    bytes.len() == 0 || (char_width(bytes[0]) > 0 && bytes.len() < char_width(bytes[0]))
}

/// The bytes cannot be the beginning of any well-formed character, whatever
/// follows them.
pub open spec fn is_malformed(bytes: Seq<u8>) -> bool {
    bytes.len() > 0 && (char_width(bytes[0]) == 0 || (bytes.len() >= char_width(bytes[0])
        && !valid_first_scalar(bytes)))
}

/// Of the three cases exactly one holds of any byte sequence.
pub proof fn lemma_decode_cases(bytes: Seq<u8>)
    ensures
        starts_with_char(bytes) || is_truncated(bytes) || is_malformed(bytes),
        !(starts_with_char(bytes) && is_truncated(bytes)),
        !(starts_with_char(bytes) && is_malformed(bytes)),
        !(is_truncated(bytes) && is_malformed(bytes)),
        starts_with_char(bytes) ==> first_char_len(bytes) == char_width(bytes[0])
            && first_char_len(bytes) <= bytes.len(),
{
    if bytes.len() > 0 {
        lemma_never_leading(bytes[0], bytes[1], bytes[2], bytes[3]);
    }
}

/// Some bytes look like the start of a character and are the start of
/// none: what they would start is the longer form of a short code point, or
/// a code point above the last.
proof fn lemma_never_leading(b0: u8, b1: u8, b2: u8, b3: u8)
    ensures
        0xc0 <= b0 <= 0xc1 ==> codepoint_width_2(b0, b1) < 0x80,
        0xf5 <= b0 <= 0xf7 ==> codepoint_width_4(b0, b1, b2, b3) > 0x10ffff,
{
    assert(0xc0 <= b0 <= 0xc1 ==> (((b0 & 0x1F) as u32) << 6) | ((b1 & 0x3f) as u32) < 0x80)
        by (bit_vector);
    assert(0xf5 <= b0 <= 0xf7 ==> (((b0 & 0x07) as u32) << 18) | (((b1 & 0x3f) as u32) << 12) | ((
    (b2 & 0x3f) as u32) << 6) | ((b3 & 0x3f) as u32) > 0x10ffff) by (bit_vector);
}

/// How many bytes the character that starts with `b` takes, 0 for a byte
/// that starts none.
pub fn utf8_char_width(b: u8) -> (w: usize)
    ensures
        w == char_width(b),
        w <= 4,
{
    if b <= 0x7f {
        1
    } else if 0xc2 <= b && b <= 0xdf {
        2
    } else if 0xe0 <= b && b <= 0xef {
        3
    } else if 0xf0 <= b && b <= 0xf4 {
        4
    } else {
        0
    }
}

/// The code point that the `char_size` bytes from `pos` on encode, the
/// payload bits of each byte put together.
pub fn read_code_point(bytes: &[u8], pos: usize, char_size: usize) -> (cp: u32)
    requires
        1 <= char_size <= 4,
        pos + char_size <= bytes@.len(),
    ensures
        cp == code_point(bytes@.skip(pos as int), char_size as nat),
{
    let b0 = bytes[pos];
    if char_size == 1 {
        (b0 & 0x7F) as u32
    } else if char_size == 2 {
        let b1 = bytes[pos + 1];
        (((b0 & 0x1F) as u32) << 6) | ((b1 & 0x3f) as u32)
    } else if char_size == 3 {
        let b1 = bytes[pos + 1];
        let b2 = bytes[pos + 2];
        (((b0 & 0x0F) as u32) << 12) | (((b1 & 0x3f) as u32) << 6) | ((b2 & 0x3f) as u32)
    } else {
        let b1 = bytes[pos + 1];
        let b2 = bytes[pos + 2];
        let b3 = bytes[pos + 3];
        (((b0 & 0x07) as u32) << 18) | (((b1 & 0x3f) as u32) << 12) | (((b2 & 0x3f) as u32) << 6)
            | ((b3 & 0x3f) as u32)
    }
}

/// The payload bits of the first `width` bytes, put together.
pub open spec fn code_point(bytes: Seq<u8>, width: nat) -> u32 {
    if width == 1 {
        codepoint_width_1(bytes[0])
    } else if width == 2 {
        codepoint_width_2(bytes[0], bytes[1])
    } else if width == 3 {
        codepoint_width_3(bytes[0], bytes[1], bytes[2])
    } else {
        codepoint_width_4(bytes[0], bytes[1], bytes[2], bytes[3])
    }
}

/// Whether the `char_size - 1` bytes after `pos` are continuation bytes.
fn continuation_ok(bytes: &[u8], pos: usize, char_size: usize) -> (ok: bool)
    requires
        1 <= char_size <= 4,
        pos + char_size <= bytes@.len(),
    ensures
        ok == (forall|k: int| 1 <= k < char_size ==> is_continuation_byte(#[trigger] bytes@[pos + k])),
{
    let total = bytes.len();
    let mut k: usize = 1;
    while k < char_size
        invariant
            1 <= k <= char_size <= 4,
            pos + char_size <= bytes@.len() == total,
            forall|j: int| 1 <= j < k ==> is_continuation_byte(#[trigger] bytes@[pos + j]),
        decreases char_size - k,
    {
        let b = bytes[pos + k];
        if !(0x80 <= b && b <= 0xbf) {
            return false;
        }
        k = k + 1;
    }
    true
}

/// The character that the `char_size` bytes from `pos` on encode, if they
/// are a well-formed encoding of one: continuation bytes in their places,
/// the shortest form of its code point, and no surrogate.
pub fn decode_char(bytes: &[u8], pos: usize, char_size: usize) -> (r: Option<char>)
    requires
        pos < bytes@.len(),
        char_size == char_width(bytes@[pos as int]),
        1 <= char_size,
        pos + char_size <= bytes@.len(),
    ensures
        r == (if starts_with_char(bytes@.skip(pos as int)) {
            Some(first_char(bytes@.skip(pos as int)))
        } else {
            None::<char>
        }),
{
    let ghost tail = bytes@.skip(pos as int);
    assert(forall|k: int| 0 <= k < char_size ==> tail[k] == bytes@[pos + k]);
    if !continuation_ok(bytes, pos, char_size) {
        return None;
    }
    let cp = read_code_point(bytes, pos, char_size);
    if char_size == 2 && cp < 0x80 {
        return None;
    }
    if char_size == 3 && cp < 0x800 {
        return None;
    }
    if char_size == 4 && (cp < 0x10000 || cp > 0x10ffff) {
        return None;
    }
    if 0xD800 <= cp && cp <= 0xDFFF {
        return None;
    }
    proof {
        lemma_code_point_bound(tail[0], tail[1], tail[2]);
    }
    char::from_u32(cp)
}

/// The bytes that a well-formed character at the front of `bytes` takes are
/// the encoding of that character.
pub proof fn lemma_first_char_encoding(bytes: Seq<u8>)
    requires
        starts_with_char(bytes),
    ensures
        0 < first_char_len(bytes) <= bytes.len(),
        first_char_len(bytes) == char_width(bytes[0]),
        first_char(bytes) as u32 == decode_first_scalar(bytes),
        encode_scalar(first_char(bytes) as u32) == bytes.subrange(0, first_char_len(bytes)),
{
    let n = first_char_len(bytes);
    let head = bytes.subrange(0, n);
    lemma_decode_cases(bytes);
    lemma_code_point_bound(bytes[0], bytes[1], bytes[2]);
    assert(valid_first_scalar(head));
    assert(pop_first_scalar(head) =~= Seq::<u8>::empty());
    reveal_with_fuel(valid_utf8, 2);
    assert(valid_utf8(head));
    decode_utf8_first_scalar(head);
    assert(take_first_scalar(head) =~= head);
    assert(decode_first_scalar(head) == decode_first_scalar(bytes));
}

/// Bytes that begin with the encoding of a character start with that
/// character.
pub proof fn lemma_encoding_starts_with_char(c: char, bytes: Seq<u8>)
    requires
        encode_scalar(c as u32).is_prefix_of(bytes),
    ensures
        starts_with_char(bytes),
        first_char(bytes) == c,
        first_char_len(bytes) == encode_scalar(c as u32).len(),
{
    let one = seq![c];
    encode_utf8_first_scalar(one);
    assert(one.drop_first() =~= Seq::<char>::empty());
    reveal_with_fuel(encode_utf8, 2);
    assert(encode_utf8(one) =~= encode_scalar(c as u32));
    let e = encode_scalar(c as u32);
    assert(forall|k: int| 0 <= k < e.len() ==> e[k] == bytes[k]);
    assert(valid_first_scalar(e));
    assert(e.len() == length_of_first_scalar(e));
    assert(valid_first_scalar(bytes));
    assert(decode_first_scalar(bytes) == decode_first_scalar(e));
    char_u32_cast(c, c as u32);
}

/// A code point of one, two or three bytes is below 0x10000.
proof fn lemma_code_point_bound(b0: u8, b1: u8, b2: u8)
    ensures
        codepoint_width_1(b0) <= 0x7f,
        codepoint_width_2(b0, b1) <= 0x7ff,
        codepoint_width_3(b0, b1, b2) <= 0xffff,
{
    assert((b0 & 0x7F) as u32 <= 0x7f) by (bit_vector);
    assert((((b0 & 0x1F) as u32) << 6) | ((b1 & 0x3f) as u32) <= 0x7ff) by (bit_vector);
    assert((((b0 & 0x0F) as u32) << 12) | (((b1 & 0x3f) as u32) << 6) | ((b2 & 0x3f) as u32)
        <= 0xffff) by (bit_vector);
}

/// The text that a reader makes of a byte stream: its characters for as
/// long as it starts with well-formed ones, up to its end or to the
/// beginning of a character that is cut short by its end; no text where it
/// holds bytes that are no character before that.
pub open spec fn read_text(bytes: Seq<u8>) -> Option<Seq<char>>
    decreases bytes.len(),
{
    if starts_with_char(bytes) {
        if 0 < first_char_len(bytes) <= bytes.len() {
            match read_text(bytes.skip(first_char_len(bytes))) {
                Some(rest) => Some(seq![first_char(bytes)] + rest),
                None => None,
            }
        } else {
            None
        }
    } else if is_truncated(bytes) {
        Some(Seq::empty())
    } else {
        None
    }
}

/// A text in front of another, where there is one.
pub open spec fn followed_by(chars: Seq<char>, rest: Option<Seq<char>>) -> Option<Seq<char>> {
    match rest {
        Some(rest) => Some(chars + rest),
        None => None,
    }
}

/// The text of a stream that begins with the encoding of characters is
/// those characters, and then the text of what follows them.
pub proof fn lemma_read_text_encoded(chars: Seq<char>, tail: Seq<u8>)
    ensures
        read_text(encode_utf8(chars) + tail) == followed_by(chars, read_text(tail)),
        encode_utf8(chars).len() >= chars.len(),
    decreases chars.len(),
{
    if chars.len() == 0 {
        assert(encode_utf8(chars) + tail =~= tail);
        if let Some(rest) = read_text(tail) {
            assert(chars + rest =~= rest);
        }
    } else {
        let first = encode_scalar(chars[0] as u32);
        let others = chars.drop_first();
        let all = encode_utf8(chars) + tail;
        assert(encode_utf8(chars) == first + encode_utf8(others));
        assert(first.is_prefix_of(all)) by {
            assert(first =~= all.subrange(0, first.len() as int));
        }
        lemma_encoding_starts_with_char(chars[0], all);
        lemma_first_char_encoding(all);
        assert(all.skip(first.len() as int) =~= encode_utf8(others) + tail);
        lemma_read_text_encoded(others, tail);
        if let Some(rest) = read_text(tail) {
            assert(seq![chars[0]] + (others + rest) =~= chars + rest);
        }
    }
}

} // verus!
