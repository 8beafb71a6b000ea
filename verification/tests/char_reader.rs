use std::io::{Cursor, Read};

use zircon::char_reader::unicode::{decode_char, read_code_point, utf8_char_width};
use zircon::char_reader::source::Source;
use zircon::CharReader;

#[test]
pub fn char_reader_1() {
    let mut char_reader = CharReader::new(Cursor::new(b"\nHello\nWorld"));
    assert_eq!(char_reader.line(), 0);
    assert_eq!(char_reader.peek_col(), 0);
    assert_eq!(char_reader.peek_line(), 0);
    assert_eq!(char_reader.peek_pos(), 0);
    assert_eq!(char_reader.next_char().unwrap(), Some('\n'));
    assert_eq!(char_reader.line(), 0);
    assert_eq!(char_reader.col(), 0);
    assert_eq!(char_reader.pos(), 0);
    assert_eq!(char_reader.peek_col(), 0);
    assert_eq!(char_reader.peek_line(), 1);
    assert_eq!(char_reader.next_char().unwrap(), Some('H'));
    assert_eq!(char_reader.line(), 1);
    assert_eq!(char_reader.col(), 0);
    assert_eq!(char_reader.pos(), 1);
    assert_eq!(char_reader.peek_col(), 1);
    assert_eq!(char_reader.peek_line(), 1);
    assert_eq!(char_reader.next_char().unwrap(), Some('e'));
    assert_eq!(char_reader.line(), 1);
    assert_eq!(char_reader.col(), 1);
    assert_eq!(char_reader.pos(), 2);
    assert_eq!(char_reader.peek_col(), 2);
    assert_eq!(char_reader.peek_line(), 1);
    assert_eq!(char_reader.next_char().unwrap(), Some('l'));
    assert_eq!(char_reader.next_char().unwrap(), Some('l'));
    assert_eq!(char_reader.next_char().unwrap(), Some('o'));
    assert_eq!(char_reader.line(), 1);
    assert_eq!(char_reader.col(), 4);
    assert_eq!(char_reader.pos(), 5);
    assert_eq!(char_reader.next_char().unwrap(), Some('\n'));
    assert_eq!(char_reader.line(), 1);
    assert_eq!(char_reader.col(), 5);
    assert_eq!(char_reader.pos(), 6);
    assert_eq!(char_reader.next_char().unwrap(), Some('W'));
    assert_eq!(char_reader.line(), 2);
    assert_eq!(char_reader.col(), 0);
    assert_eq!(char_reader.pos(), 7);
    assert_eq!(char_reader.next_char().unwrap(), Some('o'));
    assert_eq!(char_reader.next_char().unwrap(), Some('r'));
    assert_eq!(char_reader.next_char().unwrap(), Some('l'));
    assert_eq!(char_reader.next_char().unwrap(), Some('d'));
    assert_eq!(char_reader.peek_col(), 5);
    assert_eq!(char_reader.peek_line(), 2);
    assert_eq!(char_reader.next_char().unwrap(), None);
}

/// A source that hands its bytes out in pieces of given sizes, one piece a
/// read, and then in single bytes.
struct Pieces {
    data: Vec<u8>,
    at: usize,
    sizes: Vec<usize>,
    turn: usize,
}

impl Pieces {
    fn new(data: &[u8], sizes: &[usize]) -> Pieces {
        Pieces { data: data.to_vec(), at: 0, sizes: sizes.to_vec(), turn: 0 }
    }
}

impl Read for Pieces {
    fn read(&mut self, buf: &mut [u8]) -> std::io::Result<usize> {
        let want = if self.turn < self.sizes.len() { self.sizes[self.turn] } else { 1 };
        self.turn += 1;
        let n = want.min(buf.len()).min(self.data.len() - self.at);
        buf[..n].copy_from_slice(&self.data[self.at..self.at + n]);
        self.at += n;
        Ok(n)
    }
}

/// A source that fails at once.
struct Broken;

impl Read for Broken {
    fn read(&mut self, _buf: &mut [u8]) -> std::io::Result<usize> {
        Err(std::io::Error::new(std::io::ErrorKind::Other, "broken"))
    }
}

/// A source that claims more bytes than it was given room for.
struct Liar;

impl Read for Liar {
    fn read(&mut self, buf: &mut [u8]) -> std::io::Result<usize> {
        Ok(buf.len() + 1)
    }
}

/// Every character with its offset, line and column, read to the end.
fn read_all<R: Read>(src: R) -> Vec<(char, usize, usize, usize)> {
    let mut reader = CharReader::new(src);
    let mut out = Vec::new();
    while let Some(c) = reader.next_char().unwrap() {
        out.push((c, reader.pos(), reader.line(), reader.col()));
    }
    out
}

#[test]
fn reader_decodes_multibyte_characters() {
    let text = "a\u{e9}\u{20ac}\u{1f600}\nz";
    let got = read_all(Cursor::new(text.as_bytes()));
    assert_eq!(
        got,
        vec![
            ('a', 0, 0, 0),
            ('\u{e9}', 1, 0, 1),
            ('\u{20ac}', 2, 0, 2),
            ('\u{1f600}', 3, 0, 3),
            ('\n', 4, 0, 4),
            ('z', 5, 1, 0),
        ]
    );
}

#[test]
fn reader_ignores_chunk_boundaries() {
    let text = "ld A, $FF // \u{20ac}\u{1f600}\nsub \u{e9}t\u{e9} {\n}\n";
    let whole = read_all(Cursor::new(text.as_bytes()));
    assert_eq!(whole.len(), text.chars().count());
    assert_eq!(read_all(Pieces::new(text.as_bytes(), &[])), whole);
    assert_eq!(read_all(Pieces::new(text.as_bytes(), &[2, 1, 3, 1, 1, 7, 2])), whole);
    assert_eq!(read_all(Pieces::new(text.as_bytes(), &[14, 1, 1, 1, 2, 2])), whole);
    assert_eq!(read_all(Pieces::new(text.as_bytes(), &[15, 3, 4])), whole);
}

#[test]
fn reader_spans_buffer_refills() {
    let mut text = String::new();
    for _ in 0..2500 {
        text.push('x');
        text.push('\u{20ac}');
    }
    let whole = read_all(Cursor::new(text.as_bytes()));
    assert_eq!(whole.len(), 5000);
    assert_eq!(whole[4999], ('\u{20ac}', 4999, 0, 4999));
    let cut = read_all(Pieces::new(text.as_bytes(), &[4999, 3, 4998]));
    assert_eq!(cut, whole);
}

#[test]
fn reader_peek_does_not_advance() {
    let mut reader = CharReader::new(Cursor::new("ab".as_bytes()));
    assert_eq!(reader.peek_char().unwrap(), Some('a'));
    assert_eq!(reader.peek_char().unwrap(), Some('a'));
    assert_eq!(reader.peek_pos(), 0);
    assert_eq!(reader.next_char().unwrap(), Some('a'));
    assert_eq!(reader.peek_char().unwrap(), Some('b'));
    assert_eq!(reader.pos(), 0);
    assert_eq!(reader.peek_pos(), 1);
    assert_eq!(reader.next_char().unwrap(), Some('b'));
    assert_eq!(reader.peek_char().unwrap(), None);
    assert_eq!(reader.next_char().unwrap(), None);
    assert_eq!(reader.next_char().unwrap(), None);
}

#[test]
fn reader_reports_end_for_a_truncated_character() {
    let mut reader = CharReader::new(Cursor::new(vec![b'a', 0xE2, 0x82]));
    assert_eq!(reader.next_char().unwrap(), Some('a'));
    assert_eq!(reader.next_char().unwrap(), None);
    assert_eq!(reader.peek_char().unwrap(), None);
    let mut reader = CharReader::new(Pieces::new(&[0xF0, 0x9F, 0x98], &[1, 1, 1]));
    assert_eq!(reader.next_char().unwrap(), None);
}

#[test]
fn reader_fails_on_an_invalid_leading_byte() {
    let mut reader = CharReader::new(Cursor::new(vec![b'a', 0x80, b'b']));
    assert_eq!(reader.next_char().unwrap(), Some('a'));
    let e = reader.next_char().unwrap_err();
    assert_eq!(e.kind(), std::io::ErrorKind::InvalidData);
    assert!(reader.peek_char().is_err());
    let mut reader = CharReader::new(Cursor::new(vec![0xFF]));
    assert!(reader.next_char().is_err());
    // a byte that starts no character is an error even at the very end
    assert!(CharReader::new(Cursor::new(vec![0xC0])).next_char().is_err());
    assert!(CharReader::new(Cursor::new(vec![0xF5])).next_char().is_err());
}

#[test]
fn reader_fails_on_malformed_sequences() {
    // a continuation byte missing
    assert!(CharReader::new(Cursor::new(vec![0xC3, 0x41])).next_char().is_err());
    // the longer form of a short code point
    assert!(CharReader::new(Cursor::new(vec![0xC0, 0x80])).next_char().is_err());
    assert!(CharReader::new(Cursor::new(vec![0xE0, 0x80, 0x80])).next_char().is_err());
    // a surrogate
    assert!(CharReader::new(Cursor::new(vec![0xED, 0xA0, 0x80])).next_char().is_err());
    // above the last code point
    assert!(CharReader::new(Cursor::new(vec![0xF4, 0x90, 0x80, 0x80])).next_char().is_err());
    // the last code point itself
    assert_eq!(
        CharReader::new(Cursor::new(vec![0xF4, 0x8F, 0xBF, 0xBF])).next_char().unwrap(),
        Some('\u{10FFFF}')
    );
}

#[test]
fn reader_hands_on_a_failure_of_the_source() {
    let mut reader = CharReader::new(Broken);
    let e = reader.next_char().unwrap_err();
    assert_eq!(e.kind(), std::io::ErrorKind::Other);
}

#[test]
fn reader_records_line_starts() {
    let mut reader = CharReader::new(Cursor::new("ab\n\ncd\n".as_bytes()));
    while reader.next_char().unwrap().is_some() {}
    assert_eq!(reader.lines_consume(), vec![0, 3, 4]);
    let reader = CharReader::new(Cursor::new("".as_bytes()));
    assert_eq!(reader.lines_consume(), vec![0]);
    let mut reader = CharReader::new(Cursor::new("x\ny".as_bytes()));
    while reader.next_char().unwrap().is_some() {}
    assert_eq!(reader.lines_consume(), vec![0, 2]);
}

#[test]
fn unicode_widths() {
    assert_eq!(utf8_char_width(0x00), 1);
    assert_eq!(utf8_char_width(0x7F), 1);
    assert_eq!(utf8_char_width(0x80), 0);
    assert_eq!(utf8_char_width(0xBF), 0);
    assert_eq!(utf8_char_width(0xC0), 0);
    assert_eq!(utf8_char_width(0xC1), 0);
    assert_eq!(utf8_char_width(0xC2), 2);
    assert_eq!(utf8_char_width(0xDF), 2);
    assert_eq!(utf8_char_width(0xE0), 3);
    assert_eq!(utf8_char_width(0xEF), 3);
    assert_eq!(utf8_char_width(0xF0), 4);
    assert_eq!(utf8_char_width(0xF4), 4);
    assert_eq!(utf8_char_width(0xF5), 0);
    assert_eq!(utf8_char_width(0xF8), 0);
    assert_eq!(utf8_char_width(0xFF), 0);
    assert_eq!(read_code_point(&[0x41], 0, 1), 0x41);
    assert_eq!(read_code_point(&[0, 0xC3, 0xA9], 1, 2), 0xE9);
    assert_eq!(read_code_point(&[0xE2, 0x82, 0xAC], 0, 3), 0x20AC);
    assert_eq!(read_code_point(&[0xF0, 0x9F, 0x98, 0x80], 0, 4), 0x1F600);
    assert_eq!(decode_char(&[0xE2, 0x82, 0xAC], 0, 3), Some('\u{20ac}'));
    assert_eq!(decode_char(&[0xE2, 0x02, 0xAC], 0, 3), None);
}

#[test]
fn reader_rejects_a_source_that_claims_too_much() {
    let mut reader = CharReader::new(Liar);
    assert!(reader.next_char().is_err());
}

#[test]
fn reader_over_bytes_in_pieces() {
    let text = "a\u{e9}\u{20ac}\u{1f600}\nz";
    let whole = read_all(Cursor::new(text.as_bytes()));
    for piece in [0usize, 1, 2, 3, 4, 5, 100] {
        let src: Source<Cursor<Vec<u8>>> = Source::bytes(text.as_bytes().to_vec(), piece);
        let mut reader = CharReader::from_source(src);
        let mut out = Vec::new();
        while let Some(c) = reader.next_char().unwrap() {
            out.push((c, reader.pos(), reader.line(), reader.col()));
        }
        assert_eq!(out, whole);
    }
}

#[test]
fn source_hands_out_pieces() {
    let mut src: Source<Cursor<Vec<u8>>> = Source::bytes(vec![1, 2, 3, 4, 5], 2);
    let mut buf = vec![9u8; 4];
    assert_eq!(src.read(&mut buf, 1).unwrap(), 2);
    assert_eq!(buf, vec![9, 1, 2, 9]);
    assert_eq!(src.read(&mut buf, 3).unwrap(), 1);
    assert_eq!(buf, vec![9, 1, 2, 3]);
    assert_eq!(src.read(&mut buf, 4).unwrap(), 0);
    assert_eq!(src.read(&mut buf, 0).unwrap(), 2);
    assert_eq!(buf, vec![4, 5, 2, 3]);
    assert_eq!(src.read(&mut buf, 0).unwrap(), 0);
    let mut src = Source::Reader(Cursor::new(vec![7u8, 8]));
    assert_eq!(src.read(&mut buf, 2).unwrap(), 2);
    assert_eq!(buf, vec![4, 5, 7, 8]);
    assert_eq!(src.read(&mut buf, 0).unwrap(), 0);
}
