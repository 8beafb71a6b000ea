use std::io::Cursor;

use zircon::tokenizer::TokenType::{
    Ampersand, At, ClosingCurly, ClosingParen, Colon, Comma, CommentLine, DataDeclaration,
    DecNumber, Equals, Error, HexNumber, Identifier, Instruction, LabelSpecifier, NewLine,
    OpeningCurly, OpeningParen, Register, Star,
};
use zircon::char_reader::source::Source;
use zircon::tokenizer::{
    classify, is_junk_char, is_word_char, punctuation_type, shape_of, tokenize_bytes,
    tokenize_source, Run, Shape,
};
use zircon::{
    tokenizer::{tokenize, Token, TokenType, TokenizerResult},
    Span,
};

#[test]
fn tokenizer_fail_1() {
    let TokenizerResult { tokens, lines: _ } = tokenize(&mut Cursor::new(
        br#"
sub boot {
    lda $FF??
    sta ($6000)

    jmp boot
    @fallthrough
}
"#,
    ))
    .unwrap();

    let error_tokens = tokens
        .into_iter()
        .filter(|tok| tok.ty == Error)
        .collect::<Vec<_>>();

    assert_eq!(
        error_tokens,
        vec![Token {
            ty: Error,
            span: Span {
                pos: 23..25,
                line: 2..3,
                col: 11..13
            }
        }]
    );
}

#[test]
fn tokenizer_keywords() {
    let TokenizerResult { tokens, lines: _ } = tokenize(&mut Cursor::new(
        br#"
ld A $FF
"#,
    ))
    .unwrap();

    assert_eq!(
        tokens,
        vec![
            Token {
                ty: NewLine,
                span: Span {
                    pos: 0..1,
                    line: 0..1,
                    col: 0..1
                }
            },
            Token {
                ty: Instruction,
                span: Span {
                    pos: 1..3,
                    line: 1..2,
                    col: 0..2
                }
            },
            Token {
                ty: Register,
                span: Span {
                    pos: 4..5,
                    line: 1..2,
                    col: 3..4
                }
            },
            Token {
                ty: HexNumber,
                span: Span {
                    pos: 6..9,
                    line: 1..2,
                    col: 5..8
                }
            },
            Token {
                ty: NewLine,
                span: Span {
                    pos: 9..10,
                    line: 1..2,
                    col: 8..9
                }
            }
        ]
    );
}

#[test]
fn tokenizer_success() {
    let TokenizerResult { tokens, lines: _ } = tokenize(&mut Cursor::new(
        br#"
sub boot {
    jmp boot
    @fallthrough
}
"#,
    ))
    .unwrap();

    assert_eq!(
        tokens,
        vec![
            Token {
                ty: NewLine,
                span: Span {
                    pos: 0..1,
                    line: 0..1,
                    col: 0..1
                }
            },
            Token {
                ty: LabelSpecifier,
                span: Span {
                    pos: 1..4,
                    line: 1..2,
                    col: 0..3
                }
            },
            Token {
                ty: Identifier,
                span: Span {
                    pos: 5..9,
                    line: 1..2,
                    col: 4..8
                }
            },
            Token {
                ty: OpeningCurly,
                span: Span {
                    pos: 10..11,
                    line: 1..2,
                    col: 9..10
                }
            },
            Token {
                ty: NewLine,
                span: Span {
                    pos: 11..12,
                    line: 1..2,
                    col: 10..11
                }
            },
            Token {
                ty: Identifier,
                span: Span {
                    pos: 16..19,
                    line: 2..3,
                    col: 4..7
                }
            },
            Token {
                ty: Identifier,
                span: Span {
                    pos: 20..24,
                    line: 2..3,
                    col: 8..12
                }
            },
            Token {
                ty: NewLine,
                span: Span {
                    pos: 24..25,
                    line: 2..3,
                    col: 12..13
                }
            },
            Token {
                ty: At,
                span: Span {
                    pos: 29..30,
                    line: 3..4,
                    col: 4..5
                }
            },
            Token {
                ty: Identifier,
                span: Span {
                    pos: 30..41,
                    line: 3..4,
                    col: 5..16
                }
            },
            Token {
                ty: NewLine,
                span: Span {
                    pos: 41..42,
                    line: 3..4,
                    col: 16..17
                }
            },
            Token {
                ty: ClosingCurly,
                span: Span {
                    pos: 42..43,
                    line: 4..5,
                    col: 0..1
                }
            },
            Token {
                ty: NewLine,
                span: Span {
                    pos: 43..44,
                    line: 4..5,
                    col: 1..2
                }
            }
        ]
    );
}

fn lex(text: &str) -> Vec<Token> {
    tokenize(&mut Cursor::new(text.as_bytes())).unwrap().tokens
}

fn kinds(text: &str) -> Vec<TokenType> {
    lex(text).into_iter().map(|t| t.ty).collect()
}

fn token(ty: TokenType, pos: std::ops::Range<usize>, line: usize, col: std::ops::Range<usize>) -> Token {
    Token { ty, span: Span { pos, line: line..line + 1, col } }
}

#[test]
fn tokenizer_punctuation() {
    assert_eq!(
        kinds("{}()*&,=@:\n"),
        vec![
            OpeningCurly,
            ClosingCurly,
            OpeningParen,
            ClosingParen,
            Star,
            Ampersand,
            Comma,
            Equals,
            At,
            Colon,
            NewLine
        ]
    );
}

#[test]
fn tokenizer_keyword_buckets_ignore_case() {
    assert_eq!(kinds("ld ST Jp"), vec![Instruction, Instruction, Instruction]);
    assert_eq!(kinds("sub SUB"), vec![LabelSpecifier, LabelSpecifier]);
    assert_eq!(
        kinds("pc sp a b c d e f h l ix iy i r"),
        vec![Register; 14]
    );
    assert_eq!(kinds("A IX Sp"), vec![Register, Register, Register]);
    assert_eq!(kinds("def ROM"), vec![DataDeclaration, DataDeclaration]);
    assert_eq!(
        kinds("lda boot _x af x_1 g"),
        vec![Identifier, Identifier, Error, Identifier, Identifier, Identifier]
    );
}

#[test]
fn tokenizer_numbers() {
    assert_eq!(
        lex("$FF 430 $ 12ab $1g"),
        vec![
            token(HexNumber, 0..3, 0, 0..3),
            token(DecNumber, 4..7, 0, 4..7),
            token(HexNumber, 8..9, 0, 8..9),
            token(DecNumber, 10..12, 0, 10..12),
            token(Identifier, 12..14, 0, 12..14),
            token(HexNumber, 15..17, 0, 15..17),
            token(Identifier, 17..18, 0, 17..18),
        ]
    );
}

#[test]
fn tokenizer_comment_and_lone_slash() {
    assert_eq!(
        lex("// hi\n/x /"),
        vec![
            token(CommentLine, 0..2, 0, 0..2),
            token(Identifier, 3..5, 0, 3..5),
            token(NewLine, 5..6, 0, 5..6),
            token(Error, 6..8, 1, 0..2),
            token(Error, 9..10, 1, 3..4),
        ]
    );
    // a slash takes the line feed behind it along
    assert_eq!(
        lex("/\nx"),
        vec![token(Error, 0..2, 0, 0..2), token(Identifier, 2..3, 1, 0..1)]
    );
}

#[test]
fn tokenizer_error_runs_up_to_white_space() {
    assert_eq!(
        lex("a ??{x} b\n#!\n"),
        vec![
            token(Register, 0..1, 0, 0..1),
            token(Error, 2..7, 0, 2..7),
            token(Register, 8..9, 0, 8..9),
            token(NewLine, 9..10, 0, 9..10),
            token(Error, 10..12, 1, 0..2),
            token(NewLine, 12..13, 1, 2..3),
        ]
    );
}

#[test]
fn tokenizer_every_token_is_on_one_line() {
    let text = "\nsub boot {\n  ld A, $FF // c\n /\n ?? x\n}\n\u{e9}t\u{e9} 12\n/";
    let tokens = lex(text);
    assert!(!tokens.is_empty());
    for t in &tokens {
        assert_eq!(t.span.line.end - t.span.line.start, 1);
        assert_eq!(t.span.col.end - t.span.col.start, t.span.pos.end - t.span.pos.start);
    }
}

#[test]
fn tokenizer_relexing_a_token_gives_its_kind() {
    let text = "\nsub boot {\n  ld A, $FF // c\n /\n ?? x\n}\n\u{e9}t\u{e9} 12 def=@origin(3)\n/";
    let chars: Vec<char> = text.chars().collect();
    let tokens = lex(text);
    assert!(tokens.len() > 20);
    for t in &tokens {
        let own: String = chars[t.span.pos.clone()].iter().collect();
        let again = lex(&own);
        assert_eq!(again.len(), 1);
        assert_eq!(again[0].ty, t.ty);
        assert_eq!(again[0].span.pos, 0..own.chars().count());
    }
}

#[test]
fn tokenizer_line_table() {
    let result = tokenize(&mut Cursor::new("ld\n\njp x\n".as_bytes())).unwrap();
    assert_eq!(result.lines, vec![0, 3, 4]);
    let result = tokenize(&mut Cursor::new("".as_bytes())).unwrap();
    assert_eq!(result.lines, vec![0]);
    assert!(result.tokens.is_empty());
}

#[test]
fn tokenizer_non_ascii_words() {
    assert_eq!(
        lex("\u{e9}t\u{e9}_1 \u{661}2"),
        vec![token(Identifier, 0..5, 0, 0..5), token(DecNumber, 6..8, 0, 6..8)]
    );
}

#[test]
fn tokenizer_fails_on_bytes_that_are_no_text() {
    let r = tokenize(&mut Cursor::new(vec![b'l', b'd', 0xFF]));
    assert!(matches!(r, Err(zircon::Error::IO(_))));
}

#[test]
fn token_type_names() {
    assert_eq!(Instruction.name(), "Instruction");
    assert_eq!(NewLine.name(), "NewLine");
    assert_eq!(Error.name(), "Error");
    assert_eq!(format!("{:?}", DataDeclaration), DataDeclaration.name());
    assert_eq!(format!("{:?}", OpeningParen), OpeningParen.name());
}

#[test]
fn span_slice_counts_characters() {
    let span = Span { pos: 1..3, line: 0..1, col: 1..3 };
    assert_eq!(span.slice("abcd"), "bc");
    assert_eq!(span.slice("\u{e9}t\u{e9}x"), "t\u{e9}");
    assert_eq!(Span::default(), Span { pos: 0..0, line: 0..0, col: 0..0 });
    assert_eq!(span.clone(), span);
}

#[test]
fn tokenizer_from_bytes() {
    let text = "\nsub boot {\n    ld A, $FF // \u{20ac}\n}\n";
    let from_reader = tokenize(&mut Cursor::new(text.as_bytes())).unwrap();
    let from_bytes = tokenize_bytes(text.as_bytes()).unwrap();
    assert_eq!(from_bytes.tokens, from_reader.tokens);
    assert_eq!(from_bytes.lines, from_reader.lines);
    assert_eq!(from_bytes.tokens.len(), 14);
    assert!(matches!(tokenize_bytes(&[b'a', 0xC3, 0x28]), Err(zircon::Error::IO(_))));
    // the beginning of a character at the very end is the end
    let cut = tokenize_bytes(&[b'x', b'y', 0xE2, 0x82]).unwrap();
    assert_eq!(cut.tokens, vec![token(Identifier, 0..2, 0, 0..2)]);
}

#[test]
fn tokenizer_ignores_the_pieces_of_its_source() {
    let text = "def \u{e9}t\u{e9} = $10 // \u{1f600}\n\nsub boot {\n ld A, 7\n ?? /\n}\n";
    let whole = tokenize_bytes(text.as_bytes()).unwrap();
    assert_eq!(whole.tokens.len(), 21);
    for piece in [1usize, 2, 3, 4, 5, 7, 64] {
        let src: Source<Cursor<Vec<u8>>> = Source::bytes(text.as_bytes().to_vec(), piece);
        let cut = tokenize_source(src).unwrap();
        assert_eq!(cut.tokens, whole.tokens);
        assert_eq!(cut.lines, whole.lines);
    }
}

#[test]
fn shape_by_first_character_and_classes() {
    // punctuation wins over every class
    assert_eq!(shape_of('\n', true, false, false), Shape::Punct(NewLine));
    assert_eq!(shape_of('{', false, true, true), Shape::Punct(OpeningCurly));
    assert_eq!(shape_of('@', false, false, false), Shape::Punct(At));
    // then white space
    assert_eq!(shape_of(' ', true, false, false), Shape::Blank);
    assert_eq!(shape_of('/', true, true, true), Shape::Blank);
    // then the slash and the dollar
    assert_eq!(shape_of('/', false, true, true), Shape::Slash);
    assert_eq!(shape_of('$', false, true, true), Shape::Run(Run::Hex));
    // then numbers, then letters
    assert_eq!(shape_of('7', false, true, true), Shape::Run(Run::Dec));
    assert_eq!(shape_of('7', false, true, false), Shape::Run(Run::Dec));
    assert_eq!(shape_of('x', false, false, true), Shape::Run(Run::Ident));
    // and what is left
    assert_eq!(shape_of('?', false, false, false), Shape::Run(Run::Junk));
    assert_eq!(shape_of('_', false, false, false), Shape::Run(Run::Junk));
    // with the classes that the standard library gives
    for (c, shape) in [
        ('\t', Shape::Blank),
        ('\u{a0}', Shape::Blank),
        ('\u{661}', Shape::Run(Run::Dec)),
        ('\u{e9}', Shape::Run(Run::Ident)),
        ('#', Shape::Run(Run::Junk)),
    ] {
        assert_eq!(shape_of(c, c.is_whitespace(), c.is_numeric(), c.is_alphabetic()), shape);
    }
}

#[test]
fn characters_that_carry_a_run_on() {
    assert!(is_word_char('x', true));
    assert!(is_word_char('_', false));
    assert!(!is_word_char('-', false));
    assert!(!is_word_char('\n', true));
    assert!(is_junk_char('?', false));
    assert!(is_junk_char('{', false));
    assert!(!is_junk_char(' ', true));
    assert!(!is_junk_char('\n', false));
    assert!(!is_junk_char('\n', true));
}

#[test]
fn words_by_kind() {
    for word in ["ld", "st", "jp"] {
        assert_eq!(classify(word), Instruction);
    }
    assert_eq!(classify("sub"), LabelSpecifier);
    for word in ["pc", "sp", "a", "b", "c", "d", "e", "f", "h", "l", "ix", "iy", "i", "r"] {
        assert_eq!(classify(word), Register);
    }
    for word in ["def", "rom"] {
        assert_eq!(classify(word), DataDeclaration);
    }
    // the word is taken as it is: the lexer hands in its lower-case form
    for word in ["LD", "Sub", "A", "", "lda", "af", "g", "origin", "subs"] {
        assert_eq!(classify(word), Identifier);
    }
}

#[test]
fn punctuation_characters() {
    let all = [
        ('\n', NewLine),
        ('{', OpeningCurly),
        ('}', ClosingCurly),
        ('*', Star),
        ('&', Ampersand),
        (',', Comma),
        ('=', Equals),
        ('@', At),
        ('(', OpeningParen),
        (')', ClosingParen),
        (':', Colon),
    ];
    for (c, ty) in all {
        assert_eq!(punctuation_type(c), Some(ty));
    }
    for c in ['/', '$', ' ', 'a', '0', ';', '[', '\r'] {
        assert_eq!(punctuation_type(c), None);
    }
}

#[test]
fn tokenizer_skips_each_white_space_character() {
    let blanks = [
        '\u{9}', '\u{B}', '\u{C}', '\u{D}', ' ', '\u{85}', '\u{A0}', '\u{1680}', '\u{2000}',
        '\u{2001}', '\u{2002}', '\u{2003}', '\u{2004}', '\u{2005}', '\u{2006}', '\u{2007}',
        '\u{2008}', '\u{2009}', '\u{200A}', '\u{2028}', '\u{2029}', '\u{202F}', '\u{205F}',
        '\u{3000}',
    ];
    for c in blanks {
        let text = format!("x{}y", c);
        assert_eq!(
            lex(&text),
            vec![token(Identifier, 0..1, 0, 0..1), token(Identifier, 2..3, 0, 2..3)],
            "U+{:04X}",
            c as u32
        );
    }
    // the neighbours of the white space characters are none
    for c in ['\u{8}', '\u{E}', '\u{1F}', '\u{84}', '\u{86}', '\u{180E}', '\u{200B}', '\u{2060}', '\u{FEFF}'] {
        let text = format!("x {} y", c);
        assert_eq!(
            lex(&text),
            vec![
                token(Identifier, 0..1, 0, 0..1),
                token(Error, 2..3, 0, 2..3),
                token(Identifier, 4..5, 0, 4..5),
            ],
            "U+{:04X}",
            c as u32
        );
    }
}
