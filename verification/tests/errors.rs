use zircon::errors::get_line;
use zircon::{CompileError, Error, MultiResult, Span};

#[test]
fn lines_of_a_text() {
    let text = "ab\n\ncd\n";
    let lines = [0, 3, 4];
    assert_eq!(get_line(text, 0, &lines), "ab");
    assert_eq!(get_line(text, 1, &lines), "");
    assert_eq!(get_line(text, 2, &lines), "cd");
    assert_eq!(get_line("x\ny", 1, &[0, 2]), "y");
    assert_eq!(get_line("x\ny", 0, &[0, 2]), "x");
    assert_eq!(get_line("", 0, &[0]), "");
    assert_eq!(get_line("\n", 0, &[0]), "");
    assert_eq!(get_line("\u{e9}t\u{e9}\nz", 0, &[0, 4]), "\u{e9}t\u{e9}");
    assert_eq!(get_line("\u{e9}t\u{e9}\nz", 1, &[0, 4]), "z");
}

#[test]
fn errors_from_the_source() {
    let e = Error::from(std::io::Error::new(std::io::ErrorKind::Other, "gone"));
    assert!(matches!(e, Error::IO(_)));
    assert!(matches!(Error::Tokenizer, Error::Tokenizer));
    assert!(matches!(Error::Compile, Error::Compile));
}

#[test]
fn diagnostics_clone() {
    let e = CompileError {
        message: "wrong".to_string(),
        span: Span { pos: 1..2, line: 0..1, col: 1..2 },
    };
    let f = e.clone();
    assert_eq!(f.message, "wrong");
    assert_eq!(f.span, e.span);
    let r: MultiResult<u8> = MultiResult::Failed(vec![f]);
    assert!(matches!(r, MultiResult::Failed(errors) if errors.len() == 1));
    assert!(matches!(MultiResult::Done(3u8), MultiResult::Done(3)));
}
