use zircon::number::{parse_i32, push_decimal, push_integer, NumberError};

#[test]
fn parse_decimal_and_hexadecimal() {
    assert_eq!(parse_i32("0", 10), Ok(0));
    assert_eq!(parse_i32("430", 10), Ok(430));
    assert_eq!(parse_i32("FF", 16), Ok(255));
    assert_eq!(parse_i32("ff", 16), Ok(255));
    assert_eq!(parse_i32("6000", 16), Ok(0x6000));
    assert_eq!(parse_i32("7FFFFFFF", 16), Ok(i32::MAX));
    assert_eq!(parse_i32("2147483647", 10), Ok(i32::MAX));
    assert_eq!(parse_i32("+12", 10), Ok(12));
    assert_eq!(parse_i32("-12", 10), Ok(-12));
    assert_eq!(parse_i32("-80000000", 16), Ok(i32::MIN));
    assert_eq!(parse_i32("zz", 36), Ok(35 * 36 + 35));
}

#[test]
fn parse_errors() {
    assert_eq!(parse_i32("", 10), Err(NumberError::Empty));
    assert_eq!(parse_i32("-", 10), Err(NumberError::InvalidDigit));
    assert_eq!(parse_i32("+", 16), Err(NumberError::InvalidDigit));
    assert_eq!(parse_i32("12a", 10), Err(NumberError::InvalidDigit));
    assert_eq!(parse_i32("1G", 16), Err(NumberError::InvalidDigit));
    assert_eq!(parse_i32(" 1", 10), Err(NumberError::InvalidDigit));
    assert_eq!(parse_i32("\u{661}", 10), Err(NumberError::InvalidDigit));
    assert_eq!(parse_i32("2147483648", 10), Err(NumberError::TooLarge));
    assert_eq!(parse_i32("80000000", 16), Err(NumberError::TooLarge));
    assert_eq!(parse_i32("-2147483649", 10), Err(NumberError::TooSmall));
    assert_eq!(parse_i32("99999999999x", 10), Err(NumberError::TooLarge));
    assert_eq!(parse_i32("9x99999999999", 10), Err(NumberError::InvalidDigit));
}

#[test]
fn parse_agrees_with_the_standard_library() {
    for text in ["", "0", "-0", "+7", "12", "0012", "7fffffff", "80000000", "-80000000", "-80000001", "x", "1_0", "ＦＦ"] {
        for radix in [10u32, 16] {
            let ours = parse_i32(text, radix);
            let theirs = i32::from_str_radix(text, radix);
            match (ours, theirs) {
                (Ok(a), Ok(b)) => assert_eq!(a, b),
                (Err(e), Err(f)) => assert_eq!(e.message(), f.to_string()),
                (a, b) => panic!("{:?} in base {}: {:?} against {:?}", text, radix, a, b),
            }
        }
    }
}

#[test]
fn number_error_messages() {
    assert_eq!(NumberError::Empty.message(), "cannot parse integer from empty string");
    assert_eq!(NumberError::InvalidDigit.message(), "invalid digit found in string");
    assert_eq!(NumberError::TooLarge.message(), "number too large to fit in target type");
    assert_eq!(NumberError::TooSmall.message(), "number too small to fit in target type");
}

#[test]
fn decimal_text() {
    let mut s = String::from("n=");
    push_decimal(&mut s, 0);
    s.push(',');
    push_decimal(&mut s, 7);
    s.push(',');
    push_decimal(&mut s, 10);
    s.push(',');
    push_decimal(&mut s, 65535);
    s.push(',');
    push_decimal(&mut s, u32::MAX);
    assert_eq!(s, "n=0,7,10,65535,4294967295");
    let mut s = String::new();
    push_integer(&mut s, -1);
    s.push(' ');
    push_integer(&mut s, i32::MIN);
    s.push(' ');
    push_integer(&mut s, i32::MAX);
    s.push(' ');
    push_integer(&mut s, 0);
    assert_eq!(s, "-1 -2147483648 2147483647 0");
}
