use peggle::index::{Index, ParseError};
use peggle::leaf::{parse_signed, parse_unsigned, Parse};

fn at(lineno: usize, colno: usize) -> ParseError {
    ParseError { lineno, colno }
}

#[test]
fn unsigned_numbers_are_read_digit_by_digit() {
    assert_eq!(u32::parse("0"), Ok(0));
    assert_eq!(u32::parse("7"), Ok(7));
    assert_eq!(u32::parse("12"), Ok(12));
    assert_eq!(u32::parse("4294967295"), Ok(u32::MAX));
    assert_eq!(u64::parse("18446744073709551615"), Ok(u64::MAX));
    assert_eq!(u128::parse("340282366920938463463374607431768211455"), Ok(u128::MAX));
    assert_eq!(usize::parse("1234567"), Ok(1234567));
    assert_eq!(u16::parse("65535"), Ok(u16::MAX));
    assert_eq!(u8::parse("255"), Ok(255));
}

#[test]
fn unsigned_number_stops_at_the_first_other_character() {
    let (value, rest) = u32::parse_at(Index::new("13ggg")).unwrap();
    assert_eq!(value, 13);
    assert_eq!(rest.remaining, "ggg");
    assert_eq!(rest.colno, 2);
    let (value, rest) = u8::parse_at(Index::new("0x")).unwrap();
    assert_eq!(value, 0);
    assert_eq!(rest.remaining, "x");
}

#[test]
fn unsigned_overflow_fails_at_the_digit_that_overflows() {
    assert_eq!(u8::parse("256"), Err(at(0, 2)));
    assert_eq!(u8::parse("1000"), Err(at(0, 3)));
    assert_eq!(u16::parse("65536"), Err(at(0, 4)));
    assert_eq!(u32::parse("4294967296"), Err(at(0, 9)));
    assert_eq!(u64::parse("18446744073709551616"), Err(at(0, 19)));
    assert_eq!(u128::parse("340282366920938463463374607431768211456"), Err(at(0, 38)));
    assert_eq!(u128::parse("3402823669209384634633746074317682114550"), Err(at(0, 39)));
}

#[test]
fn leading_zero_and_missing_digits_fail() {
    assert_eq!(u32::parse("01"), Err(at(0, 1)));
    assert_eq!(u32::parse("00"), Err(at(0, 1)));
    assert_eq!(u32::parse(""), Err(at(0, 0)));
    assert_eq!(u32::parse("x"), Err(at(0, 0)));
    assert_eq!(u32::parse("-1"), Err(at(0, 0)));
    assert_eq!(i32::parse("-"), Err(at(0, 1)));
    assert_eq!(i32::parse("-01"), Err(at(0, 2)));
    assert_eq!(i32::parse("+1"), Err(at(0, 0)));
}

#[test]
fn signed_numbers_are_read_with_their_sign() {
    assert_eq!(i32::parse("0"), Ok(0));
    assert_eq!(i32::parse("-0"), Ok(0));
    assert_eq!(i32::parse("42"), Ok(42));
    assert_eq!(i32::parse("-42"), Ok(-42));
    assert_eq!(i8::parse("127"), Ok(127));
    assert_eq!(i8::parse("-128"), Ok(-128));
    assert_eq!(i16::parse("-32768"), Ok(i16::MIN));
    assert_eq!(i32::parse("2147483647"), Ok(i32::MAX));
    assert_eq!(i64::parse("-9223372036854775808"), Ok(i64::MIN));
    assert_eq!(i128::parse("170141183460469231731687303715884105727"), Ok(i128::MAX));
    assert_eq!(i128::parse("-170141183460469231731687303715884105728"), Ok(i128::MIN));
    assert_eq!(isize::parse("-77"), Ok(-77));
}

#[test]
fn signed_overflow_fails_at_the_digit_that_overflows() {
    assert_eq!(i8::parse("128"), Err(at(0, 2)));
    assert_eq!(i8::parse("-129"), Err(at(0, 3)));
    assert_eq!(i16::parse("32768"), Err(at(0, 4)));
    assert_eq!(i32::parse("-2147483649"), Err(at(0, 10)));
    assert_eq!(i128::parse("170141183460469231731687303715884105728"), Err(at(0, 38)));
    assert_eq!(i128::parse("-170141183460469231731687303715884105729"), Err(at(0, 39)));
}

#[test]
fn number_within_given_bounds() {
    let (value, rest) = parse_unsigned(Index::new("99 "), 99).unwrap();
    assert_eq!((value, rest.remaining), (99, " "));
    assert_eq!(parse_unsigned(Index::new("100"), 99).unwrap_err(), at(0, 2));
    let (value, rest) = parse_signed(Index::new("-5;"), -5, 5).unwrap();
    assert_eq!((value, rest.remaining), (-5, ";"));
    assert_eq!(parse_signed(Index::new("-6"), -5, 5).unwrap_err(), at(0, 1));
    assert_eq!(parse_signed(Index::new("6"), -5, 5).unwrap_err(), at(0, 0));
}

#[test]
fn whole_text_must_be_read() {
    assert_eq!(u32::parse("12x"), Err(at(0, 0)));
    assert_eq!(char::parse("ab"), Err(at(0, 0)));
    assert_eq!(bool::parse("truex"), Err(at(0, 0)));
}

#[test]
fn booleans_are_the_two_words() {
    assert_eq!(bool::parse("true"), Ok(true));
    assert_eq!(bool::parse("false"), Ok(false));
    assert_eq!(bool::parse("tru"), Err(at(0, 3)));
    assert_eq!(bool::parse(""), Err(at(0, 0)));
    assert_eq!(bool::parse("trux"), Err(at(0, 4)));
    assert_eq!(bool::parse("yes, no"), Err(at(0, 4)));
    assert_eq!(bool::parse("fals"), Err(at(0, 4)));
    assert_eq!(bool::parse("falsy"), Err(at(0, 5)));
    let (value, rest) = bool::parse_at(Index::new("falsetto")).unwrap();
    assert!(!value);
    assert_eq!(rest.remaining, "tto");
}

#[test]
fn character_is_the_next_character() {
    assert_eq!(char::parse("x"), Ok('x'));
    assert_eq!(char::parse("\u{1F600}"), Ok('\u{1F600}'));
    assert_eq!(char::parse(""), Err(at(0, 0)));
    let (value, rest) = char::parse_at(Index::new("\nb")).unwrap();
    assert_eq!(value, '\n');
    assert_eq!((rest.remaining, rest.lineno, rest.colno), ("b", 1, 0));
}

#[test]
fn string_takes_all_that_is_left() {
    assert_eq!(String::parse("hello\nworld"), Ok("hello\nworld".to_string()));
    assert_eq!(String::parse(""), Ok(String::new()));
    let (value, rest) = String::parse_at(Index::new("a\nbc")).unwrap();
    assert_eq!(value, "a\nbc");
    assert_eq!((rest.remaining, rest.lineno, rest.colno), ("", 1, 2));
}

#[test]
fn boxed_value_is_read_as_the_value() {
    assert_eq!(<Box<u8>>::parse("17"), Ok(Box::new(17)));
    assert_eq!(<Box<u8>>::parse("300"), Err(at(0, 2)));
}

#[test]
fn raw_parse_returns_the_text_that_was_read() {
    let (text, rest) = u32::parse_raw_at(Index::new("123abc")).unwrap();
    assert_eq!(text, "123");
    assert_eq!(rest.remaining, "abc");
    let (text, rest) = char::parse_raw_at(Index::new("\u{e9}t")).unwrap();
    assert_eq!(text, "\u{e9}");
    assert_eq!((rest.remaining, rest.colno), ("t", 2));
    assert_eq!(u32::parse_raw_at(Index::new("abc")).unwrap_err(), at(0, 0));
}

#[test]
fn text_between_two_places() {
    let start = Index::new("h\u{e9}llo world");
    let mut end = start;
    for _ in 0..5 {
        end.next();
    }
    assert_eq!(start.consumed(&end), "h\u{e9}llo");
    assert_eq!(start.consumed(&start), "");
    let seen = start.restricted(&end);
    assert_eq!((seen.remaining, seen.lineno, seen.colno), ("h\u{e9}llo", 0, 0));
    let later = end.restricted(&end);
    assert_eq!((later.remaining, later.colno), ("", 6));
}
