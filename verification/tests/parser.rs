use planetscale_driver::parser::ParseError;
use planetscale_driver::Parser;

fn inputs() -> Vec<String> {
    let mut v: Vec<String> = [
        "", "+", "-", "0", "-0", "+0", "1", "-1", "+7", "007", "12a", "a12", " 1", "1 ", "1_000",
        "127", "128", "-128", "-129", "255", "256", "32767", "32768", "-32768", "-32769", "65535",
        "65536", "2147483647", "2147483648", "-2147483648", "-2147483649", "4294967295",
        "4294967296", "9223372036854775807", "9223372036854775808", "-9223372036854775808",
        "-9223372036854775809", "18446744073709551615", "18446744073709551616",
        "170141183460469231731687303715884105727", "170141183460469231731687303715884105728",
        "-170141183460469231731687303715884105728", "-170141183460469231731687303715884105729",
        "340282366920938463463374607431768211455", "340282366920938463463374607431768211456",
        "99999999999999999999999999999999999999999999x", "-99999999999999999999999999999999999x",
        "1000x", "++1", "--1", "+-1", "٣", "１",
    ]
    .iter()
    .map(|s| s.to_string())
    .collect();
    v.push("9".repeat(60));
    v
}

fn agrees_with_std<T>()
where
    T: Parser + std::str::FromStr<Err = std::num::ParseIntError> + PartialEq + std::fmt::Debug,
{
    for s in inputs() {
        let ours = T::custom_parse(&s);
        let std = s.parse::<T>();
        match (ours, std) {
            (Ok(a), Ok(b)) => assert_eq!(a, b, "input {:?}", s),
            (Err(e), Err(f)) => {
                let kind = match f.kind() {
                    std::num::IntErrorKind::Empty => ParseError::Empty,
                    std::num::IntErrorKind::InvalidDigit => ParseError::InvalidDigit,
                    std::num::IntErrorKind::PosOverflow => ParseError::PosOverflow,
                    std::num::IntErrorKind::NegOverflow => ParseError::NegOverflow,
                    _ => panic!("unexpected kind"),
                };
                assert_eq!(e, kind, "input {:?}", s);
            }
            (a, b) => panic!("input {:?}: ours {:?}, std {:?}", s, a, b),
        }
    }
}

#[test]
fn u8_agrees_with_std() {
    agrees_with_std::<u8>();
}

#[test]
fn u16_agrees_with_std() {
    agrees_with_std::<u16>();
}

#[test]
fn u32_agrees_with_std() {
    agrees_with_std::<u32>();
}

#[test]
fn u64_agrees_with_std() {
    agrees_with_std::<u64>();
}

#[test]
fn u128_agrees_with_std() {
    agrees_with_std::<u128>();
}

#[test]
fn usize_agrees_with_std() {
    agrees_with_std::<usize>();
}

#[test]
fn i8_agrees_with_std() {
    agrees_with_std::<i8>();
}

#[test]
fn i16_agrees_with_std() {
    agrees_with_std::<i16>();
}

#[test]
fn i32_agrees_with_std() {
    agrees_with_std::<i32>();
}

#[test]
fn i64_agrees_with_std() {
    agrees_with_std::<i64>();
}

#[test]
fn i128_agrees_with_std() {
    agrees_with_std::<i128>();
}

#[test]
fn isize_agrees_with_std() {
    agrees_with_std::<isize>();
}


#[test]
fn integer_errors() {
    assert_eq!(i32::custom_parse(""), Err(ParseError::Empty));
    assert_eq!(i32::custom_parse("-"), Err(ParseError::InvalidDigit));
    assert_eq!(u8::custom_parse("-1"), Err(ParseError::InvalidDigit));
    assert_eq!(u8::custom_parse("256"), Err(ParseError::PosOverflow));
    assert_eq!(i8::custom_parse("-129"), Err(ParseError::NegOverflow));
    assert_eq!(u8::custom_parse("999x"), Err(ParseError::PosOverflow));
    assert_eq!(u8::custom_parse("99x"), Err(ParseError::InvalidDigit));
}

#[test]
fn read_back_to_string() {
    for n in [i64::MIN, -1234567, -1, 0, 1, 42, i64::MAX] {
        assert_eq!(i64::custom_parse(&n.to_string()), Ok(n));
    }
    for n in [0u64, 9, 10, 99, 100, u64::MAX] {
        assert_eq!(u64::custom_parse(&n.to_string()), Ok(n));
    }
    assert_eq!(i128::custom_parse(&i128::MIN.to_string()), Ok(i128::MIN));
    assert_eq!(u128::custom_parse(&u128::MAX.to_string()), Ok(u128::MAX));
}

#[test]
fn bool_reads_only_zero_and_one() {
    assert_eq!(bool::custom_parse("1"), Ok(true));
    assert_eq!(bool::custom_parse("0"), Ok(false));
    assert_eq!(bool::custom_parse("true"), Err(ParseError::InvalidBool));
    assert_eq!(bool::custom_parse(""), Err(ParseError::InvalidBool));
    assert_eq!(bool::custom_parse("01"), Err(ParseError::InvalidBool));
}

#[test]
fn char_reads_exactly_one_character() {
    assert_eq!(char::custom_parse("x"), Ok('x'));
    assert_eq!(char::custom_parse("ö"), Ok('ö'));
    assert_eq!(char::custom_parse(""), Err(ParseError::Empty));
    assert_eq!(char::custom_parse("xy"), Err(ParseError::TooManyChars));
    for s in ["", "a", "ab", "é", "日本"] {
        assert_eq!(char::custom_parse(s).is_ok(), s.parse::<char>().is_ok());
    }
}

#[test]
fn string_reads_as_is() {
    assert_eq!(String::custom_parse("héllo, 'x'"), Ok("héllo, 'x'".to_string()));
    assert_eq!(String::custom_parse(""), Ok(String::new()));
}
