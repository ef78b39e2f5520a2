//! Reading column values from their text form: integers in decimal, `bool`
//! as `0`/`1`, a single `char`, and text as it is.

use vstd::prelude::*;

use crate::text::{chars_of, decimal, digit_char};

verus! {

/// Why a column value could not be read.
#[derive(Debug, Clone, Copy, PartialEq, Eq, Structural)]
pub enum ParseError {
    /// The text is empty.
    Empty,
    /// A character that is not a decimal digit where a digit was expected
    /// (a sign alone counts as such).
    InvalidDigit,
    /// The number is greater than the largest value of the type.
    PosOverflow,
    /// The number is less than the smallest value of the type.
    NegOverflow,
    /// A `bool` column holds something other than `0` or `1`.
    InvalidBool,
    /// A `char` column holds more than one character.
    TooManyChars,
}

/// A type whose values can be read from the text of a column.
pub trait Parser: Sized {
    /// Reads a value from the text `input`.
    fn custom_parse(input: &str) -> Result<Self, ParseError>;
}

/// Whether `c` is one of the decimal digits `0` to `9`.
pub open spec fn is_digit(c: char) -> bool {
    '0' <= c && c <= '9'
}

/// The value of the decimal digit `c`.
pub open spec fn digit_value(c: char) -> int {
    c as int - 48
}

/// Reads the digits `ds` from the left onto the number `acc` read so far
/// (subtracting each digit when `negative`), stopping at the first character
/// that is not a digit and at the first step that leaves `lo..=hi`.
pub open spec fn scan_digits(ds: Seq<char>, acc: int, negative: bool, lo: int, hi: int) -> Result<
    int,
    ParseError,
>
    decreases ds.len(),
{
    if ds.len() == 0 {
        Ok(acc)
    } else if !is_digit(ds[0]) {
        Err(ParseError::InvalidDigit)
    } else {
        let next = if negative {
            acc * 10 - digit_value(ds[0])
        } else {
            acc * 10 + digit_value(ds[0])
        };
        if next > hi {
            Err(ParseError::PosOverflow)
        } else if next < lo {
            Err(ParseError::NegOverflow)
        } else {
            scan_digits(ds.skip(1), next, negative, lo, hi)
        }
    }
}

/// The integer that the text `s` denotes in an integer type of range
/// `lo..=hi`, as Rust's `str::parse` reads it: an optional sign (`-` only
/// where the type has negative values) and at least one decimal digit.
pub open spec fn parsed_integer(s: Seq<char>, lo: int, hi: int) -> Result<int, ParseError> {
    if s.len() == 0 {
        Err(ParseError::Empty)
    } else if s.len() == 1 && (s[0] == '+' || s[0] == '-') {
        Err(ParseError::InvalidDigit)
    } else if s[0] == '+' {
        scan_digits(s.skip(1), 0, false, lo, hi)
    } else if s[0] == '-' && lo < 0 {
        scan_digits(s.skip(1), 0, true, lo, hi)
    } else {
        scan_digits(s, 0, false, lo, hi)
    }
}

/// `r` is what `parsed_integer(s, lo, hi)` gives, the integer taken as `int`.
pub open spec fn reads_as<T: Integer>(r: Result<T, ParseError>, s: Seq<char>, lo: int, hi: int) -> bool {
    match parsed_integer(s, lo, hi) {
        Ok(n) => r matches Ok(v) && v as int == n,
        Err(e) => r == Err::<T, ParseError>(e),
    }
}

proof fn lemma_scan_in_range(ds: Seq<char>, acc: int, negative: bool, lo: int, hi: int)
    ensures
        scan_digits(ds, acc, negative, lo, hi) matches Ok(n) ==> (ds.len() == 0 || (lo <= n <= hi)),
        ds.len() == 0 ==> scan_digits(ds, acc, negative, lo, hi) == Ok::<int, ParseError>(acc),
    decreases ds.len(),
{
    if ds.len() > 0 && is_digit(ds[0]) {
        let next = if negative {
            acc * 10 - digit_value(ds[0])
        } else {
            acc * 10 + digit_value(ds[0])
        };
        lemma_scan_in_range(ds.skip(1), next, negative, lo, hi);
    }
}

/// An integer read from text always lies in the range of the type it is read
/// for.
pub proof fn lemma_parsed_integer_in_range(s: Seq<char>, lo: int, hi: int)
    ensures
        parsed_integer(s, lo, hi) matches Ok(n) ==> lo <= n <= hi,
{
    if s.len() > 0 {
        lemma_scan_in_range(s, 0, false, lo, hi);
        lemma_scan_in_range(s.skip(1), 0, false, lo, hi);
        lemma_scan_in_range(s.skip(1), 0, true, lo, hi);
    }
}

/// Reads the digits `cs[i..]` onto the non-negative `acc`, within `0..=hi`.
fn scan_unsigned(cs: &Vec<char>, start: usize, hi: u128) -> (r: Result<u128, ParseError>)
    requires
        start <= cs.len(),
    ensures
        match scan_digits(cs@.skip(start as int), 0, false, 0, hi as int) {
            Ok(n) => r == Ok::<u128, ParseError>(n as u128),
            Err(e) => r == Err::<u128, ParseError>(e),
        },
{
    let mut acc: u128 = 0;
    let mut i = start;
    while i < cs.len()
        invariant
            start <= i <= cs.len(),
            acc <= hi,
            scan_digits(cs@.skip(start as int), 0, false, 0, hi as int) == scan_digits(
                cs@.skip(i as int),
                acc as int,
                false,
                0,
                hi as int,
            ),
        decreases cs.len() - i,
    {
        let ghost rest = cs@.skip(i as int);
        assert(rest[0] == cs@[i as int]);
        assert(rest.skip(1) =~= cs@.skip(i + 1));
        let c = cs[i];
        if !('0' <= c && c <= '9') {
            return Err(ParseError::InvalidDigit);
        }
        let d: u128 = ((c as u32) - 48) as u128;
        match acc.checked_mul(10) {
            None => {
                return Err(ParseError::PosOverflow);
            },
            Some(m) => match m.checked_add(d) {
                None => {
                    return Err(ParseError::PosOverflow);
                },
                Some(next) => {
                    if next > hi {
                        return Err(ParseError::PosOverflow);
                    }
                    acc = next;
                },
            },
        }
        i = i + 1;
    }
    assert(cs@.skip(i as int).len() == 0);
    Ok(acc)
}

/// Reads the digits `cs[i..]` within `lo..=hi`, subtracting them when
/// `negative`.
fn scan_signed(cs: &Vec<char>, start: usize, negative: bool, lo: i128, hi: i128) -> (r: Result<
    i128,
    ParseError,
>)
    requires
        start <= cs.len(),
        lo <= 0 <= hi,
    ensures
        match scan_digits(cs@.skip(start as int), 0, negative, lo as int, hi as int) {
            Ok(n) => r == Ok::<i128, ParseError>(n as i128),
            Err(e) => r == Err::<i128, ParseError>(e),
        },
{
    let mut acc: i128 = 0;
    let mut i = start;
    while i < cs.len()
        invariant
            start <= i <= cs.len(),
            lo <= 0 <= hi,
            lo <= acc <= hi,
            negative ==> acc <= 0,
            !negative ==> acc >= 0,
            scan_digits(cs@.skip(start as int), 0, negative, lo as int, hi as int) == scan_digits(
                cs@.skip(i as int),
                acc as int,
                negative,
                lo as int,
                hi as int,
            ),
        decreases cs.len() - i,
    {
        let ghost rest = cs@.skip(i as int);
        assert(rest[0] == cs@[i as int]);
        assert(rest.skip(1) =~= cs@.skip(i + 1));
        let c = cs[i];
        if !('0' <= c && c <= '9') {
            return Err(ParseError::InvalidDigit);
        }
        let d: i128 = ((c as u32) - 48) as i128;
        if negative {
            match acc.checked_mul(10) {
                None => {
                    return Err(ParseError::NegOverflow);
                },
                Some(m) => match m.checked_sub(d) {
                    None => {
                        return Err(ParseError::NegOverflow);
                    },
                    Some(next) => {
                        if next < lo {
                            return Err(ParseError::NegOverflow);
                        }
                        acc = next;
                    },
                },
            }
        } else {
            match acc.checked_mul(10) {
                None => {
                    return Err(ParseError::PosOverflow);
                },
                Some(m) => match m.checked_add(d) {
                    None => {
                        return Err(ParseError::PosOverflow);
                    },
                    Some(next) => {
                        if next > hi {
                            return Err(ParseError::PosOverflow);
                        }
                        acc = next;
                    },
                },
            }
        }
        i = i + 1;
    }
    assert(cs@.skip(i as int).len() == 0);
    Ok(acc)
}

/// Reads an integer of range `0..=hi` from `s`.
pub fn parse_unsigned(s: &str, hi: u128) -> (r: Result<u128, ParseError>)
    ensures
        reads_as(r, s@, 0, hi as int),
        r matches Ok(v) ==> v <= hi,
{
    let cs = chars_of(s);
    if cs.len() == 0 {
        return Err(ParseError::Empty);
    }
    if cs.len() == 1 && (cs[0] == '+' || cs[0] == '-') {
        return Err(ParseError::InvalidDigit);
    }
    let start: usize = if cs[0] == '+' {
        1
    } else {
        0
    };
    assert(cs@.skip(0) =~= cs@);
    proof {
        lemma_scan_in_range(cs@.skip(start as int), 0, false, 0, hi as int);
    }
    scan_unsigned(&cs, start, hi)
}

/// Reads an integer of range `lo..=hi` from `s`, where `lo < 0 <= hi`.
pub fn parse_signed(s: &str, lo: i128, hi: i128) -> (r: Result<i128, ParseError>)
    requires
        lo < 0 <= hi,
    ensures
        reads_as(r, s@, lo as int, hi as int),
        r matches Ok(v) ==> lo <= v <= hi,
{
    let cs = chars_of(s);
    if cs.len() == 0 {
        return Err(ParseError::Empty);
    }
    if cs.len() == 1 && (cs[0] == '+' || cs[0] == '-') {
        return Err(ParseError::InvalidDigit);
    }
    let negative = cs[0] == '-';
    let start: usize = if cs[0] == '+' || cs[0] == '-' {
        1
    } else {
        0
    };
    assert(cs@.skip(0) =~= cs@);
    proof {
        lemma_scan_in_range(cs@.skip(start as int), 0, negative, lo as int, hi as int);
    }
    scan_signed(&cs, start, negative, lo, hi)
}


impl Parser for u8 {
    /// Reads a decimal `u8`, as `str::parse` does.
    fn custom_parse(input: &str) -> (r: Result<u8, ParseError>)
        ensures
            reads_as(r, input@, 0, u8::MAX as int),
    {
        match parse_unsigned(input, u8::MAX as u128) {
            Ok(v) => Ok(v as u8),
            Err(e) => Err(e),
        }
    }
}

impl Parser for u16 {
    /// Reads a decimal `u16`, as `str::parse` does.
    fn custom_parse(input: &str) -> (r: Result<u16, ParseError>)
        ensures
            reads_as(r, input@, 0, u16::MAX as int),
    {
        match parse_unsigned(input, u16::MAX as u128) {
            Ok(v) => Ok(v as u16),
            Err(e) => Err(e),
        }
    }
}

impl Parser for u32 {
    /// Reads a decimal `u32`, as `str::parse` does.
    fn custom_parse(input: &str) -> (r: Result<u32, ParseError>)
        ensures
            reads_as(r, input@, 0, u32::MAX as int),
    {
        match parse_unsigned(input, u32::MAX as u128) {
            Ok(v) => Ok(v as u32),
            Err(e) => Err(e),
        }
    }
}

impl Parser for u64 {
    /// Reads a decimal `u64`, as `str::parse` does.
    fn custom_parse(input: &str) -> (r: Result<u64, ParseError>)
        ensures
            reads_as(r, input@, 0, u64::MAX as int),
    {
        match parse_unsigned(input, u64::MAX as u128) {
            Ok(v) => Ok(v as u64),
            Err(e) => Err(e),
        }
    }
}

impl Parser for usize {
    /// Reads a decimal `usize`, as `str::parse` does.
    fn custom_parse(input: &str) -> (r: Result<usize, ParseError>)
        ensures
            reads_as(r, input@, 0, usize::MAX as int),
    {
        match parse_unsigned(input, usize::MAX as u128) {
            Ok(v) => Ok(v as usize),
            Err(e) => Err(e),
        }
    }
}

impl Parser for u128 {
    /// Reads a decimal `u128`, as `str::parse` does.
    fn custom_parse(input: &str) -> (r: Result<u128, ParseError>)
        ensures
            reads_as(r, input@, 0, u128::MAX as int),
    {
        parse_unsigned(input, u128::MAX)
    }
}

impl Parser for i8 {
    /// Reads a decimal `i8`, as `str::parse` does.
    fn custom_parse(input: &str) -> (r: Result<i8, ParseError>)
        ensures
            reads_as(r, input@, i8::MIN as int, i8::MAX as int),
    {
        match parse_signed(input, i8::MIN as i128, i8::MAX as i128) {
            Ok(v) => Ok(v as i8),
            Err(e) => Err(e),
        }
    }
}

impl Parser for i16 {
    /// Reads a decimal `i16`, as `str::parse` does.
    fn custom_parse(input: &str) -> (r: Result<i16, ParseError>)
        ensures
            reads_as(r, input@, i16::MIN as int, i16::MAX as int),
    {
        match parse_signed(input, i16::MIN as i128, i16::MAX as i128) {
            Ok(v) => Ok(v as i16),
            Err(e) => Err(e),
        }
    }
}

impl Parser for i32 {
    /// Reads a decimal `i32`, as `str::parse` does.
    fn custom_parse(input: &str) -> (r: Result<i32, ParseError>)
        ensures
            reads_as(r, input@, i32::MIN as int, i32::MAX as int),
    {
        match parse_signed(input, i32::MIN as i128, i32::MAX as i128) {
            Ok(v) => Ok(v as i32),
            Err(e) => Err(e),
        }
    }
}

impl Parser for i64 {
    /// Reads a decimal `i64`, as `str::parse` does.
    fn custom_parse(input: &str) -> (r: Result<i64, ParseError>)
        ensures
            reads_as(r, input@, i64::MIN as int, i64::MAX as int),
    {
        match parse_signed(input, i64::MIN as i128, i64::MAX as i128) {
            Ok(v) => Ok(v as i64),
            Err(e) => Err(e),
        }
    }
}

impl Parser for isize {
    /// Reads a decimal `isize`, as `str::parse` does.
    fn custom_parse(input: &str) -> (r: Result<isize, ParseError>)
        ensures
            reads_as(r, input@, isize::MIN as int, isize::MAX as int),
    {
        match parse_signed(input, isize::MIN as i128, isize::MAX as i128) {
            Ok(v) => Ok(v as isize),
            Err(e) => Err(e),
        }
    }
}

impl Parser for i128 {
    /// Reads a decimal `i128`, as `str::parse` does.
    fn custom_parse(input: &str) -> (r: Result<i128, ParseError>)
        ensures
            reads_as(r, input@, i128::MIN as int, i128::MAX as int),
    {
        parse_signed(input, i128::MIN, i128::MAX)
    }
}

impl Parser for String {
    /// The text itself.
    fn custom_parse(input: &str) -> (r: Result<String, ParseError>)
        ensures
            r matches Ok(v) && v@ == input@,
    {
        Ok(input.to_owned())
    }
}

/// What a `bool` column holds: `1` is true, `0` is false, nothing else is a
/// `bool`.
pub open spec fn parsed_bool(s: Seq<char>) -> Result<bool, ParseError> {
    if s == seq!['1'] {
        Ok(true)
    } else if s == seq!['0'] {
        Ok(false)
    } else {
        Err(ParseError::InvalidBool)
    }
}

impl Parser for bool {
    /// Reads `1` as true and `0` as false.
    fn custom_parse(input: &str) -> (r: Result<bool, ParseError>)
        ensures
            r == parsed_bool(input@),
    {
        let cs = chars_of(input);
        if cs.len() == 1 && cs[0] == '1' {
            assert(input@ =~= seq!['1']);
            Ok(true)
        } else if cs.len() == 1 && cs[0] == '0' {
            assert(input@ =~= seq!['0']);
            Ok(false)
        } else {
            assert(input@ != seq!['1'] && input@ != seq!['0']) by {
                if cs.len() == 1 {
                    assert(input@[0] == cs@[0]);
                }
            }
            Err(ParseError::InvalidBool)
        }
    }
}

/// What a `char` column holds: exactly one character.
pub open spec fn parsed_char(s: Seq<char>) -> Result<char, ParseError> {
    if s.len() == 0 {
        Err(ParseError::Empty)
    } else if s.len() == 1 {
        Ok(s[0])
    } else {
        Err(ParseError::TooManyChars)
    }
}

impl Parser for char {
    /// Reads the one character of the text, as `str::parse` does.
    fn custom_parse(input: &str) -> (r: Result<char, ParseError>)
        ensures
            r == parsed_char(input@),
    {
        let cs = chars_of(input);
        if cs.len() == 0 {
            Err(ParseError::Empty)
        } else if cs.len() == 1 {
            Ok(cs[0])
        } else {
            Err(ParseError::TooManyChars)
        }
    }
}


/// The text that Rust's `to_string` gives for the integer `n`: a `-` for a
/// negative number, then the decimal digits of its magnitude.
pub open spec fn signed_decimal(n: int) -> Seq<char> {
    if n < 0 {
        seq!['-'] + decimal((-n) as nat)
    } else {
        decimal(n as nat)
    }
}

proof fn lemma_digit_char(k: int)
    requires
        0 <= k < 10,
    ensures
        is_digit(digit_char(k)),
        digit_value(digit_char(k)) == k,
{
}

proof fn lemma_decimal_shape(n: nat)
    ensures
        decimal(n).len() >= 1,
        is_digit(decimal(n)[0]),
    decreases n,
{
    if n < 10 {
        lemma_digit_char(n as int);
    } else {
        lemma_decimal_shape(n / 10);
    }
}

proof fn lemma_scan_concat(
    a: Seq<char>,
    b: Seq<char>,
    acc: int,
    negative: bool,
    lo: int,
    hi: int,
    v: int,
)
    requires
        scan_digits(a, acc, negative, lo, hi) == Ok::<int, ParseError>(v),
    ensures
        scan_digits(a + b, acc, negative, lo, hi) == scan_digits(b, v, negative, lo, hi),
    decreases a.len(),
{
    if a.len() == 0 {
        assert(a + b =~= b);
    } else {
        let next = if negative {
            acc * 10 - digit_value(a[0])
        } else {
            acc * 10 + digit_value(a[0])
        };
        assert((a + b)[0] == a[0]);
        assert((a + b).skip(1) =~= a.skip(1) + b);
        lemma_scan_concat(a.skip(1), b, next, negative, lo, hi, v);
    }
}

proof fn lemma_scan_decimal(m: nat, negative: bool, lo: int, hi: int)
    requires
        lo <= 0 <= hi,
        negative ==> lo <= -m,
        !negative ==> m <= hi,
    ensures
        scan_digits(decimal(m), 0, negative, lo, hi) == Ok::<int, ParseError>(
            if negative {
                -m
            } else {
                m as int
            },
        ),
    decreases m,
{
    if m < 10 {
        lemma_digit_char(m as int);
        assert(decimal(m).skip(1) =~= Seq::<char>::empty());
        assert(decimal(m)[0] == digit_char(m as int));
        let r = if negative {
            -m
        } else {
            m as int
        };
        assert(scan_digits(decimal(m).skip(1), r, negative, lo, hi) == Ok::<int, ParseError>(r));
    } else {
        let q = m / 10;
        let d = m % 10;
        lemma_scan_decimal(q, negative, lo, hi);
        lemma_digit_char(d as int);
        let v = if negative {
            -q
        } else {
            q as int
        };
        lemma_scan_concat(decimal(q), seq![digit_char(d as int)], 0, negative, lo, hi, v);
        assert(decimal(m) == decimal(q) + seq![digit_char(d as int)]);
        let one = seq![digit_char(d as int)];
        assert(one.skip(1) =~= Seq::<char>::empty());
        assert(q * 10 + d == m);
        assert(one[0] == digit_char(d as int));
        assert(digit_value(one[0]) == d);
        let next = if negative {
            v * 10 - d
        } else {
            v * 10 + d
        };
        assert(next == if negative {
            -m
        } else {
            m as int
        });
        assert(scan_digits(one, v, negative, lo, hi) == scan_digits(one.skip(1), next, negative, lo, hi));
        assert(scan_digits(one.skip(1), next, negative, lo, hi) == Ok::<int, ParseError>(next));
    }
}

/// Reading back the text that `to_string` gives for an integer yields that
/// integer, in every integer type whose range holds it.
pub proof fn lemma_read_back_decimal(n: int, lo: int, hi: int)
    requires
        lo <= n <= hi,
        lo <= 0 <= hi,
    ensures
        parsed_integer(signed_decimal(n), lo, hi) == Ok::<int, ParseError>(n),
{
    if n < 0 {
        let m = (-n) as nat;
        lemma_decimal_shape(m);
        lemma_scan_decimal(m, true, lo, hi);
        let s = signed_decimal(n);
        assert(s.skip(1) =~= decimal(m));
    } else {
        let m = n as nat;
        lemma_decimal_shape(m);
        lemma_scan_decimal(m, false, lo, hi);
    }
}

/// A text of one character reads as that very character; any other text is
/// refused, an empty one as `Empty` and a longer one as `TooManyChars`.
pub proof fn lemma_char_reads_itself(c: char, s: Seq<char>)
    ensures
        parsed_char(seq![c]) == Ok::<char, ParseError>(c),
        s.len() == 0 ==> parsed_char(s) == Err::<char, ParseError>(ParseError::Empty),
        s.len() > 1 ==> parsed_char(s) == Err::<char, ParseError>(ParseError::TooManyChars),
        parsed_char(s) matches Ok(d) ==> s == seq![d],
{
    if parsed_char(s) is Ok {
        assert(s =~= seq![s[0]]);
    }
}

/// A `bool` column reads back what was stored: `1` is true, `0` is false, and
/// a text that reads as a `bool` is one of those two.
pub proof fn lemma_bool_reads_back(b: bool, s: Seq<char>)
    ensures
        parsed_bool(seq![if b { '1' } else { '0' }]) == Ok::<bool, ParseError>(b),
        parsed_bool(s) matches Ok(v) ==> s == seq![if v { '1' } else { '0' }],
{
    assert(seq!['0'][0] != seq!['1'][0]);
    assert(seq!['0'] != seq!['1']);
}

} // verus!
