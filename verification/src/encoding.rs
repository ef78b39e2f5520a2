//! Base64 (standard alphabet, with padding) and UTF-8 at the edge of the
//! library, through the `base64` crate and the standard library.

use vstd::prelude::*;
use vstd::utf8::{decode_utf8, encode_utf8, valid_utf8};

verus! {

/// The base64 digit of the six-bit value `v` in the standard alphabet:
/// `A`-`Z` for 0 to 25, `a`-`z` for 26 to 51, `0`-`9` for 52 to 61, then `+`
/// and `/`.
pub open spec fn base64_digit(v: int) -> char {
    if v < 26 {
        (65 + v) as char
    } else if v < 52 {
        (97 + (v - 26)) as char
    } else if v < 62 {
        (48 + (v - 52)) as char
    } else if v == 62 {
        '+'
    } else {
        '/'
    }
}

/// Standard, padded base64 of `b` (RFC 4648, section 4): each group of three
/// bytes, from the start, gives four digits of six bits each, high bits
/// first; a last group of one or two bytes is filled out with zero bits and
/// ends with `==` or `=`.
pub open spec fn base64_of(b: Seq<u8>) -> Seq<char>
    decreases b.len(),
{
    if b.len() == 0 {
        Seq::empty()
    } else if b.len() == 1 {
        seq![base64_digit(b[0] as int / 4), base64_digit((b[0] as int % 4) * 16), '=', '=']
    } else if b.len() == 2 {
        seq![
            base64_digit(b[0] as int / 4),
            base64_digit((b[0] as int % 4) * 16 + b[1] as int / 16),
            base64_digit((b[1] as int % 16) * 4),
            '=',
        ]
    } else {
        seq![
            base64_digit(b[0] as int / 4),
            base64_digit((b[0] as int % 4) * 16 + b[1] as int / 16),
            base64_digit((b[1] as int % 16) * 4 + b[2] as int / 64),
            base64_digit(b[2] as int % 64),
        ] + base64_of(b.skip(3))
    }
}

/// The bytes whose standard, padded base64 is `text`, or `None` when `text`
/// is the base64 of no bytes (there is at most one such sequence, see
/// `lemma_base64_round_trip`).
pub open spec fn base64_decoded(text: Seq<char>) -> Option<Seq<u8>> {
    if exists|b: Seq<u8>| base64_of(b) == text {
        Some(choose|b: Seq<u8>| base64_of(b) == text)
    } else {
        None
    }
}

/// Distinct six-bit values have distinct digits, and no digit is `=`.
proof fn lemma_digit_distinct(v: int, w: int)
    requires
        0 <= v < 64,
        0 <= w < 64,
    ensures
        base64_digit(v) != '=',
        base64_digit(v) == base64_digit(w) ==> v == w,
{
}

proof fn lemma_base64_unfold(b: Seq<u8>)
    requires
        b.len() > 0,
    ensures
        base64_of(b).len() >= 4,
        base64_of(b)[0] == base64_digit(b[0] as int / 4),
        b.len() == 1 ==> base64_of(b)[1] == base64_digit((b[0] as int % 4) * 16),
        b.len() >= 2 ==> base64_of(b)[1] == base64_digit((b[0] as int % 4) * 16 + b[1] as int / 16),
        b.len() == 1 ==> base64_of(b)[2] == '=',
        b.len() == 2 ==> base64_of(b)[2] == base64_digit((b[1] as int % 16) * 4),
        b.len() >= 3 ==> base64_of(b)[2] == base64_digit((b[1] as int % 16) * 4 + b[2] as int / 64),
        b.len() <= 2 ==> base64_of(b)[3] == '=',
        b.len() >= 3 ==> base64_of(b)[3] == base64_digit(b[2] as int % 64),
        b.len() <= 2 ==> base64_of(b).len() == 4,
        b.len() >= 3 ==> base64_of(b).skip(4) == base64_of(b.skip(3)),
{
    if b.len() >= 3 {
        let head = seq![
            base64_digit(b[0] as int / 4),
            base64_digit((b[0] as int % 4) * 16 + b[1] as int / 16),
            base64_digit((b[1] as int % 16) * 4 + b[2] as int / 64),
            base64_digit(b[2] as int % 64),
        ];
        assert((head + base64_of(b.skip(3))).skip(4) =~= base64_of(b.skip(3)));
    }
}

/// Base64 loses nothing: two byte sequences with the same base64 text are
/// the same.
proof fn lemma_base64_injective(a: Seq<u8>, b: Seq<u8>)
    requires
        base64_of(a) == base64_of(b),
    ensures
        a == b,
    decreases a.len(),
{
    if a.len() == 0 || b.len() == 0 {
        if a.len() > 0 {
            lemma_base64_unfold(a);
        }
        if b.len() > 0 {
            lemma_base64_unfold(b);
        }
        assert(a =~= b);
    } else {
        lemma_base64_unfold(a);
        lemma_base64_unfold(b);
        let e = base64_of(a);
        let a0 = a[0] as int;
        let b0 = b[0] as int;
        lemma_digit_distinct(a0 / 4, b0 / 4);
        assert(a0 / 4 == b0 / 4);
        if a.len() == 1 || b.len() == 1 {
            if a.len() > 1 {
                lemma_digit_distinct((a0 % 4) * 16 + a[1] as int / 16, 0);
            }
            if b.len() > 1 {
                lemma_digit_distinct((b0 % 4) * 16 + b[1] as int / 16, 0);
            }
            lemma_digit_distinct((a0 % 4) * 16, (b0 % 4) * 16);
            assert(a =~= b);
        } else {
            let a1 = a[1] as int;
            let b1 = b[1] as int;
            lemma_digit_distinct((a0 % 4) * 16 + a1 / 16, (b0 % 4) * 16 + b1 / 16);
            assert(a0 % 4 == b0 % 4 && a1 / 16 == b1 / 16);
            assert(a0 == b0);
            if a.len() == 2 || b.len() == 2 {
                if a.len() > 2 {
                    lemma_digit_distinct(a[2] as int % 64, 0);
                }
                if b.len() > 2 {
                    lemma_digit_distinct(b[2] as int % 64, 0);
                }
                lemma_digit_distinct((a1 % 16) * 4, (b1 % 16) * 4);
                assert(a =~= b);
            } else {
                let a2 = a[2] as int;
                let b2 = b[2] as int;
                lemma_digit_distinct((a1 % 16) * 4 + a2 / 64, (b1 % 16) * 4 + b2 / 64);
                lemma_digit_distinct(a2 % 64, b2 % 64);
                assert(a1 == b1);
                assert(a2 == b2);
                lemma_base64_injective(a.skip(3), b.skip(3));
                assert forall|i: int| 0 <= i < a.len() implies a[i] == b[i] by {
                    if i >= 3 {
                        assert(a.skip(3)[i - 3] == a[i]);
                        assert(b.skip(3)[i - 3] == b[i]);
                    }
                }
                assert(a =~= b);
            }
        }
    }
}

/// Decoding undoes encoding: the bytes that the base64 text of `b` stands
/// for are `b` itself, and no other bytes have that text.
pub proof fn lemma_base64_round_trip(b: Seq<u8>)
    ensures
        base64_decoded(base64_of(b)) == Some(b),
{
    let t = base64_of(b);
    assert(exists|c: Seq<u8>| base64_of(c) == t);
    let c = choose|c: Seq<u8>| base64_of(c) == t;
    lemma_base64_injective(c, b);
}

/// Whether the base64 text of `n` bytes has a length that fits in `usize`.
pub open spec fn base64_len_fits(n: nat) -> bool {
    (n / 3) * 4 + (if n % 3 > 0 {
        4nat
    } else {
        0nat
    }) <= usize::MAX
}

/// Encodes the UTF-8 bytes of `s` in standard, padded base64.
///
/// Trusted: calls `base64::Engine::encode` on
/// `base64::engine::general_purpose::STANDARD` (standard alphabet, with
/// padding). The contract claims that the result is `base64_of` the UTF-8
/// bytes of the input. The crate panics when the length of the output would
/// overflow `usize`, which the `requires` rules out.
#[verifier::external_body]
pub fn to_base64(s: &str) -> (r: String)
    requires
        base64_len_fits(encode_utf8(s@).len()),
    ensures
        r@ == base64_of(encode_utf8(s@)),
{
    base64::Engine::encode(&base64::engine::general_purpose::STANDARD, s.as_bytes())
}

/// Decodes standard, padded base64 text; `None` where the text is not valid.
///
/// Trusted: calls `base64::Engine::decode` on
/// `base64::engine::general_purpose::STANDARD` and turns its error into
/// `None`. That engine requires canonical padding and no trailing bits, so it
/// accepts exactly the texts that its encoder writes: the contract claims
/// that `Some(v)` comes back exactly when the input is `base64_of(v)`, and
/// `None` when the input is the base64 of no bytes.
#[verifier::external_body]
pub fn from_base64(s: &str) -> (r: Option<Vec<u8>>)
    ensures
        match r {
            Some(v) => base64_of(v@) == s@,
            None => forall|b: Seq<u8>| base64_of(b) != s@,
        },
{
    base64::Engine::decode(&base64::engine::general_purpose::STANDARD, s.as_bytes()).ok()
}

/// The text that the bytes `v` encode in UTF-8, or `None` when they are not
/// valid UTF-8.
///
/// Trusted: calls `String::from_utf8`, which is documented to fail exactly
/// when the bytes are not valid UTF-8; the contract states validity and the
/// decoded characters with vstd's UTF-8 definitions.
#[verifier::external_body]
pub fn utf8_text(v: Vec<u8>) -> (r: Option<String>)
    ensures
        match r {
            Some(t) => valid_utf8(v@) && t@ == decode_utf8(v@),
            None => !valid_utf8(v@),
        },
{
    String::from_utf8(v).ok()
}

} // verus!
