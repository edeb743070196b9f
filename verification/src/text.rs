//! Text: UTF-8, and numbers written in decimal.

use crate::bytes::bytes_equal;
use vstd::prelude::*;
use vstd::string::*;
use vstd::utf8::{decode_utf8, encode_utf8, valid_utf8};

verus! {

/// The error of `std::str::from_utf8`.
#[verifier::external_type_specification]
#[verifier::external_body]
pub struct ExUtf8Error(core::str::Utf8Error);

/// The error of parsing an integer.
#[verifier::external_type_specification]
#[verifier::external_body]
pub struct ExParseIntError(core::num::ParseIntError);

/// `std::str::from_utf8` accepts exactly the valid UTF-8 sequences, and the
/// string it gives is the one they encode.
pub assume_specification[ core::str::from_utf8 ](v: &[u8]) -> (r: Result<&str, core::str::Utf8Error>)
    ensures
        match r {
            Ok(s) => valid_utf8(v@) && s@ == decode_utf8(v@),
            Err(_) => !valid_utf8(v@),
        },
;

/// What `String::from_utf8_lossy` makes of bytes that are not valid UTF-8.
pub uninterp spec fn replaced_text(bytes: Seq<u8>) -> Seq<char>;

/// The text of a byte sequence, with invalid parts replaced.
pub open spec fn lossy_text(bytes: Seq<u8>) -> Seq<char> {
    if valid_utf8(bytes) {
        decode_utf8(bytes)
    } else {
        replaced_text(bytes)
    }
}

/// `String::from_utf8_lossy`: the decoded text where the bytes are valid
/// UTF-8. How invalid bytes are replaced is left to the name
/// `replaced_text`.
#[verifier::external_body]
pub(crate) fn utf8_lossy(bytes: &[u8]) -> (r: String)
    ensures
        valid_utf8(bytes@) ==> r@ == decode_utf8(bytes@),
        !valid_utf8(bytes@) ==> r@ == replaced_text(bytes@),
{
    String::from_utf8_lossy(bytes).to_string()
}

/// A decimal digit.
pub open spec fn is_digit(c: char) -> bool {
    '0' <= c <= '9'
}

/// The number that a run of decimal digits writes, most significant first.
pub open spec fn digits_value(s: Seq<char>) -> int
    decreases s.len(),
{
    if s.len() == 0 {
        0
    } else {
        10 * digits_value(s.drop_last()) + (s.last() as int - '0' as int)
    }
}

/// At least one decimal digit and nothing else.
pub open spec fn all_digits(s: Seq<char>) -> bool {
    s.len() > 0 && forall|i: int| 0 <= i < s.len() ==> is_digit(#[trigger] s[i])
}

/// The number that an optional sign and decimal digits write.
pub open spec fn signed_value(s: Seq<char>) -> Option<int> {
    if s.len() > 0 && s[0] == '-' && all_digits(s.skip(1)) {
        Some(-digits_value(s.skip(1)))
    } else {
        unsigned_value(s)
    }
}

/// The number that an optional plus sign and decimal digits write.
pub open spec fn unsigned_value(s: Seq<char>) -> Option<int> {
    if all_digits(s) {
        Some(digits_value(s))
    } else if s.len() > 0 && s[0] == '+' && all_digits(s.skip(1)) {
        Some(digits_value(s.skip(1)))
    } else {
        None
    }
}

/// The signed 64-bit number that a text writes.
pub open spec fn i64_value(s: Seq<char>) -> Option<int> {
    match signed_value(s) {
        Some(n) if i64::MIN <= n <= i64::MAX => Some(n),
        _ => None,
    }
}

/// The `usize` number that a text writes.
pub open spec fn usize_value(s: Seq<char>) -> Option<int> {
    match unsigned_value(s) {
        Some(n) if n <= usize::MAX => Some(n),
        _ => None,
    }
}

/// `str::parse::<i64>`: an optional sign and at least one decimal digit, in
/// range; anything else is an error.
#[verifier::external_body]
pub(crate) fn parse_i64(s: &str) -> (r: Result<i64, core::num::ParseIntError>)
    ensures
        match r {
            Ok(n) => i64_value(s@) == Some(n as int),
            Err(_) => i64_value(s@) is None,
        },
{
    s.parse::<i64>()
}

/// `str::parse::<usize>`: an optional plus sign and at least one decimal
/// digit, in range; anything else is an error.
#[verifier::external_body]
pub(crate) fn parse_usize(s: &str) -> (r: Result<usize, core::num::ParseIntError>)
    ensures
        match r {
            Ok(n) => usize_value(s@) == Some(n as int),
            Err(_) => usize_value(s@) is None,
        },
{
    s.parse::<usize>()
}

/// The unsigned 64-bit number that a text writes.
pub open spec fn u64_value(s: Seq<char>) -> Option<int> {
    match unsigned_value(s) {
        Some(n) if n <= u64::MAX => Some(n),
        _ => None,
    }
}

/// `str::parse::<u64>`: an optional plus sign and at least one decimal digit,
/// in range; anything else is an error.
#[verifier::external_body]
pub(crate) fn parse_u64(s: &str) -> (r: Result<u64, core::num::ParseIntError>)
    ensures
        match r {
            Ok(n) => u64_value(s@) == Some(n as int),
            Err(_) => u64_value(s@) is None,
        },
{
    s.parse::<u64>()
}

/// The decimal digit of a value below ten, as an ASCII byte.
pub open spec fn digit_byte(n: nat) -> u8 {
    (48 + n % 10) as u8
}

/// A natural number in decimal, as ASCII bytes, without leading zeros.
pub open spec fn decimal_bytes(n: nat) -> Seq<u8>
    decreases n,
{
    if n < 10 {
        seq![digit_byte(n)]
    } else {
        decimal_bytes(n / 10).push(digit_byte(n))
    }
}

/// An integer in decimal, as ASCII bytes, with a leading minus if negative.
pub open spec fn signed_decimal_bytes(n: int) -> Seq<u8> {
    if n < 0 {
        seq![45u8] + decimal_bytes((-n) as nat)
    } else {
        decimal_bytes(n as nat)
    }
}

/// A natural number in decimal, as text.
pub open spec fn decimal(n: nat) -> Seq<char> {
    Seq::new(decimal_bytes(n).len(), |i: int| decimal_bytes(n)[i] as char)
}

/// ASCII bytes as text.
pub open spec fn ascii_chars(b: Seq<u8>) -> Seq<char> {
    Seq::new(b.len(), |i: int| b[i] as char)
}

/// Every byte is an ASCII code.
pub open spec fn is_ascii_bytes(b: Seq<u8>) -> bool {
    forall|i: int| 0 <= i < b.len() ==> #[trigger] b[i] < 128
}

/// ASCII bytes are UTF-8, and stand for the characters of the same codes.
pub proof fn lemma_ascii_utf8(b: Seq<u8>)
    requires
        is_ascii_bytes(b),
    ensures
        encode_utf8(ascii_chars(b)) == b,
        valid_utf8(b),
        decode_utf8(b) == ascii_chars(b),
{
    let c = ascii_chars(b);
    assert(vstd::utf8::is_ascii_chars(c));
    vstd::utf8::is_ascii_chars_encode_utf8(c);
    assert(encode_utf8(c) =~= b);
    vstd::utf8::encode_utf8_valid_utf8(c);
    vstd::utf8::encode_utf8_decode_utf8(c);
}

/// A string is determined by its UTF-8 bytes.
pub proof fn lemma_encode_injective(a: Seq<char>, b: Seq<char>)
    requires
        encode_utf8(a) == encode_utf8(b),
    ensures
        a == b,
{
    vstd::utf8::encode_utf8_decode_utf8(a);
    vstd::utf8::encode_utf8_decode_utf8(b);
}

/// Decimal digits are ASCII digits, and start with zero only for zero itself.
pub proof fn lemma_decimal_shape(n: nat)
    ensures
        decimal_bytes(n).len() > 0,
        forall|i: int| 0 <= i < decimal_bytes(n).len() ==> 48 <= #[trigger] decimal_bytes(n)[i] <= 57,
        decimal_bytes(n)[0] == 48 <==> n == 0,
        n > 0 ==> decimal_bytes(n)[0] != 48,
    decreases n,
{
    if n >= 10 {
        lemma_decimal_shape(n / 10);
    }
}

/// Reading back a number written in decimal gives the number.
pub proof fn lemma_decimal_value(n: nat)
    ensures
        all_digits(decimal(n)),
        digits_value(decimal(n)) == n,
    decreases n,
{
    lemma_decimal_shape(n);
    let d = decimal(n);
    assert forall|i: int| 0 <= i < d.len() implies is_digit(#[trigger] d[i]) by {
        assert(48 <= decimal_bytes(n)[i] <= 57);
    }
    if n < 10 {
        assert(d.drop_last() =~= Seq::<char>::empty());
        assert(digits_value(d.drop_last()) == 0);
    } else {
        lemma_decimal_value(n / 10);
        assert(d.drop_last() =~= decimal(n / 10));
    }
}

/// Appends a number in decimal to a byte buffer.
pub fn push_decimal(buf: &mut Vec<u8>, n: u64)
    ensures
        final(buf)@ == old(buf)@ + decimal_bytes(n as nat),
    decreases n,
{
    if n >= 10 {
        push_decimal(buf, n / 10);
    }
    let d: u8 = 48 + (n % 10) as u8;
    buf.push(d);
    assert(buf@ =~= old(buf)@ + decimal_bytes(n as nat));
}

/// A number in decimal, as text.
pub fn decimal_string(n: u64) -> (r: String)
    ensures
        r@ == decimal(n as nat),
{
    let mut buf: Vec<u8> = Vec::new();
    push_decimal(&mut buf, n);
    proof {
        lemma_decimal_shape(n as nat);
        lemma_ascii_utf8(buf@);
    }
    ascii_string(buf.as_slice())
}

/// One string after the other.
pub fn joined(a: &str, b: &str) -> (r: String)
    ensures
        r@ == a@ + b@,
{
    let mut out = a.to_string();
    out.append(b);
    out
}

/// The characters of a string.
pub fn chars_of(s: &str) -> (r: Vec<char>)
    ensures
        r@ == s@,
{
    let mut out: Vec<char> = Vec::new();
    for c in it: s.chars()
        invariant
            out@ == s@.take(it.index() as int),
            it.seq() == s@,
    {
        out.push(c);
    }
    assert(s@.take(s@.len() as int) =~= s@);
    out
}

/// The first position at or after `from` that holds `c`, or the end.
pub open spec fn char_index(s: Seq<char>, from: int, c: char) -> int
    decreases s.len() - from,
{
    if from < 0 || from >= s.len() || s[from] == c {
        from
    } else {
        char_index(s, from + 1, c)
    }
}

/// The position that is found lies within the text exactly if the character
/// occurs.
pub proof fn lemma_char_index(s: Seq<char>, from: int, c: char)
    requires
        0 <= from <= s.len(),
    ensures
        from <= char_index(s, from, c) <= s.len(),
        char_index(s, from, c) < s.len() <==> exists|i: int| from <= i < s.len() && s[i] == c,
    decreases s.len() - from,
{
    if from < s.len() && s[from] != c {
        lemma_char_index(s, from + 1, c);
    }
}

/// Finds the first position at or after `from` that holds `c`, or the end.
pub fn find_char(s: &[char], from: usize, c: char) -> (r: usize)
    requires
        from <= s.len(),
    ensures
        r == char_index(s@, from as int, c),
        from <= r <= s.len(),
        r < s.len() ==> s@[r as int] == c,
{
    let mut i: usize = from;
    while i < s.len() && s[i] != c
        invariant
            from <= i <= s.len(),
            char_index(s@, from as int, c) == char_index(s@, i as int, c),
        decreases s.len() - i,
    {
        i += 1;
    }
    i
}

/// Text with each lower-case ASCII letter in upper case.
pub open spec fn ascii_upper(s: Seq<char>) -> Seq<char> {
    Seq::new(
        s.len(),
        |i: int|
            if 'a' <= s[i] <= 'z' {
                (s[i] as u8 - 32) as char
            } else {
                s[i]
            },
    )
}

/// What `str::to_uppercase` makes of a text.
pub uninterp spec fn upper_text(s: Seq<char>) -> Seq<char>;

/// `str::to_uppercase`: on ASCII text the lower-case letters are exchanged
/// for their upper-case forms; on other text the result is left to the name
/// `upper_text`.
#[verifier::external_body]
pub(crate) fn to_upper(s: &str) -> (r: String)
    ensures
        vstd::utf8::is_ascii_chars(s@) ==> r@ == ascii_upper(s@),
        !vstd::utf8::is_ascii_chars(s@) ==> r@ == upper_text(s@),
{
    s.to_uppercase()
}

/// The upper-case form of a text.
pub open spec fn uppercased(s: Seq<char>) -> Seq<char> {
    if vstd::utf8::is_ascii_chars(s) {
        ascii_upper(s)
    } else {
        upper_text(s)
    }
}

/// Text with each upper-case ASCII letter in lower case.
pub open spec fn ascii_lower(s: Seq<char>) -> Seq<char> {
    Seq::new(
        s.len(),
        |i: int|
            if 'A' <= s[i] <= 'Z' {
                (s[i] as u8 + 32) as char
            } else {
                s[i]
            },
    )
}

/// What `str::to_lowercase` makes of a text.
pub uninterp spec fn lower_text(s: Seq<char>) -> Seq<char>;

/// `str::to_lowercase`: on ASCII text the upper-case letters are exchanged
/// for their lower-case forms; on other text the result is left to the name
/// `lower_text`.
#[verifier::external_body]
pub(crate) fn to_lower(s: &str) -> (r: String)
    ensures
        vstd::utf8::is_ascii_chars(s@) ==> r@ == ascii_lower(s@),
        !vstd::utf8::is_ascii_chars(s@) ==> r@ == lower_text(s@),
{
    s.to_lowercase()
}

/// The lower-case form of a text.
pub open spec fn lowercased(s: Seq<char>) -> Seq<char> {
    if vstd::utf8::is_ascii_chars(s) {
        ascii_lower(s)
    } else {
        lower_text(s)
    }
}

/// Compares two strings for equality.
pub fn str_equal(a: &str, b: &str) -> (r: bool)
    ensures
        r == (a@ == b@),
{
    let same = bytes_equal(a.as_bytes(), b.as_bytes());
    proof {
        if same {
            lemma_encode_injective(a@, b@);
        }
    }
    same
}

/// The string that ASCII bytes stand for.
pub fn ascii_string(b: &[u8]) -> (r: String)
    requires
        is_ascii_bytes(b@),
    ensures
        r@ == ascii_chars(b@),
{
    proof {
        lemma_ascii_utf8(b@);
    }
    match core::str::from_utf8(b) {
        Ok(s) => s.to_string(),
        Err(_) => String::new(),
    }
}

} // verus!
