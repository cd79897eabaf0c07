//! The lexical layer: what the notation's tokens are, stated over bytes, and
//! the outside routines that turn digit runs and code units into values.
use vstd::prelude::*;

verus! {

/// Insignificant whitespace: space, tab, line feed, carriage return.
pub open spec fn is_ws(b: u8) -> bool {
    b == 32 || b == 9 || b == 10 || b == 13
}

pub open spec fn is_digit(b: u8) -> bool {
    48 <= b <= 57
}

pub open spec fn is_ident_start(b: u8) -> bool {
    (65 <= b <= 90) || (97 <= b <= 122) || b == 95
}

pub open spec fn is_ident_char(b: u8) -> bool {
    is_ident_start(b) || is_digit(b)
}

pub open spec fn is_hex(b: u8) -> bool {
    is_digit(b) || (65 <= b <= 70) || (97 <= b <= 102)
}

pub open spec fn hex_val(b: u8) -> nat {
    if is_digit(b) {
        (b - 48) as nat
    } else if 65 <= b <= 70 {
        (b - 55) as nat
    } else {
        (b - 87) as nat
    }
}

/// The first index at or after `i` that does not hold whitespace.
pub open spec fn ws_end(s: Seq<u8>, i: int) -> int
    decreases s.len() - i,
{
    if 0 <= i < s.len() && is_ws(s[i]) {
        ws_end(s, i + 1)
    } else {
        i
    }
}

/// Skipping whitespace twice is skipping it once.
pub broadcast proof fn lemma_ws_end_idem(s: Seq<u8>, i: int)
    ensures
        #[trigger] ws_end(s, ws_end(s, i)) == ws_end(s, i),
    decreases s.len() - i,
{
    if 0 <= i < s.len() && is_ws(s[i]) {
        lemma_ws_end_idem(s, i + 1);
    }
}

/// Skipping whitespace moves forward and stays within the input.
pub broadcast proof fn lemma_ws_end_bounds(s: Seq<u8>, i: int)
    ensures
        i <= #[trigger] ws_end(s, i),
        0 <= i <= s.len() ==> ws_end(s, i) <= s.len(),
    decreases s.len() - i,
{
    if 0 <= i < s.len() && is_ws(s[i]) {
        lemma_ws_end_bounds(s, i + 1);
    }
}

/// A run of digits lies within the input.
pub broadcast proof fn lemma_digit_end_bounds(s: Seq<u8>, i: int)
    ensures
        i <= #[trigger] digit_end(s, i),
        0 <= i <= s.len() ==> digit_end(s, i) <= s.len(),
    decreases s.len() - i,
{
    if 0 <= i < s.len() && is_digit(s[i]) {
        lemma_digit_end_bounds(s, i + 1);
    }
}

/// A run of identifier characters lies within the input.
pub broadcast proof fn lemma_ident_end_bounds(s: Seq<u8>, i: int)
    ensures
        i <= #[trigger] ident_end(s, i),
        0 <= i <= s.len() ==> ident_end(s, i) <= s.len(),
    decreases s.len() - i,
{
    if 0 <= i < s.len() && is_ident_char(s[i]) {
        lemma_ident_end_bounds(s, i + 1);
    }
}

/// A run of `\uXXXX` escapes lies within the input.
pub proof fn lemma_unit_run_bounds(s: Seq<u8>, i: int)
    requires
        0 <= i <= s.len(),
    ensures
        i <= unit_run(s, i).1 <= s.len(),
    decreases s.len() - i,
{
    if unit_escape_at(s, i) {
        lemma_unit_run_bounds(s, i + 6);
    }
}

pub broadcast group group_ws {
    lemma_ws_end_idem,
    lemma_ws_end_bounds,
    lemma_digit_end_bounds,
    lemma_ident_end_bounds,
}

/// The end of the run of decimal digits that starts at `i`.
pub open spec fn digit_end(s: Seq<u8>, i: int) -> int
    decreases s.len() - i,
{
    if 0 <= i < s.len() && is_digit(s[i]) {
        digit_end(s, i + 1)
    } else {
        i
    }
}

/// The end of the run of identifier characters that starts at `i`.
pub open spec fn ident_end(s: Seq<u8>, i: int) -> int
    decreases s.len() - i,
{
    if 0 <= i < s.len() && is_ident_char(s[i]) {
        ident_end(s, i + 1)
    } else {
        i
    }
}

/// The number that the decimal digits `s[i..j]` spell.
pub open spec fn digits_value(s: Seq<u8>, i: int, j: int) -> nat
    decreases j - i,
{
    if j <= i {
        0
    } else {
        digits_value(s, i, j - 1) * 10 + (s[j - 1] - 48) as nat
    }
}

/// `lit` stands in `s` at index `i`.
pub open spec fn lit_at(s: Seq<u8>, i: int, lit: Seq<u8>) -> bool {
    0 <= i && i + lit.len() <= s.len() && s.subrange(i, i + lit.len()) == lit
}

/// The index after an optional comma at `i`, with the whitespace around it.
pub open spec fn after_comma(s: Seq<u8>, i: int) -> int {
    let n = ws_end(s, i);
    if 0 <= n < s.len() && s[n] == 44 {
        ws_end(s, n + 1)
    } else {
        n
    }
}

/// The index after an optional `name` at `i` (whitespace skipped first).
pub open spec fn after_name(s: Seq<u8>, i: int, name: Seq<u8>) -> int {
    let n = ws_end(s, i);
    if lit_at(s, n, name) {
        n + name.len()
    } else {
        n
    }
}

/// The index after the token `lit` at `i` (whitespace skipped first), if it
/// stands there.
pub open spec fn token_end(s: Seq<u8>, i: int, lit: Seq<u8>) -> Option<int> {
    let n = ws_end(s, i);
    if lit_at(s, n, lit) {
        Some(n + lit.len())
    } else {
        None
    }
}

/// The significant byte at or after `i` is `b`.
pub open spec fn sig_is(s: Seq<u8>, i: int, b: u8) -> bool {
    let n = ws_end(s, i);
    0 <= n < s.len() && s[n] == b
}

/// What a recognised two-character escape `\c` stands for.
pub open spec fn escape_of(c: u8) -> Option<u8> {
    if c == 92 || c == 47 || c == 34 {
        Some(c)
    } else if c == 98 {
        Some(8u8)
    } else if c == 102 {
        Some(12u8)
    } else if c == 110 {
        Some(10u8)
    } else if c == 114 {
        Some(13u8)
    } else if c == 116 {
        Some(9u8)
    } else {
        None
    }
}

/// What the escape `\c` stands for inside a character literal.
pub open spec fn char_escape_of(c: u8) -> Option<u8> {
    if c == 39 {
        Some(39u8)
    } else {
        escape_of(c)
    }
}

/// The character literal at `n`: a quote, one ASCII character or one escape,
/// a quote. Gives the character's byte and the index after the literal.
pub open spec fn char_lit(s: Seq<u8>, n: int) -> core::result::Result<(u8, int), crate::error::Error> {
    if !(0 <= n && n + 1 < s.len() && s[n] == 39) {
        Err(crate::error::Error::ExpectedChar)
    } else if s[n + 1] == 92 {
        if n + 2 < s.len() && char_escape_of(s[n + 2]) is Some {
            if n + 3 < s.len() && s[n + 3] == 39 {
                Ok((char_escape_of(s[n + 2])->0, n + 4))
            } else {
                Err(crate::error::Error::ExpectedChar)
            }
        } else {
            Err(crate::error::Error::InvalidEscape)
        }
    } else if s[n + 1] < 128 && s[n + 1] != 39 && n + 2 < s.len() && s[n + 2] == 39 {
        Ok((s[n + 1], n + 3))
    } else {
        Err(crate::error::Error::ExpectedChar)
    }
}

/// The direct body of a string literal from index `i`: the bytes it stands
/// for and the index of the closing quote, or `None` where the body is broken
/// (an unknown escape, or no closing quote).
pub open spec fn direct_body(s: Seq<u8>, i: int) -> Option<(Seq<u8>, int)>
    decreases s.len() - i,
{
    if i < 0 || i >= s.len() {
        None
    } else if s[i] == 34 {
        Some((Seq::empty(), i))
    } else if s[i] == 92 {
        if i + 1 < s.len() && escape_of(s[i + 1]) is Some {
            match direct_body(s, i + 2) {
                Some((t, e)) => Some((seq![escape_of(s[i + 1])->0] + t, e)),
                None => None,
            }
        } else {
            None
        }
    } else {
        match direct_body(s, i + 1) {
            Some((t, e)) => Some((seq![s[i]] + t, e)),
            None => None,
        }
    }
}

/// A `\uXXXX` escape stands at index `i`.
pub open spec fn unit_escape_at(s: Seq<u8>, i: int) -> bool {
    0 <= i && i + 6 <= s.len() && s[i] == 92 && s[i + 1] == 117 && is_hex(s[i + 2]) && is_hex(
        s[i + 3],
    ) && is_hex(s[i + 4]) && is_hex(s[i + 5])
}

/// The code unit that the escape at `i` spells.
pub open spec fn unit_at(s: Seq<u8>, i: int) -> nat {
    hex_val(s[i + 2]) * 4096 + hex_val(s[i + 3]) * 256 + hex_val(s[i + 4]) * 16 + hex_val(
        s[i + 5],
    )
}

/// The maximal run of `\uXXXX` escapes from `i`: its code units and its end.
pub open spec fn unit_run(s: Seq<u8>, i: int) -> (Seq<u16>, int)
    decreases s.len() - i,
{
    if unit_escape_at(s, i) {
        let (t, e) = unit_run(s, i + 6);
        (seq![unit_at(s, i) as u16] + t, e)
    } else {
        (Seq::empty(), i)
    }
}

/// `r` with the bytes `a` put before its text.
pub open spec fn prefixed(a: Seq<u8>, r: Option<(Seq<u8>, int)>) -> Option<(Seq<u8>, int)> {
    match r {
        Some((t, e)) => Some((a + t, e)),
        None => None,
    }
}

/// The string literal at `n`: its text and the index after its closing
/// quote. The body is either a run of `\uXXXX` escapes, read as UTF-16, or
/// a direct body, which must be valid UTF-8 once its escapes are replaced.
pub open spec fn string_lit(s: Seq<u8>, n: int) -> Option<(Seq<char>, int)> {
    if !(0 <= n < s.len() && s[n] == 34) {
        None
    } else if n + 2 < s.len() && s[n + 1] == 92 && s[n + 2] == 117 {
        let (u, e) = unit_run(s, n + 1);
        if 0 <= e < s.len() && s[e] == 34 {
            Some((utf16_lossy(u), e + 1))
        } else {
            None
        }
    } else {
        match direct_body(s, n + 1) {
            Some((b, e)) => match utf8_decode(b) {
                Some(t) => Some((t, e + 1)),
                None => None,
            },
            None => None,
        }
    }
}

/// The text that a byte sequence holds, where it is valid UTF-8.
pub uninterp spec fn utf8_decode(b: Seq<u8>) -> Option<Seq<char>>;

/// The text that a run of UTF-16 code units holds, each unpaired surrogate
/// replaced by U+FFFD.
pub uninterp spec fn utf16_lossy(units: Seq<u16>) -> Seq<char>;

/// Relies on `String::from_utf8`: it succeeds exactly on valid UTF-8 and then
/// holds the text those bytes encode.
#[verifier::external_body]
pub(crate) fn text_from_utf8(b: Vec<u8>) -> (r: Option<String>)
    ensures
        r is Some <==> utf8_decode(b@) is Some,
        r is Some ==> r->0@ == utf8_decode(b@)->0,
{
    String::from_utf8(b).ok()
}

/// Relies on `char::decode_utf16`, with each error mapped to
/// `char::REPLACEMENT_CHARACTER`.
#[verifier::external_body]
pub(crate) fn text_from_utf16(units: &Vec<u16>) -> (r: String)
    ensures
        r@ == utf16_lossy(units@),
{
    char::decode_utf16(units.iter().cloned()).map(|c| c.unwrap_or(char::REPLACEMENT_CHARACTER)).collect()
}

/// Relies on `parse::u64` on the bytes from `pos`: it reads the whole run of
/// digits there, fails on an empty run or one above `u64::MAX`, and leaves the
/// bytes after the run. Gives the value and the number of bytes left.
#[verifier::external_body]
pub(crate) fn lex_u64(b: &Vec<u8>, pos: usize) -> (r: Option<(u64, usize)>)
    requires
        pos <= b@.len(),
    ensures
        r is Some <==> (digit_end(b@, pos as int) > pos && digits_value(
            b@,
            pos as int,
            digit_end(b@, pos as int),
        ) <= u64::MAX),
        r is Some ==> r == Some(
            (
                digits_value(b@, pos as int, digit_end(b@, pos as int)) as u64,
                (b@.len() - digit_end(b@, pos as int)) as usize,
            ),
        ),
{
    let mut src: &[u8] = &b[pos..];
    match parse::u64(&mut src) {
        Ok(v) => Some((v, src.len())),
        Err(_) => None,
    }
}

/// Length of an optional leading sign at `i`.
pub open spec fn sign_len(s: Seq<u8>, i: int) -> int {
    if 0 <= i < s.len() && (s[i] == 43 || s[i] == 45) {
        1
    } else {
        0
    }
}

/// Where the digits of a signed literal at `i` start.
pub open spec fn signed_digits(s: Seq<u8>, i: int) -> int {
    i + sign_len(s, i)
}

/// The value of the signed integer literal at `i`.
pub open spec fn signed_value(s: Seq<u8>, i: int) -> int {
    let d = signed_digits(s, i);
    let m = digits_value(s, d, digit_end(s, d)) as int;
    if sign_len(s, i) == 1 && s[i] == 45 {
        -m
    } else {
        m
    }
}

/// A signed integer literal stands at `i`: an optional sign and a non-empty
/// run of digits whose value fits in `i64`.
pub open spec fn signed_ok(s: Seq<u8>, i: int) -> bool {
    let d = signed_digits(s, i);
    digit_end(s, d) > d && i64::MIN <= signed_value(s, i) <= i64::MAX
}

} // verus!

verus! {

/// The text of a byte sequence, each invalid UTF-8 sequence replaced by
/// U+FFFD.
pub uninterp spec fn utf8_lossy(b: Seq<u8>) -> Seq<char>;

/// Relies on `String::from_utf8_lossy`.
#[verifier::external_body]
pub(crate) fn text_from_utf8_lossy(b: &Vec<u8>) -> (r: String)
    ensures
        r@ == utf8_lossy(b@),
{
    String::from_utf8_lossy(b).into_owned()
}

pub open spec fn pow10(n: nat) -> nat
    decreases n,
{
    if n == 0 {
        1
    } else {
        10 * pow10((n - 1) as nat)
    }
}

/// The numeric literal at `n`, in billionths, with the index after it: an
/// optional sign, a run of digits whose value fits in `u64`, and optionally a
/// point followed by one to nine digits.
pub open spec fn number_lit(s: Seq<u8>, n: int) -> Option<(int, int)> {
    let d = n + sign_len(s, n);
    let e = digit_end(s, d);
    let neg = sign_len(s, n) == 1 && s[n] == 45;
    let whole = digits_value(s, d, e) as int;
    if !(e > d && whole <= u64::MAX) {
        None
    } else if 0 <= e < s.len() && s[e] == 46 {
        let f = digit_end(s, e + 1);
        let k = f - (e + 1);
        if 1 <= k <= 9 {
            let m = whole * 1_000_000_000 + (digits_value(s, e + 1, f) * pow10((9 - k) as nat)) as int;
            Some((if neg { -m } else { m }, f))
        } else {
            None
        }
    } else {
        let m = whole * 1_000_000_000;
        Some((if neg { -m } else { m }, e))
    }
}

pub proof fn lemma_pow10_mono(a: nat, b: nat)
    requires
        a <= b,
    ensures
        pow10(a) <= pow10(b),
        pow10(a) >= 1,
    decreases b,
{
    if b > a {
        lemma_pow10_mono(a, (b - 1) as nat);
    } else if a > 0 {
        lemma_pow10_mono((a - 1) as nat, (a - 1) as nat);
    }
}

pub proof fn lemma_pow10_9()
    ensures
        pow10(9) == 1_000_000_000,
{
    reveal_with_fuel(pow10, 10);
}

} // verus!
