//! The decoding session: a cursor over an input buffer, the scanner
//! primitives that read one token, and one step per structural shape.
use vstd::prelude::*;
use vstd::string::StringSliceAdditionalSpecFns;

use crate::error::{Error, Result};
use crate::value::{Number, SCALE};
use crate::scan::{
    after_comma, after_name, char_lit, digit_end, digits_value, direct_body, hex_val, ident_end,
    is_hex, is_ident_start, lemma_pow10_mono, lemma_unit_run_bounds, lex_u64, lit_at, number_lit,
    pow10, prefixed, sig_is, sign_len, signed_digits, signed_ok, signed_value, string_lit,
    text_from_utf16, text_from_utf8, text_from_utf8_lossy, token_end, unit_escape_at, unit_run,
    utf8_lossy, ws_end,
};

verus! {

broadcast use crate::scan::group_ws;

/// One decode run over one complete input buffer.
pub struct Deserializer {
    bytes: Vec<u8>,
    pos: usize,
}

impl Deserializer {
    /// The whole input of the session.
    pub closed spec fn input(&self) -> Seq<u8> {
        self.bytes@
    }

    /// The index of the next unread byte.
    pub closed spec fn cursor(&self) -> int {
        self.pos as int
    }

    pub open spec fn wf(&self) -> bool {
        0 <= self.cursor() <= self.input().len()
    }

    /// The cursor once insignificant whitespace is skipped.
    pub open spec fn next_sig(&self) -> int {
        ws_end(self.input(), self.cursor())
    }

    /// The input is unchanged and the cursor now stands at `p`.
    pub open spec fn moved(&self, before: &Deserializer, p: int) -> bool {
        &&& self.input() == before.input()
        &&& self.cursor() == p
        &&& self.wf()
    }

    /// A session over the bytes of `input`.
    pub fn from_str(input: &str) -> (r: Deserializer)
        ensures
            r.input() == input.spec_bytes(),
            r.cursor() == 0,
            r.wf(),
    {
        Deserializer { bytes: vstd::slice::slice_to_vec(input.as_bytes()), pos: 0 }
    }

    /// A session over `input`.
    pub fn from_bytes(input: &[u8]) -> (r: Deserializer)
        ensures
            r.input() == input@,
            r.cursor() == 0,
            r.wf(),
    {
        Deserializer { bytes: vstd::slice::slice_to_vec(input), pos: 0 }
    }

    /// The unread bytes, copied.
    pub fn remainder_bytes(&self) -> (r: Vec<u8>)
        requires
            self.wf(),
        ensures
            r@ == self.input().subrange(self.cursor(), self.input().len() as int),
    {
        let mut r: Vec<u8> = Vec::new();
        let mut i: usize = self.pos;
        while i < self.bytes.len()
            invariant
                self.pos <= i <= self.bytes@.len(),
                r@ == self.bytes@.subrange(self.pos as int, i as int),
            decreases self.bytes@.len() - i,
        {
            r.push(self.bytes[i]);
            i = i + 1;
            assert(r@ =~= self.bytes@.subrange(self.pos as int, i as int));
        }
        r
    }

    /// The unread input as text, each invalid UTF-8 sequence replaced by
    /// U+FFFD.
    pub fn remainder(&self) -> (r: String)
        requires
            self.wf(),
        ensures
            r@ == utf8_lossy(self.input().subrange(self.cursor(), self.input().len() as int)),
    {
        let rest = self.remainder_bytes();
        text_from_utf8_lossy(&rest)
    }

    /// The byte under the cursor, if any.
    pub fn peek(&self) -> (r: Option<u8>)
        requires
            self.wf(),
        ensures
            r == (if self.cursor() < self.input().len() {
                Some(self.input()[self.cursor()])
            } else {
                None
            }),
    {
        if self.pos < self.bytes.len() {
            Some(self.bytes[self.pos])
        } else {
            None
        }
    }

    /// Moves the cursor past insignificant whitespace.
    pub fn skip_ws(&mut self)
        requires
            old(self).wf(),
        ensures
            final(self).moved(old(self), old(self).next_sig()),
    {
        while self.pos < self.bytes.len() && (self.bytes[self.pos] == 32 || self.bytes[self.pos]
            == 9 || self.bytes[self.pos] == 10 || self.bytes[self.pos] == 13)
            invariant
                self.wf(),
                self.bytes@ == old(self).bytes@,
                ws_end(self.bytes@, self.pos as int) == ws_end(old(self).bytes@, old(self).pos as int),
            decreases self.bytes@.len() - self.pos,
        {
            self.pos = self.pos + 1;
        }
    }

    /// Skips whitespace, then consumes `lit` where it stands there.
    pub fn consume(&mut self, lit: &str) -> (r: bool)
        requires
            old(self).wf(),
        ensures
            r == lit_at(old(self).input(), old(self).next_sig(), lit.spec_bytes()),
            final(self).moved(
                old(self),
                if r {
                    old(self).next_sig() + lit.spec_bytes().len()
                } else {
                    old(self).next_sig()
                },
            ),
    {
        self.skip_ws();
        let lb = lit.as_bytes();
        if lb.len() > self.bytes.len() - self.pos {
            return false;
        }
        let n: usize = self.bytes.len();
        let mut k: usize = 0;
        while k < lb.len()
            invariant
                n == self.bytes@.len(),
                self.moved(old(self), old(self).next_sig()),
                lb@ == lit.spec_bytes(),
                self.pos + lb@.len() <= self.bytes@.len(),
                k <= lb@.len(),
                forall|j: int| 0 <= j < k ==> self.bytes@[self.pos + j] == lb@[j],
            decreases lb@.len() - k,
        {
            if self.bytes[self.pos + k] != lb[k] {
                assert(self.bytes@.subrange(self.pos as int, self.pos + lb@.len())[k as int]
                    != lb@[k as int]);
                return false;
            }
            k = k + 1;
        }
        assert(self.bytes@.subrange(self.pos as int, self.pos + lb@.len()) =~= lb@);
        self.pos = self.pos + lb.len();
        true
    }

    /// Skips whitespace, then consumes the byte `b` where it stands there.
    pub fn consume_byte(&mut self, b: u8) -> (r: bool)
        requires
            old(self).wf(),
        ensures
            r == (old(self).next_sig() < old(self).input().len() && old(self).input()[old(self).next_sig()] == b),
            final(self).moved(
                old(self),
                if r {
                    old(self).next_sig() + 1
                } else {
                    old(self).next_sig()
                },
            ),
    {
        self.skip_ws();
        if self.pos < self.bytes.len() && self.bytes[self.pos] == b {
            self.pos = self.pos + 1;
            true
        } else {
            false
        }
    }

    /// Consumes a comma, with the whitespace around it, where one stands
    /// next; otherwise only skips whitespace.
    pub fn comma(&mut self) -> (r: bool)
        requires
            old(self).wf(),
        ensures
            r == (old(self).next_sig() < old(self).input().len() && old(self).input()[old(self).next_sig()] == 44),
            final(self).moved(
                old(self),
                if r {
                    ws_end(old(self).input(), old(self).next_sig() + 1)
                } else {
                    old(self).next_sig()
                },
            ),
    {
        let r = self.consume_byte(44);
        if r {
            self.skip_ws();
        }
        r
    }

    /// Checks that only whitespace is left.
    pub fn end(&mut self) -> (r: Result<()>)
        requires
            old(self).wf(),
        ensures
            final(self).moved(old(self), old(self).next_sig()),
            r == (if old(self).next_sig() == old(self).input().len() {
                Ok::<(), Error>(())
            } else {
                Err(Error::TrailingCharacters)
            }),
    {
        self.skip_ws();
        if self.pos == self.bytes.len() {
            Ok(())
        } else {
            Err(Error::TrailingCharacters)
        }
    }
}

/// The outcome of expecting the token `lit` at `i`: `Ok` where it stands
/// there, `err` otherwise.
pub open spec fn expected_lit(s: Seq<u8>, i: int, lit: Seq<u8>, err: Error) -> Result<()> {
    if token_end(s, i, lit) is Some {
        Ok(())
    } else {
        Err(err)
    }
}

/// Where the cursor stands after expecting `lit` at `i`.
pub open spec fn expected_lit_pos(s: Seq<u8>, i: int, lit: Seq<u8>) -> int {
    match token_end(s, i, lit) {
        Some(p) => p,
        None => ws_end(s, i),
    }
}

/// The outcome of expecting the delimiter byte `b` at `i`: `Ok` where it is
/// the next significant byte, `err` otherwise.
pub open spec fn expected(s: Seq<u8>, i: int, b: u8, err: Error) -> Result<()> {
    if sig_is(s, i, b) {
        Ok(())
    } else {
        Err(err)
    }
}

/// Where the cursor stands after expecting the delimiter `b` at `i`.
pub open spec fn expected_pos(s: Seq<u8>, i: int, b: u8) -> int {
    if sig_is(s, i, b) {
        ws_end(s, i) + 1
    } else {
        ws_end(s, i)
    }
}

impl Deserializer {
    /// Consumes the delimiter byte `b`, or fails with `err`.
    pub fn expect_byte(&mut self, b: u8, err: Error) -> (r: Result<()>)
        requires
            old(self).wf(),
        ensures
            r == expected(old(self).input(), old(self).cursor(), b, err),
            final(self).moved(old(self), expected_pos(old(self).input(), old(self).cursor(), b)),
    {
        if self.consume_byte(b) {
            Ok(())
        } else {
            Err(err)
        }
    }

    /// Consumes the token `lit`, or fails with `err`.
    pub fn expect(&mut self, lit: &str, err: Error) -> (r: Result<()>)
        requires
            old(self).wf(),
        ensures
            r == expected_lit(old(self).input(), old(self).cursor(), lit.spec_bytes(), err),
            final(self).moved(
                old(self),
                expected_lit_pos(old(self).input(), old(self).cursor(), lit.spec_bytes()),
            ),
    {
        if self.consume(lit) {
            Ok(())
        } else {
            Err(err)
        }
    }

    /// Starts an option: `Ok(true)` after `Some(`, `Ok(false)` after `None`.
    pub fn option_start(&mut self) -> (r: Result<bool>)
        requires
            old(self).wf(),
        ensures
            ({
                let s = old(self).input();
                let c = old(self).cursor();
                match token_end(s, c, "Some(".spec_bytes()) {
                    Some(p) => r == Ok::<bool, Error>(true) && final(self).moved(old(self), p),
                    None => match token_end(s, c, "None".spec_bytes()) {
                        Some(p) => r == Ok::<bool, Error>(false) && final(self).moved(
                            old(self),
                            p,
                        ),
                        None => r == Err::<bool, Error>(Error::ExpectedOption) && final(self).moved(old(self), ws_end(s, c)),
                    },
                }
            }),
    {
        if self.consume("Some(") {
            Ok(true)
        } else if self.consume("None") {
            Ok(false)
        } else {
            Err(Error::ExpectedOption)
        }
    }

    /// Closes a present option.
    pub fn option_end(&mut self) -> (r: Result<()>)
        requires
            old(self).wf(),
        ensures
            r == expected(old(self).input(), old(self).cursor(), 41, Error::ExpectedOptionEnd),
            final(self).moved(old(self), expected_pos(old(self).input(), old(self).cursor(), 41)),
    {
        self.expect_byte(41, Error::ExpectedOptionEnd)
    }

    /// The unit value `()`.
    pub fn unit(&mut self) -> (r: Result<()>)
        requires
            old(self).wf(),
        ensures
            r == expected_lit(old(self).input(), old(self).cursor(), "()".spec_bytes(), Error::ExpectedUnit),
            final(self).moved(
                old(self),
                expected_lit_pos(old(self).input(), old(self).cursor(), "()".spec_bytes()),
            ),
    {
        self.expect("()", Error::ExpectedUnit)
    }

    /// A named unit value: its bare name, or `()`.
    pub fn unit_struct(&mut self, name: &str) -> (r: Result<()>)
        requires
            old(self).wf(),
        ensures
            ({
                let s = old(self).input();
                let c = old(self).cursor();
                match token_end(s, c, name.spec_bytes()) {
                    Some(p) => r == Ok::<(), Error>(()) && final(self).moved(old(self), p),
                    None => r == expected_lit(s, ws_end(s, c), "()".spec_bytes(), Error::ExpectedUnit)
                        && final(self).moved(
                        old(self),
                        expected_lit_pos(s, ws_end(s, c), "()".spec_bytes()),
                    ),
                }
            }),
    {
        if self.consume(name) {
            Ok(())
        } else {
            self.unit()
        }
    }

    /// Consumes an optional type name, then the opening `open` of a
    /// construct, or fails with `err`.
    fn named_open(&mut self, name: &str, open: u8, err: Error) -> (r: Result<()>)
        requires
            old(self).wf(),
        ensures
            ({
                let s = old(self).input();
                let p = after_name(s, old(self).cursor(), name.spec_bytes());
                &&& r == expected(s, p, open, err)
                &&& final(self).moved(old(self), expected_pos(s, p, open))
            }),
    {
        self.consume(name);
        self.expect_byte(open, err)
    }

    /// Consumes an optional trailing comma, then the closing `close` of a
    /// construct, or fails with `err`.
    fn close(&mut self, close: u8, err: Error) -> (r: Result<()>)
        requires
            old(self).wf(),
        ensures
            ({
                let s = old(self).input();
                let p = after_comma(s, old(self).cursor());
                &&& r == expected(s, p, close, err)
                &&& final(self).moved(old(self), expected_pos(s, p, close))
            }),
    {
        self.comma();
        self.expect_byte(close, err)
    }

    /// Opens a single-field wrapper: an optional type name, then `(`.
    pub fn newtype_start(&mut self, name: &str) -> (r: Result<()>)
        requires
            old(self).wf(),
        ensures
            ({
                let s = old(self).input();
                let p = after_name(s, old(self).cursor(), name.spec_bytes());
                &&& r == expected(s, p, 40u8, Error::ExpectedStruct)
                &&& final(self).moved(old(self), expected_pos(s, p, 40u8))
            }),
    {
        self.named_open(name, 40, Error::ExpectedStruct)
    }

    /// Closes a single-field wrapper or a record: optional comma, then `)`.
    pub fn struct_end(&mut self) -> (r: Result<()>)
        requires
            old(self).wf(),
        ensures
            ({
                let s = old(self).input();
                let p = after_comma(s, old(self).cursor());
                &&& r == expected(s, p, 41u8, Error::ExpectedStructEnd)
                &&& final(self).moved(old(self), expected_pos(s, p, 41u8))
            }),
    {
        self.close(41, Error::ExpectedStructEnd)
    }

    /// Opens a record with fields: an optional type name, then `(`.
    pub fn struct_start(&mut self, name: &str) -> (r: Result<()>)
        requires
            old(self).wf(),
        ensures
            ({
                let s = old(self).input();
                let p = after_name(s, old(self).cursor(), name.spec_bytes());
                &&& r == expected(s, p, 40u8, Error::ExpectedStruct)
                &&& final(self).moved(old(self), expected_pos(s, p, 40u8))
            }),
    {
        self.named_open(name, 40, Error::ExpectedStruct)
    }

    /// Opens a sequence: `[`.
    pub fn seq_start(&mut self) -> (r: Result<()>)
        requires
            old(self).wf(),
        ensures
            r == expected(old(self).input(), old(self).cursor(), 91u8, Error::ExpectedArray),
            final(self).moved(
                old(self),
                expected_pos(old(self).input(), old(self).cursor(), 91u8),
            ),
    {
        self.expect_byte(91, Error::ExpectedArray)
    }

    /// Closes a sequence: optional comma, then `]`.
    pub fn seq_end(&mut self) -> (r: Result<()>)
        requires
            old(self).wf(),
        ensures
            ({
                let s = old(self).input();
                let p = after_comma(s, old(self).cursor());
                &&& r == expected(s, p, 93u8, Error::ExpectedArrayEnd)
                &&& final(self).moved(old(self), expected_pos(s, p, 93u8))
            }),
    {
        self.close(93, Error::ExpectedArrayEnd)
    }

    /// Opens a tuple, named or not: an optional type name, then `(`.
    pub fn tuple_start(&mut self, name: &str) -> (r: Result<()>)
        requires
            old(self).wf(),
        ensures
            ({
                let s = old(self).input();
                let p = after_name(s, old(self).cursor(), name.spec_bytes());
                &&& r == expected(s, p, 40u8, Error::ExpectedArray)
                &&& final(self).moved(old(self), expected_pos(s, p, 40u8))
            }),
    {
        self.named_open(name, 40, Error::ExpectedArray)
    }

    /// Closes a tuple: optional comma, then `)`.
    pub fn tuple_end(&mut self) -> (r: Result<()>)
        requires
            old(self).wf(),
        ensures
            ({
                let s = old(self).input();
                let p = after_comma(s, old(self).cursor());
                &&& r == expected(s, p, 41u8, Error::ExpectedArrayEnd)
                &&& final(self).moved(old(self), expected_pos(s, p, 41u8))
            }),
    {
        self.close(41, Error::ExpectedArrayEnd)
    }

    /// Opens a map: `{`.
    pub fn map_start(&mut self) -> (r: Result<()>)
        requires
            old(self).wf(),
        ensures
            r == expected(old(self).input(), old(self).cursor(), 123u8, Error::ExpectedMap),
            final(self).moved(
                old(self),
                expected_pos(old(self).input(), old(self).cursor(), 123u8),
            ),
    {
        self.expect_byte(123, Error::ExpectedMap)
    }

    /// Closes a map: optional comma, then `}`.
    pub fn map_end(&mut self) -> (r: Result<()>)
        requires
            old(self).wf(),
        ensures
            ({
                let s = old(self).input();
                let p = after_comma(s, old(self).cursor());
                &&& r == expected(s, p, 125u8, Error::ExpectedMapEnd)
                &&& final(self).moved(old(self), expected_pos(s, p, 125u8))
            }),
    {
        self.close(125, Error::ExpectedMapEnd)
    }
}

/// One step of a comma-separated run from `i` that ends before `term`:
/// whether another item follows, or the error, and where the cursor stands.
/// A comma is required before every item but the first; one may follow the
/// last.
pub open spec fn item_step(s: Seq<u8>, i: int, term: u8, first: bool, comma_err: Error) -> (
    Result<bool>,
    int,
) {
    let n = ws_end(s, i);
    if sig_is(s, i, term) {
        (Ok(false), n)
    } else if first {
        (Ok(true), n)
    } else if !sig_is(s, i, 44) {
        (Err(comma_err), n)
    } else {
        let m = ws_end(s, n + 1);
        if sig_is(s, m, term) {
            (Ok(false), m)
        } else {
            (Ok(true), m)
        }
    }
}

/// A trailing comma is tolerated: after an item, a run ends at its closing
/// byte whether or not a comma comes first. Either way the cursor then
/// stands on the closing byte, and closing the construct succeeds there.
pub proof fn lemma_trailing_comma(s: Seq<u8>, i: int, term: u8, comma_err: Error, end_err: Error)
    requires
        0 <= i <= s.len(),
        term != 44,
        sig_is(s, i, term) || (sig_is(s, i, 44) && sig_is(s, ws_end(s, i) + 1, term)),
    ensures
        ({
            let (r, p) = item_step(s, i, term, false, comma_err);
            &&& r == Ok::<bool, Error>(false)
            &&& 0 <= p < s.len() && s[p] == term
            &&& expected(s, after_comma(s, p), term, end_err) == Ok::<(), Error>(())
        }),
{
    let n = ws_end(s, i);
    if !sig_is(s, i, term) {
        let m = ws_end(s, n + 1);
        assert(ws_end(s, m) == m);
    }
}

/// Walks the items of a sequence, tuple, map or record up to its closing
/// byte.
pub struct CommaSeparated {
    pub terminator: u8,
    pub first: bool,
}

impl CommaSeparated {
    pub fn new(terminator: u8) -> (r: CommaSeparated)
        ensures
            r.terminator == terminator,
            r.first,
    {
        CommaSeparated { terminator, first: true }
    }

    fn step(&mut self, de: &mut Deserializer, comma_err: Error) -> (r: Result<bool>)
        requires
            old(de).wf(),
        ensures
            ({
                let (res, p) = item_step(
                    old(de).input(),
                    old(de).cursor(),
                    old(self).terminator,
                    old(self).first,
                    comma_err,
                );
                &&& r == res
                &&& final(de).moved(old(de), p)
                &&& final(self).terminator == old(self).terminator
                &&& final(self).first == (old(self).first && r != Ok::<bool, Error>(true))
            }),
    {
        de.skip_ws();
        if de.peek() == Some(self.terminator) {
            return Ok(false);
        }
        if !self.first {
            if !de.consume_byte(44) {
                return Err(comma_err);
            }
            de.skip_ws();
            if de.peek() == Some(self.terminator) {
                return Ok(false);
            }
        }
        self.first = false;
        Ok(true)
    }

    /// Whether another element of a sequence or tuple follows; the cursor
    /// then stands at it.
    pub fn next_element(&mut self, de: &mut Deserializer) -> (r: Result<bool>)
        requires
            old(de).wf(),
        ensures
            ({
                let (res, p) = item_step(
                    old(de).input(),
                    old(de).cursor(),
                    old(self).terminator,
                    old(self).first,
                    Error::ExpectedArrayComma,
                );
                &&& r == res
                &&& final(de).moved(old(de), p)
                &&& final(self).terminator == old(self).terminator
                &&& final(self).first == (old(self).first && r != Ok::<bool, Error>(true))
            }),
    {
        self.step(de, Error::ExpectedArrayComma)
    }

    /// Whether another entry of a map or record follows; the cursor then
    /// stands at its key.
    pub fn next_key(&mut self, de: &mut Deserializer) -> (r: Result<bool>)
        requires
            old(de).wf(),
        ensures
            ({
                let (res, p) = item_step(
                    old(de).input(),
                    old(de).cursor(),
                    old(self).terminator,
                    old(self).first,
                    Error::ExpectedMapComma,
                );
                &&& r == res
                &&& final(de).moved(old(de), p)
                &&& final(self).terminator == old(self).terminator
                &&& final(self).first == (old(self).first && r != Ok::<bool, Error>(true))
            }),
    {
        self.step(de, Error::ExpectedMapComma)
    }

    /// Consumes the colon between a key and its value, with the whitespace
    /// around it.
    pub fn next_value(&self, de: &mut Deserializer) -> (r: Result<()>)
        requires
            old(de).wf(),
        ensures
            ({
                let s = old(de).input();
                if sig_is(s, old(de).cursor(), 58) {
                    r == Ok::<(), Error>(()) && final(de).moved(
                        old(de),
                        ws_end(s, ws_end(s, old(de).cursor()) + 1),
                    )
                } else {
                    r == Err::<(), Error>(Error::ExpectedMapColon) && final(de).moved(
                        old(de),
                        ws_end(s, old(de).cursor()),
                    )
                }
            }),
    {
        if de.consume_byte(58) {
            de.skip_ws();
            Ok(())
        } else {
            Err(Error::ExpectedMapColon)
        }
    }
}

impl Deserializer {
    /// A boolean literal.
    pub fn parse_bool(&mut self) -> (r: Result<bool>)
        requires
            old(self).wf(),
        ensures
            ({
                let s = old(self).input();
                let c = old(self).cursor();
                match token_end(s, c, "true".spec_bytes()) {
                    Some(p) => r == Ok::<bool, Error>(true) && final(self).moved(old(self), p),
                    None => match token_end(s, c, "false".spec_bytes()) {
                        Some(p) => r == Ok::<bool, Error>(false) && final(self).moved(old(self), p),
                        None => r == Err::<bool, Error>(Error::ExpectedBoolean) && final(self).moved(
                            old(self),
                            ws_end(s, c),
                        ),
                    },
                }
            }),
    {
        if self.consume("true") {
            Ok(true)
        } else if self.consume("false") {
            Ok(false)
        } else {
            Err(Error::ExpectedBoolean)
        }
    }

    /// An unsigned integer literal: a run of digits whose value fits in
    /// `u64`.
    pub fn parse_unsigned(&mut self) -> (r: Result<u64>)
        requires
            old(self).wf(),
        ensures
            ({
                let s = old(self).input();
                let n = old(self).next_sig();
                let e = digit_end(s, n);
                if e > n && digits_value(s, n, e) <= u64::MAX {
                    r == Ok::<u64, Error>(digits_value(s, n, e) as u64) && final(self).moved(
                        old(self),
                        e,
                    )
                } else {
                    r == Err::<u64, Error>(Error::ExpectedInteger) && final(self).moved(old(self), n)
                }
            }),
    {
        self.skip_ws();
        match lex_u64(&self.bytes, self.pos) {
            Some((v, left)) => {
                self.pos = self.bytes.len() - left;
                Ok(v)
            },
            None => Err(Error::ExpectedInteger),
        }
    }

    /// A signed integer literal: an optional sign and a run of digits whose
    /// value fits in `i64`.
    pub fn parse_signed(&mut self) -> (r: Result<i64>)
        requires
            old(self).wf(),
        ensures
            ({
                let s = old(self).input();
                let n = old(self).next_sig();
                if signed_ok(s, n) {
                    r == Ok::<i64, Error>(signed_value(s, n) as i64) && final(self).moved(
                        old(self),
                        digit_end(s, signed_digits(s, n)),
                    )
                } else {
                    r == Err::<i64, Error>(Error::ExpectedInteger) && final(self).moved(old(self), n)
                }
            }),
    {
        self.skip_ws();
        let n = self.pos;
        let len = self.bytes.len();
        let neg = n < len && self.bytes[n] == 45;
        let d = if n < len && (self.bytes[n] == 45 || self.bytes[n] == 43) {
            n + 1
        } else {
            n
        };
        assert(d == signed_digits(self.bytes@, n as int));
        match lex_u64(&self.bytes, d) {
            Some((m, left)) => {
                if neg && m <= 9223372036854775808 {
                    self.pos = len - left;
                    Ok((0 - (m as i128)) as i64)
                } else if !neg && m <= 9223372036854775807 {
                    self.pos = len - left;
                    Ok(m as i64)
                } else {
                    Err(Error::ExpectedInteger)
                }
            },
            None => Err(Error::ExpectedInteger),
        }
    }

    /// An identifier: a letter or underscore, then letters, digits and
    /// underscores. Gives its raw bytes.
    pub fn parse_identifier(&mut self) -> (r: Result<Vec<u8>>)
        requires
            old(self).wf(),
        ensures
            r is Ok ==> final(self).cursor() > old(self).next_sig(),
            ({
                let s = old(self).input();
                let n = old(self).next_sig();
                if n < s.len() && is_ident_start(s[n]) {
                    r is Ok && r->Ok_0@ == s.subrange(n, ident_end(s, n)) && final(self).moved(
                        old(self),
                        ident_end(s, n),
                    )
                } else {
                    r == Err::<Vec<u8>, Error>(Error::ExpectedIdentifier) && final(self).moved(
                        old(self),
                        n,
                    )
                }
            }),
    {
        self.skip_ws();
        let start = self.pos;
        if !(self.pos < self.bytes.len() && (is_letter(self.bytes[self.pos]) || self.bytes[self.pos]
            == 95)) {
            return Err(Error::ExpectedIdentifier);
        }
        let mut out: Vec<u8> = Vec::new();
        while self.pos < self.bytes.len() && (is_letter(self.bytes[self.pos]) || self.bytes[self.pos]
            == 95 || (48 <= self.bytes[self.pos] && self.bytes[self.pos] <= 57))
            invariant
                self.wf(),
                self.bytes@ == old(self).bytes@,
                start <= self.pos,
                start == old(self).next_sig(),
                ident_end(self.bytes@, start as int) == ident_end(self.bytes@, self.pos as int),
                out@ == self.bytes@.subrange(start as int, self.pos as int),
            decreases self.bytes@.len() - self.pos,
        {
            out.push(self.bytes[self.pos]);
            self.pos = self.pos + 1;
            assert(out@ =~= self.bytes@.subrange(start as int, self.pos as int));
        }
        Ok(out)
    }

    /// A character literal: `'c'` with `c` ASCII, or `'\e'` with `e` one of
    /// the string escapes or a quote.
    pub fn parse_char(&mut self) -> (r: Result<char>)
        requires
            old(self).wf(),
        ensures
            r is Ok ==> final(self).cursor() > old(self).next_sig(),
            ({
                let s = old(self).input();
                let n = old(self).next_sig();
                match char_lit(s, n) {
                    Ok((b, e)) => r == Ok::<char, Error>(b as char) && final(self).moved(old(self), e),
                    Err(err) => r == Err::<char, Error>(err),
                }
            }),
            final(self).wf(),
            final(self).input() == old(self).input(),
    {
        self.skip_ws();
        let n = self.pos;
        let len = self.bytes.len();
        if !(n < len && len - n > 1 && self.bytes[n] == 39) {
            return Err(Error::ExpectedChar);
        }
        let c = self.bytes[n + 1];
        if c == 92 {
            if !(len - n > 2) {
                return Err(Error::InvalidEscape);
            }
            let e = match escape_byte(self.bytes[n + 2]) {
                Some(e) => e,
                None => {
                    if self.bytes[n + 2] == 39 {
                        39u8
                    } else {
                        return Err(Error::InvalidEscape);
                    }
                },
            };
            if len - n > 3 && self.bytes[n + 3] == 39 {
                self.pos = n + 4;
                Ok(e as char)
            } else {
                Err(Error::ExpectedChar)
            }
        } else if c < 128 && c != 39 && len - n > 2 && self.bytes[n + 2] == 39 {
            self.pos = n + 3;
            Ok(c as char)
        } else {
            Err(Error::ExpectedChar)
        }
    }
}

fn is_letter(b: u8) -> (r: bool)
    ensures
        r == ((65 <= b <= 90) || (97 <= b <= 122)),
{
    (65 <= b && b <= 90) || (97 <= b && b <= 122)
}

/// What a recognised two-character escape `\c` of a string stands for.
pub fn escape_byte(c: u8) -> (r: Option<u8>)
    ensures
        r == crate::scan::escape_of(c),
{
    if c == 92 || c == 47 || c == 34 {
        Some(c)
    } else if c == 98 {
        Some(8u8)
    } else if c == 102 {
        Some(12u8)
    } else if c == 110 {
        Some(10u8)
    } else if c == 114 {
        Some(13u8)
    } else if c == 116 {
        Some(9u8)
    } else {
        None
    }
}

impl Deserializer {
    /// A string literal.
    pub fn parse_string(&mut self) -> (r: Result<String>)
        requires
            old(self).wf(),
        ensures
            r is Ok ==> final(self).cursor() > old(self).next_sig(),
            final(self).wf(),
            final(self).input() == old(self).input(),
            ({
                let s = old(self).input();
                let n = old(self).next_sig();
                match string_lit(s, n) {
                    Some((t, e)) => r is Ok && r->Ok_0@ == t && final(self).cursor() == e,
                    None => r == Err::<String, Error>(Error::ExpectedString),
                }
            }),
    {
        self.skip_ws();
        let n = self.pos;
        let len = self.bytes.len();
        if !(n < len && self.bytes[n] == 34) {
            return Err(Error::ExpectedString);
        }
        if len - n > 2 && self.bytes[n + 1] == 92 && self.bytes[n + 2] == 117 {
            let mut units: Vec<u16> = Vec::new();
            let mut i: usize = n + 1;
            while unit_escape(&self.bytes, i)
                invariant
                    self.wf(),
                    self.bytes@ == old(self).bytes@,
                    len == self.bytes@.len(),
                    n + 1 <= i <= len,
                    unit_run(self.bytes@, n + 1) == (units@ + unit_run(self.bytes@, i as int).0, unit_run(self.bytes@, i as int).1),
                decreases len - i,
            {
                let b = &self.bytes;
                let u: u16 = (hex_digit(b[i + 2]) as u16) * 4096 + (hex_digit(b[i + 3]) as u16) * 256
                    + (hex_digit(b[i + 4]) as u16) * 16 + hex_digit(b[i + 5]) as u16;
                proof {
                    let t = unit_run(self.bytes@, i + 6);
                    assert(units@ + (seq![u] + t.0) =~= units@.push(u) + t.0);
                }
                units.push(u);
                i = i + 6;
            }
            proof {
                lemma_unit_run_bounds(self.bytes@, i as int);
                assert(units@ + Seq::<u16>::empty() =~= units@);
            }
            if i < len && self.bytes[i] == 34 {
                self.pos = i + 1;
                return Ok(text_from_utf16(&units));
            }
            return Err(Error::ExpectedString);
        }
        let mut acc: Vec<u8> = Vec::new();
        let mut i: usize = n + 1;
        proof {
            assert(acc@ + Seq::<u8>::empty() =~= Seq::<u8>::empty());
            match direct_body(self.bytes@, i as int) {
                Some((t, e)) => { assert(acc@ + t =~= t); },
                None => {},
            }
        }
        while i < len && self.bytes[i] != 34
            invariant
                self.wf(),
                self.bytes@ == old(self).bytes@,
                len == self.bytes@.len(),
                n + 1 <= i <= len,
                n == old(self).next_sig(),
                self.bytes@[n as int] == 34,
                !(n + 2 < len && self.bytes@[n + 1] == 92 && self.bytes@[n + 2] == 117),
                direct_body(self.bytes@, n + 1) == prefixed(acc@, direct_body(self.bytes@, i as int)),
            decreases len - i,
        {
            let b = self.bytes[i];
            if b == 92 {
                if len - i < 2 {
                    return Err(Error::ExpectedString);
                }
                match escape_byte(self.bytes[i + 1]) {
                    Some(c) => {
                        proof {
                            match direct_body(self.bytes@, i + 2) {
                                Some((t, e)) => { assert(acc@ + (seq![c] + t) =~= acc@.push(c) + t); },
                                None => {},
                            }
                        }
                        acc.push(c);
                        i = i + 2;
                    },
                    None => {
                        return Err(Error::ExpectedString);
                    },
                }
            } else {
                proof {
                    match direct_body(self.bytes@, i + 1) {
                        Some((t, e)) => { assert(acc@ + (seq![b] + t) =~= acc@.push(b) + t); },
                        None => {},
                    }
                }
                acc.push(b);
                i = i + 1;
            }
        }
        if i >= len {
            return Err(Error::ExpectedString);
        }
        proof {
            assert(acc@ + Seq::<u8>::empty() =~= acc@);
        }
        match text_from_utf8(acc) {
            Some(t) => {
                self.pos = i + 1;
                Ok(t)
            },
            None => Err(Error::ExpectedString),
        }
    }
}

/// The value of a hexadecimal digit.
fn hex_digit(b: u8) -> (r: u8)
    requires
        is_hex(b),
    ensures
        r as nat == hex_val(b),
        r < 16,
{
    if 48 <= b && b <= 57 {
        b - 48
    } else if 65 <= b && b <= 70 {
        b - 55
    } else {
        b - 87
    }
}

fn is_hex_byte(b: u8) -> (r: bool)
    ensures
        r == is_hex(b),
{
    (48 <= b && b <= 57) || (65 <= b && b <= 70) || (97 <= b && b <= 102)
}

/// A `\uXXXX` escape stands at `i`.
fn unit_escape(b: &Vec<u8>, i: usize) -> (r: bool)
    ensures
        r == unit_escape_at(b@, i as int),
{
    i < b.len() && b.len() - i >= 6 && b[i] == 92 && b[i + 1] == 117 && is_hex_byte(b[i + 2])
        && is_hex_byte(b[i + 3]) && is_hex_byte(b[i + 4]) && is_hex_byte(b[i + 5])
}

impl Deserializer {
    /// A numeric literal, integer or with a fractional part of up to nine
    /// digits.
    pub fn parse_number(&mut self) -> (r: Result<Number>)
        requires
            old(self).wf(),
        ensures
            r is Ok ==> final(self).cursor() > old(self).next_sig(),
            final(self).wf(),
            final(self).input() == old(self).input(),
            match number_lit(old(self).input(), old(self).next_sig()) {
                Some((m, e)) => r is Ok && r->Ok_0.spec_get() == m && final(self).cursor() == e,
                None => r == Err::<Number, Error>(Error::ExpectedFloat),
            },
    {
        self.skip_ws();
        let n = self.pos;
        let len = self.bytes.len();
        let neg = n < len && self.bytes[n] == 45;
        let d = if n < len && (self.bytes[n] == 45 || self.bytes[n] == 43) {
            n + 1
        } else {
            n
        };
        assert(d == n + sign_len(self.bytes@, n as int));
        let (whole, left) = match lex_u64(&self.bytes, d) {
            Some(p) => p,
            None => {
                return Err(Error::ExpectedFloat);
            },
        };
        let e = len - left;
        let mut frac: u64 = 0;
        let mut end = e;
        if e < len && self.bytes[e] == 46 {
            let mut f: usize = e + 1;
            while f < len && 48 <= self.bytes[f] && self.bytes[f] <= 57 && f - e <= 10
                invariant
                    self.bytes@ == old(self).bytes@,
                    len == self.bytes@.len(),
                    e + 1 <= f <= len,
                    f - e <= 11,
                    frac < pow10((f - (e + 1)) as nat),
                    f - (e + 1) <= 9 ==> frac == crate::scan::digits_value(self.bytes@, e + 1, f as int),
                    digit_end(self.bytes@, e + 1) == digit_end(self.bytes@, f as int),
                decreases len - f,
            {
                proof {
                    lemma_pow10_mono((f - (e + 1)) as nat, 9);
                    crate::scan::lemma_pow10_9();
                }
                if f - e <= 9 {
                    let dgt = (self.bytes[f] - 48) as u64;
                    proof {
                        let p = pow10((f - (e + 1)) as nat);
                        assert(frac * 10 + dgt < p * 10) by (nonlinear_arith)
                            requires frac < p, dgt <= 9;
                    }
                    frac = frac * 10 + dgt;
                }
                f = f + 1;
            }
            let k = f - (e + 1);
            if k < 1 || k > 9 {
                return Err(Error::ExpectedFloat);
            }
            let mut j: usize = k;
            proof {
                let dv = crate::scan::digits_value(self.bytes@, e + 1, f as int);
                assert(f - (e + 1) <= 9);
                assert(frac == dv);
                assert(pow10(0) == 1);
                assert((j - k) as nat == 0);
                assert(dv * pow10(0) == dv);
            }
            while j < 9
                invariant
                    1 <= k <= j <= 9,
                    frac < pow10(j as nat),
                    frac == crate::scan::digits_value(self.bytes@, e + 1, f as int) * pow10((j - k) as nat),
                decreases 9 - j,
            {
                proof {
                    lemma_pow10_mono((j + 1) as nat, 9);
                    crate::scan::lemma_pow10_9();
                    let dv = crate::scan::digits_value(self.bytes@, e + 1, f as int);
                    assert(dv * pow10((j - k) as nat) * 10 == dv * pow10((j + 1 - k) as nat)) by (nonlinear_arith)
                        requires pow10((j + 1 - k) as nat) == 10 * pow10((j - k) as nat);
                }
                frac = frac * 10;
                j = j + 1;
            }
            end = f;
        }
        proof {
            lemma_pow10_mono(0, 9);
            crate::scan::lemma_pow10_9();
        }
        let m: i128 = (whole as i128) * SCALE + frac as i128;
        self.pos = end;
        if neg {
            Ok(Number::new(-m))
        } else {
            Ok(Number::new(m))
        }
    }
}


impl Deserializer {
    /// The cursor, to come back to after a look ahead.
    pub fn position(&self) -> (r: usize)
        ensures
            r == self.cursor(),
    {
        self.pos
    }

    /// Puts the cursor back at `p`.
    pub fn rewind(&mut self, p: usize)
        requires
            p <= old(self).input().len(),
        ensures
            final(self).moved(old(self), p as int),
    {
        self.pos = p;
    }
}

/// The result `r` of a decode, with the cursor then at `cursor`, is what the
/// grammar gives: success ending at its end, or its error.
pub open spec fn agrees<T>(r: Result<T>, g: Result<int>, cursor: int) -> bool {
    match g {
        Ok(e) => r is Ok && cursor == e,
        Err(x) => r is Err && r->Err_0 == x,
    }
}

/// Where a construct whose items ended at `p` ends: an optional comma, then
/// its closing byte `term`, or the error `err`.
pub open spec fn closed(s: Seq<u8>, p: int, term: u8, err: Error) -> Result<int> {
    let q = after_comma(s, p);
    if sig_is(s, q, term) {
        Ok(ws_end(s, q) + 1)
    } else {
        Err(err)
    }
}

/// A type that a session can decode a value of.
pub trait Decode: Sized {
    /// Where a value of this type that starts at `i` ends, or the error
    /// that decoding one there gives.
    spec fn decode_end(s: Seq<u8>, i: int) -> Result<int>;

    /// `v` is the value that the text at `i` holds.
    spec fn decoded(s: Seq<u8>, i: int, v: Self) -> bool;

    fn decode(de: &mut Deserializer) -> (r: Result<Self>)
        requires
            old(de).wf(),
        ensures
            final(de).wf(),
            final(de).input() == old(de).input(),
            agrees(r, Self::decode_end(old(de).input(), old(de).cursor()), final(de).cursor()),
            r is Ok ==> Self::decoded(old(de).input(), old(de).cursor(), r->Ok_0),
            r is Ok ==> final(de).cursor() >= old(de).cursor(),
    ;
}

/// Where the unsigned literal at `i` ends, if its value is at most `max`.
pub open spec fn unsigned_end(s: Seq<u8>, i: int, max: int) -> Result<int> {
    let n = ws_end(s, i);
    let e = digit_end(s, n);
    if e > n && digits_value(s, n, e) <= max {
        Ok(e)
    } else {
        Err(Error::ExpectedInteger)
    }
}

/// Where the signed literal at `i` ends, if its value lies in `lo..=hi`.
pub open spec fn signed_end(s: Seq<u8>, i: int, lo: int, hi: int) -> Result<int> {
    let n = ws_end(s, i);
    if signed_ok(s, n) && lo <= signed_value(s, n) <= hi {
        Ok(digit_end(s, signed_digits(s, n)))
    } else {
        Err(Error::ExpectedInteger)
    }
}

impl Decode for bool {
    open spec fn decode_end(s: Seq<u8>, i: int) -> Result<int> {
        match token_end(s, i, "true".spec_bytes()) {
            Some(p) => Ok(p),
            None => match token_end(s, i, "false".spec_bytes()) {
                Some(p) => Ok(p),
                None => Err(Error::ExpectedBoolean),
            },
        }
    }

    open spec fn decoded(s: Seq<u8>, i: int, v: Self) -> bool {
        v == (token_end(s, i, "true".spec_bytes()) is Some)
    }

    fn decode(de: &mut Deserializer) -> (r: Result<bool>) {
        de.parse_bool()
    }
}

impl Decode for u64 {
    open spec fn decode_end(s: Seq<u8>, i: int) -> Result<int> {
        unsigned_end(s, i, u64::MAX as int)
    }

    open spec fn decoded(s: Seq<u8>, i: int, v: Self) -> bool {
        v as int == digits_value(s, ws_end(s, i), digit_end(s, ws_end(s, i)))
    }

    fn decode(de: &mut Deserializer) -> (r: Result<u64>) {
        de.parse_unsigned()
    }
}

impl Decode for u8 {
    open spec fn decode_end(s: Seq<u8>, i: int) -> Result<int> {
        unsigned_end(s, i, 255)
    }

    open spec fn decoded(s: Seq<u8>, i: int, v: Self) -> bool {
        v as int == digits_value(s, ws_end(s, i), digit_end(s, ws_end(s, i)))
    }

    fn decode(de: &mut Deserializer) -> (r: Result<u8>) {
        let v = de.parse_unsigned()?;
        if v <= 255 {
            Ok(v as u8)
        } else {
            Err(Error::ExpectedInteger)
        }
    }
}

impl Decode for i64 {
    open spec fn decode_end(s: Seq<u8>, i: int) -> Result<int> {
        signed_end(s, i, i64::MIN as int, i64::MAX as int)
    }

    open spec fn decoded(s: Seq<u8>, i: int, v: Self) -> bool {
        v as int == signed_value(s, ws_end(s, i))
    }

    fn decode(de: &mut Deserializer) -> (r: Result<i64>) {
        de.parse_signed()
    }
}

impl Decode for i32 {
    open spec fn decode_end(s: Seq<u8>, i: int) -> Result<int> {
        signed_end(s, i, i32::MIN as int, i32::MAX as int)
    }

    open spec fn decoded(s: Seq<u8>, i: int, v: Self) -> bool {
        v as int == signed_value(s, ws_end(s, i))
    }

    fn decode(de: &mut Deserializer) -> (r: Result<i32>) {
        let v = de.parse_signed()?;
        if -2147483648 <= v && v <= 2147483647 {
            Ok(v as i32)
        } else {
            Err(Error::ExpectedInteger)
        }
    }
}

impl Decode for char {
    open spec fn decode_end(s: Seq<u8>, i: int) -> Result<int> {
        match char_lit(s, ws_end(s, i)) {
            Ok((_, e)) => Ok(e),
            Err(x) => Err(x),
        }
    }

    open spec fn decoded(s: Seq<u8>, i: int, v: Self) -> bool {
        match char_lit(s, ws_end(s, i)) {
            Ok((b, _)) => v == b as char,
            Err(_) => false,
        }
    }

    fn decode(de: &mut Deserializer) -> (r: Result<char>) {
        de.parse_char()
    }
}

impl Decode for String {
    open spec fn decode_end(s: Seq<u8>, i: int) -> Result<int> {
        match string_lit(s, ws_end(s, i)) {
            Some((_, e)) => Ok(e),
            None => Err(Error::ExpectedString),
        }
    }

    open spec fn decoded(s: Seq<u8>, i: int, v: Self) -> bool {
        match string_lit(s, ws_end(s, i)) {
            Some((t, _)) => v@ == t,
            None => false,
        }
    }

    fn decode(de: &mut Deserializer) -> (r: Result<String>) {
        de.parse_string()
    }
}

impl Decode for Number {
    open spec fn decode_end(s: Seq<u8>, i: int) -> Result<int> {
        match number_lit(s, ws_end(s, i)) {
            Some((_, e)) => Ok(e),
            None => Err(Error::ExpectedFloat),
        }
    }

    open spec fn decoded(s: Seq<u8>, i: int, v: Self) -> bool {
        match number_lit(s, ws_end(s, i)) {
            Some((m, _)) => v.spec_get() == m,
            None => false,
        }
    }

    fn decode(de: &mut Deserializer) -> (r: Result<Number>) {
        de.parse_number()
    }
}

impl<T: Decode> Decode for Option<T> {
    open spec fn decode_end(s: Seq<u8>, i: int) -> Result<int> {
        match token_end(s, i, "Some(".spec_bytes()) {
            Some(p) => match T::decode_end(s, p) {
                Ok(q) => if sig_is(s, q, 41) {
                    Ok(ws_end(s, q) + 1)
                } else {
                    Err(Error::ExpectedOptionEnd)
                },
                Err(x) => Err(x),
            },
            None => match token_end(s, i, "None".spec_bytes()) {
                Some(p) => Ok(p),
                None => Err(Error::ExpectedOption),
            },
        }
    }

    open spec fn decoded(s: Seq<u8>, i: int, v: Self) -> bool {
        match token_end(s, i, "Some(".spec_bytes()) {
            Some(p) => v is Some && T::decoded(s, p, v->0),
            None => v is None,
        }
    }

    fn decode(de: &mut Deserializer) -> (r: Result<Option<T>>) {
        if de.option_start()? {
            let v = T::decode(de)?;
            de.option_end()?;
            Ok(Some(v))
        } else {
            Ok(None)
        }
    }
}

/// The elements of a sequence of `T` from `i` up to `]`: where the run ends,
/// or its error.
pub open spec fn elements_end<T: Decode>(s: Seq<u8>, i: int, first: bool) -> Result<int>
    decreases s.len() - i, if first {
        1int
    } else {
        0int
    },
{
    let (r, p) = item_step(s, i, 93, first, Error::ExpectedArrayComma);
    match r {
        Err(x) => Err(x),
        Ok(false) => Ok(p),
        Ok(true) => match T::decode_end(s, p) {
            Err(x) => Err(x),
            Ok(e) => if i <= e <= s.len() && (first || e > i) {
                elements_end::<T>(s, e, false)
            } else {
                Err(Error::Syntax)
            },
        },
    }
}

/// `vs` are the elements of a sequence of `T` from `i` up to `]`, in order.
pub open spec fn elements_decoded<T: Decode>(s: Seq<u8>, i: int, first: bool, vs: Seq<T>) -> bool
    decreases s.len() - i, if first {
        1int
    } else {
        0int
    },
{
    let (r, p) = item_step(s, i, 93, first, Error::ExpectedArrayComma);
    match r {
        Err(_) => false,
        Ok(false) => vs.len() == 0,
        Ok(true) => vs.len() > 0 && T::decoded(s, p, vs[0]) && match T::decode_end(s, p) {
            Err(_) => false,
            Ok(e) => if i <= e <= s.len() && (first || e > i) {
                elements_decoded::<T>(s, e, false, vs.subrange(1, vs.len() as int))
            } else {
                false
            },
        },
    }
}

impl<T: Decode> Decode for Vec<T> {
    open spec fn decode_end(s: Seq<u8>, i: int) -> Result<int> {
        if sig_is(s, i, 91) {
            match elements_end::<T>(s, ws_end(s, i) + 1, true) {
                Ok(p) => closed(s, p, 93, Error::ExpectedArrayEnd),
                Err(x) => Err(x),
            }
        } else {
            Err(Error::ExpectedArray)
        }
    }

    open spec fn decoded(s: Seq<u8>, i: int, v: Self) -> bool {
        elements_decoded::<T>(s, ws_end(s, i) + 1, true, v@)
    }

    fn decode(de: &mut Deserializer) -> (r: Result<Vec<T>>) {
        let s = Ghost(de.input());
        let c0 = Ghost(de.cursor());
        de.seq_start()?;
        let mut items: Vec<T> = Vec::new();
        let mut it = CommaSeparated::new(93);
        loop
            invariant
                de.wf(),
                de.input() == s@,
                s@ == old(de).input(),
                c0@ == old(de).cursor(),
                de.cursor() > c0@,
                it.terminator == 93,
                sig_is(s@, c0@, 91),
                elements_end::<T>(s@, ws_end(s@, c0@) + 1, true) == elements_end::<T>(s@, de.cursor(), it.first),
                forall|tail: Seq<T>|
                    #[trigger] elements_decoded::<T>(s@, de.cursor(), it.first, tail)
                        ==> elements_decoded::<T>(s@, ws_end(s@, c0@) + 1, true, items@ + tail),
            ensures
                de.wf(),
                de.input() == s@,
                de.cursor() > c0@,
                elements_end::<T>(s@, ws_end(s@, c0@) + 1, true) == Ok::<int, Error>(de.cursor()),
                elements_decoded::<T>(s@, ws_end(s@, c0@) + 1, true, items@),
            decreases de.input().len() - de.cursor(), if it.first {
                1int
            } else {
                0int
            },
        {
            let cur = Ghost(de.cursor());
            let first = Ghost(it.first);
            let old_items = Ghost(items@);
            if !it.next_element(de)? {
                proof {
                    let t = Seq::<T>::empty();
                    assert(elements_decoded::<T>(s@, cur@, first@, t));
                    assert(elements_decoded::<T>(s@, ws_end(s@, c0@) + 1, true, old_items@ + t));
                    assert(old_items@ + t =~= old_items@);
                    assert(elements_end::<T>(s@, cur@, first@) == Ok::<int, Error>(de.cursor()));
                    assert(elements_decoded::<T>(s@, de.cursor(), first@, t) == elements_decoded::<T>(s@, cur@, first@, t));
                    assert forall|tail: Seq<T>|
                        #[trigger] elements_decoded::<T>(s@, de.cursor(), it.first, tail)
                            implies elements_decoded::<T>(s@, ws_end(s@, c0@) + 1, true, items@ + tail) by {
                        assert(elements_decoded::<T>(s@, cur@, first@, tail));
                    }
                }
                break;
            }
            let v = T::decode(de)?;
            items.push(v);
            proof {
                assert forall|tail: Seq<T>|
                    #[trigger] elements_decoded::<T>(s@, de.cursor(), false, tail)
                        implies elements_decoded::<T>(s@, ws_end(s@, c0@) + 1, true, items@ + tail) by {
                    let vt = seq![v] + tail;
                    assert(vt.subrange(1, vt.len() as int) =~= tail);
                    assert(elements_decoded::<T>(s@, cur@, first@, vt));
                    assert(old_items@ + vt =~= items@ + tail);
                }
            }
        }
        de.seq_end()?;
        Ok(items)
    }
}

/// Decodes a `T` from the whole of `s`: after the value only whitespace may
/// follow, else the error is `TrailingCharacters`.
pub fn from_str<T: Decode>(s: &str) -> (r: Result<T>)
    ensures
        ({
            let b = s.spec_bytes();
            match T::decode_end(b, 0) {
                Ok(e) => if ws_end(b, e) == b.len() {
                    r is Ok && T::decoded(b, 0, r->Ok_0)
                } else {
                    r == Err::<T, Error>(Error::TrailingCharacters)
                },
                Err(x) => r is Err && r->Err_0 == x,
            }
        }),
{
    let mut de = Deserializer::from_str(s);
    let t = T::decode(&mut de)?;
    de.end()?;
    Ok(t)
}

} // verus!
