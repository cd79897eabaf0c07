//! The dynamic value model: what a decode yields when the caller does not
//! know the shape ahead of time.
use vstd::prelude::*;

use crate::de::{agrees, closed, CommaSeparated, Decode, Deserializer};
use crate::error::{Error, Result};
use crate::de::item_step;
use crate::scan::{
    after_comma, char_lit, ident_end, is_digit, is_ident_start, number_lit, sig_is, string_lit,
    text_from_utf8, utf8_decode, ws_end,
};
use vstd::string::StringSliceAdditionalSpecFns;

verus! {

broadcast use crate::scan::group_ws;

/// The number of billionths in one.
pub const SCALE: i128 = 1_000_000_000;

/// A finite number, held exactly as a whole count of billionths.
#[derive(Clone, Copy, Debug, PartialEq, Eq, PartialOrd, Ord, Hash, Structural)]
pub struct Number {
    scaled: i128,
}

impl Number {
    /// The number `scaled` billionths.
    pub fn new(scaled: i128) -> (r: Number)
        ensures
            r.spec_get() == scaled,
    {
        Number { scaled }
    }

    pub closed spec fn spec_get(&self) -> i128 {
        self.scaled
    }

    /// The number in billionths.
    pub fn get(&self) -> (r: i128)
        ensures
            r == self.spec_get(),
    {
        self.scaled
    }

    /// The whole number `v`.
    pub fn from_integer(v: i64) -> (r: Number)
        ensures
            r.spec_get() == v * 1_000_000_000,
    {
        Number { scaled: (v as i128) * SCALE }
    }
}

/// A decoded value of a shape not known ahead of time.
#[derive(Debug)]
pub enum Value {
    Bool(bool),
    Char(char),
    /// Entries ordered by key, keys distinct.
    Dict(Vec<(Value, Value)>),
    Number(Number),
    Option(Option<Box<Value>>),
    String(String),
    List(Vec<Value>),
    Unit,
}

/// The rank of a value's variant, in declaration order.
pub open spec fn tag(v: Value) -> int {
    match v {
        Value::Bool(_) => 0,
        Value::Char(_) => 1,
        Value::Dict(_) => 2,
        Value::Number(_) => 3,
        Value::Option(_) => 4,
        Value::String(_) => 5,
        Value::List(_) => 6,
        Value::Unit => 7,
    }
}

/// Three-way comparison of integers: -1, 0 or 1.
pub open spec fn cmp_int(a: int, b: int) -> int {
    if a < b {
        -1
    } else if a == b {
        0
    } else {
        1
    }
}

/// Lexicographic comparison of byte strings.
pub open spec fn cmp_bytes(a: Seq<u8>, b: Seq<u8>) -> int
    decreases a.len(),
{
    if a.len() == 0 {
        if b.len() == 0 {
            0
        } else {
            -1
        }
    } else if b.len() == 0 {
        1
    } else if a[0] != b[0] {
        cmp_int(a[0] as int, b[0] as int)
    } else {
        cmp_bytes(a.subrange(1, a.len() as int), b.subrange(1, b.len() as int))
    }
}

/// Texts compare by their UTF-8 bytes, which orders them by code point.
pub open spec fn cmp_text(a: Seq<char>, b: Seq<char>) -> int {
    cmp_bytes(vstd::utf8::encode_utf8(a), vstd::utf8::encode_utf8(b))
}

/// The total order on values: first by variant, then by content; texts,
/// sequences and maps lexicographically.
pub open spec fn cmp_value(a: Value, b: Value) -> int
    decreases a,
{
    if tag(a) != tag(b) {
        cmp_int(tag(a), tag(b))
    } else {
        match (a, b) {
            (Value::Bool(x), Value::Bool(y)) => cmp_int(
                if x {
                    1
                } else {
                    0
                },
                if y {
                    1
                } else {
                    0
                },
            ),
            (Value::Char(x), Value::Char(y)) => cmp_int(x as int, y as int),
            (Value::Number(x), Value::Number(y)) => cmp_int(x.spec_get() as int, y.spec_get() as int),
            (Value::String(x), Value::String(y)) => cmp_text(x@, y@),
            (Value::Option(x), Value::Option(y)) => match (x, y) {
                (None, None) => 0,
                (None, Some(_)) => -1,
                (Some(_), None) => 1,
                (Some(p), Some(q)) => cmp_value(*p, *q),
            },
            (Value::List(x), Value::List(y)) => cmp_seq(x@, y@),
            (Value::Dict(x), Value::Dict(y)) => cmp_entries(x@, y@),
            _ => 0,
        }
    }
}

/// Lexicographic comparison of sequences of values.
pub open spec fn cmp_seq(a: Seq<Value>, b: Seq<Value>) -> int
    decreases a,
{
    if a.len() == 0 {
        if b.len() == 0 {
            0
        } else {
            -1
        }
    } else if b.len() == 0 {
        1
    } else if cmp_value(a[0], b[0]) != 0 {
        cmp_value(a[0], b[0])
    } else {
        cmp_seq(a.subrange(1, a.len() as int), b.subrange(1, b.len() as int))
    }
}

/// Lexicographic comparison of map entries, key before value.
pub open spec fn cmp_entries(a: Seq<(Value, Value)>, b: Seq<(Value, Value)>) -> int
    decreases a,
{
    if a.len() == 0 {
        if b.len() == 0 {
            0
        } else {
            -1
        }
    } else if b.len() == 0 {
        1
    } else if cmp_value(a[0].0, b[0].0) != 0 {
        cmp_value(a[0].0, b[0].0)
    } else if cmp_value(a[0].1, b[0].1) != 0 {
        cmp_value(a[0].1, b[0].1)
    } else {
        cmp_entries(a.subrange(1, a.len() as int), b.subrange(1, b.len() as int))
    }
}

proof fn lemma_cmp_bytes_antisym(a: Seq<u8>, b: Seq<u8>)
    ensures
        cmp_bytes(a, b) == -cmp_bytes(b, a),
        -1 <= cmp_bytes(a, b) <= 1,
    decreases a.len(),
{
    if a.len() > 0 && b.len() > 0 && a[0] == b[0] {
        lemma_cmp_bytes_antisym(a.subrange(1, a.len() as int), b.subrange(1, b.len() as int));
    }
}

/// Swapping the operands of the value order negates the result.
pub proof fn lemma_cmp_antisym(a: Value, b: Value)
    ensures
        cmp_value(a, b) == -cmp_value(b, a),
        -1 <= cmp_value(a, b) <= 1,
    decreases a,
{
    if tag(a) == tag(b) {
        match (a, b) {
            (Value::String(x), Value::String(y)) => {
                lemma_cmp_bytes_antisym(
                    vstd::utf8::encode_utf8(x@),
                    vstd::utf8::encode_utf8(y@),
                );
            },
            (Value::Option(Some(p)), Value::Option(Some(q))) => {
                lemma_cmp_antisym(*p, *q);
            },
            (Value::List(x), Value::List(y)) => {
                lemma_cmp_seq_antisym(x@, y@);
            },
            (Value::Dict(x), Value::Dict(y)) => {
                lemma_cmp_entries_antisym(x@, y@);
            },
            _ => {},
        }
    }
}

proof fn lemma_cmp_seq_antisym(a: Seq<Value>, b: Seq<Value>)
    ensures
        cmp_seq(a, b) == -cmp_seq(b, a),
        -1 <= cmp_seq(a, b) <= 1,
    decreases a,
{
    if a.len() > 0 && b.len() > 0 {
        lemma_cmp_antisym(a[0], b[0]);
        lemma_cmp_seq_antisym(a.subrange(1, a.len() as int), b.subrange(1, b.len() as int));
    }
}

proof fn lemma_cmp_entries_antisym(a: Seq<(Value, Value)>, b: Seq<(Value, Value)>)
    ensures
        cmp_entries(a, b) == -cmp_entries(b, a),
        -1 <= cmp_entries(a, b) <= 1,
    decreases a,
{
    if a.len() > 0 && b.len() > 0 {
        lemma_cmp_antisym(a[0].0, b[0].0);
        lemma_cmp_antisym(a[0].1, b[0].1);
        lemma_cmp_entries_antisym(a.subrange(1, a.len() as int), b.subrange(1, b.len() as int));
    }
}

/// `<=` and `<` chain through `b`.
pub open spec fn chains(a: Value, b: Value, c: Value) -> bool {
    &&& (cmp_value(a, b) <= 0 && cmp_value(b, c) <= 0 ==> cmp_value(a, c) <= 0)
    &&& (cmp_value(a, b) == -1 && cmp_value(b, c) <= 0 ==> cmp_value(a, c) == -1)
    &&& (cmp_value(a, b) <= 0 && cmp_value(b, c) == -1 ==> cmp_value(a, c) == -1)
}

/// `chains` for every order of three values.
pub open spec fn chains_all(a: Value, b: Value, c: Value) -> bool {
    &&& chains(a, b, c)
    &&& chains(a, c, b)
    &&& chains(b, a, c)
    &&& chains(b, c, a)
    &&& chains(c, a, b)
    &&& chains(c, b, a)
}

pub open spec fn seq_chains(a: Seq<Value>, b: Seq<Value>, c: Seq<Value>) -> bool {
    &&& (cmp_seq(a, b) <= 0 && cmp_seq(b, c) <= 0 ==> cmp_seq(a, c) <= 0)
    &&& (cmp_seq(a, b) == -1 && cmp_seq(b, c) <= 0 ==> cmp_seq(a, c) == -1)
    &&& (cmp_seq(a, b) <= 0 && cmp_seq(b, c) == -1 ==> cmp_seq(a, c) == -1)
}

pub open spec fn entries_chains(
    a: Seq<(Value, Value)>,
    b: Seq<(Value, Value)>,
    c: Seq<(Value, Value)>,
) -> bool {
    &&& (cmp_entries(a, b) <= 0 && cmp_entries(b, c) <= 0 ==> cmp_entries(a, c) <= 0)
    &&& (cmp_entries(a, b) == -1 && cmp_entries(b, c) <= 0 ==> cmp_entries(a, c) == -1)
    &&& (cmp_entries(a, b) <= 0 && cmp_entries(b, c) == -1 ==> cmp_entries(a, c) == -1)
}

pub open spec fn bytes_chains(a: Seq<u8>, b: Seq<u8>, c: Seq<u8>) -> bool {
    &&& (cmp_bytes(a, b) <= 0 && cmp_bytes(b, c) <= 0 ==> cmp_bytes(a, c) <= 0)
    &&& (cmp_bytes(a, b) == -1 && cmp_bytes(b, c) <= 0 ==> cmp_bytes(a, c) == -1)
    &&& (cmp_bytes(a, b) <= 0 && cmp_bytes(b, c) == -1 ==> cmp_bytes(a, c) == -1)
}

proof fn lemma_bytes_trans(a: Seq<u8>, b: Seq<u8>, c: Seq<u8>)
    ensures
        bytes_chains(a, b, c),
        bytes_chains(a, c, b),
        bytes_chains(b, a, c),
        bytes_chains(b, c, a),
        bytes_chains(c, a, b),
        bytes_chains(c, b, a),
    decreases a.len(),
{
    lemma_cmp_bytes_antisym(a, b);
    lemma_cmp_bytes_antisym(b, c);
    lemma_cmp_bytes_antisym(a, c);
    if a.len() > 0 && b.len() > 0 && c.len() > 0 {
        lemma_bytes_trans(
            a.subrange(1, a.len() as int),
            b.subrange(1, b.len() as int),
            c.subrange(1, c.len() as int),
        );
    }
}

/// The value order is transitive, and strictly so where either step is
/// strict.
pub proof fn lemma_cmp_trans(a: Value, b: Value, c: Value)
    ensures
        chains_all(a, b, c),
    decreases a,
{
    lemma_cmp_antisym(a, b);
    lemma_cmp_antisym(b, c);
    lemma_cmp_antisym(a, c);
    if tag(a) == tag(b) && tag(b) == tag(c) {
        match (a, b, c) {
            (Value::String(x), Value::String(y), Value::String(z)) => {
                lemma_bytes_trans(
                    vstd::utf8::encode_utf8(x@),
                    vstd::utf8::encode_utf8(y@),
                    vstd::utf8::encode_utf8(z@),
                );
            },
            (Value::Option(x), Value::Option(y), Value::Option(z)) => {
                if x is Some && y is Some && z is Some {
                    lemma_cmp_trans(*x->0, *y->0, *z->0);
                }
            },
            (Value::List(x), Value::List(y), Value::List(z)) => {
                lemma_seq_trans(x@, y@, z@);
            },
            (Value::Dict(x), Value::Dict(y), Value::Dict(z)) => {
                lemma_entries_trans(x@, y@, z@);
            },
            _ => {},
        }
    }
}

proof fn lemma_seq_trans(a: Seq<Value>, b: Seq<Value>, c: Seq<Value>)
    ensures
        seq_chains(a, b, c),
        seq_chains(a, c, b),
        seq_chains(b, a, c),
        seq_chains(b, c, a),
        seq_chains(c, a, b),
        seq_chains(c, b, a),
    decreases a,
{
    lemma_cmp_seq_antisym(a, b);
    lemma_cmp_seq_antisym(b, c);
    lemma_cmp_seq_antisym(a, c);
    if a.len() > 0 && b.len() > 0 && c.len() > 0 {
        lemma_cmp_trans(a[0], b[0], c[0]);
        lemma_cmp_antisym(a[0], b[0]);
        lemma_cmp_antisym(b[0], c[0]);
        lemma_cmp_antisym(a[0], c[0]);
        lemma_seq_trans(
            a.subrange(1, a.len() as int),
            b.subrange(1, b.len() as int),
            c.subrange(1, c.len() as int),
        );
    }
}

proof fn lemma_entries_trans(a: Seq<(Value, Value)>, b: Seq<(Value, Value)>, c: Seq<(Value, Value)>)
    ensures
        entries_chains(a, b, c),
        entries_chains(a, c, b),
        entries_chains(b, a, c),
        entries_chains(b, c, a),
        entries_chains(c, a, b),
        entries_chains(c, b, a),
    decreases a,
{
    lemma_cmp_entries_antisym(a, b);
    lemma_cmp_entries_antisym(b, c);
    lemma_cmp_entries_antisym(a, c);
    if a.len() > 0 && b.len() > 0 && c.len() > 0 {
        lemma_cmp_trans(a[0].0, b[0].0, c[0].0);
        lemma_cmp_trans(a[0].1, b[0].1, c[0].1);
        lemma_cmp_antisym(a[0].0, b[0].0);
        lemma_cmp_antisym(b[0].0, c[0].0);
        lemma_cmp_antisym(a[0].0, c[0].0);
        lemma_cmp_antisym(a[0].1, b[0].1);
        lemma_cmp_antisym(b[0].1, c[0].1);
        lemma_cmp_antisym(a[0].1, c[0].1);
        lemma_entries_trans(
            a.subrange(1, a.len() as int),
            b.subrange(1, b.len() as int),
            c.subrange(1, c.len() as int),
        );
    }
}

fn tag_of(v: &Value) -> (r: u8)
    ensures
        r as int == tag(*v),
{
    match v {
        Value::Bool(_) => 0,
        Value::Char(_) => 1,
        Value::Dict(_) => 2,
        Value::Number(_) => 3,
        Value::Option(_) => 4,
        Value::String(_) => 5,
        Value::List(_) => 6,
        Value::Unit => 7,
    }
}

fn cmp_i128(a: i128, b: i128) -> (r: i8)
    ensures
        r as int == cmp_int(a as int, b as int),
{
    if a < b {
        -1
    } else if a == b {
        0
    } else {
        1
    }
}

fn compare_bytes(a: &[u8], b: &[u8]) -> (r: i8)
    ensures
        r as int == cmp_bytes(a@, b@),
{
    let mut i: usize = 0;
    assert(a@.subrange(0, a@.len() as int) =~= a@);
    assert(b@.subrange(0, b@.len() as int) =~= b@);
    while i < a.len() && i < b.len() && a[i] == b[i]
        invariant
            i <= a@.len(),
            i <= b@.len(),
            cmp_bytes(a@, b@) == cmp_bytes(
                a@.subrange(i as int, a@.len() as int),
                b@.subrange(i as int, b@.len() as int),
            ),
        decreases a@.len() - i,
    {
        proof {
            let sa = a@.subrange(i as int, a@.len() as int);
            let sb = b@.subrange(i as int, b@.len() as int);
            assert(sa.subrange(1, sa.len() as int) =~= a@.subrange(i + 1, a@.len() as int));
            assert(sb.subrange(1, sb.len() as int) =~= b@.subrange(i + 1, b@.len() as int));
        }
        i = i + 1;
    }
    if i < a.len() && i < b.len() {
        cmp_i128(a[i] as i128, b[i] as i128)
    } else if i < b.len() {
        -1
    } else if i < a.len() {
        1
    } else {
        0
    }
}

/// Compares two values in the order that keeps map keys sorted.
pub fn compare(a: &Value, b: &Value) -> (r: i8)
    ensures
        r as int == cmp_value(*a, *b),
    decreases *a,
{
    let ta = tag_of(a);
    let tb = tag_of(b);
    if ta != tb {
        return cmp_i128(ta as i128, tb as i128);
    }
    match (a, b) {
        (Value::Bool(x), Value::Bool(y)) => cmp_i128(
            if *x {
                1
            } else {
                0
            },
            if *y {
                1
            } else {
                0
            },
        ),
        (Value::Char(x), Value::Char(y)) => cmp_i128(*x as u32 as i128, *y as u32 as i128),
        (Value::Number(x), Value::Number(y)) => cmp_i128(x.get(), y.get()),
        (Value::String(x), Value::String(y)) => compare_bytes(x.as_str().as_bytes(), y.as_str().as_bytes()),
        (Value::Option(x), Value::Option(y)) => match (x, y) {
            (None, None) => 0,
            (None, Some(_)) => -1,
            (Some(_), None) => 1,
            (Some(p), Some(q)) => compare(p, q),
        },
        (Value::List(x), Value::List(y)) => compare_list(x, y),
        (Value::Dict(x), Value::Dict(y)) => compare_dict(x, y),
        _ => 0,
    }
}

fn compare_list(a: &Vec<Value>, b: &Vec<Value>) -> (r: i8)
    ensures
        r as int == cmp_seq(a@, b@),
    decreases a,
{
    let mut i: usize = 0;
    assert(a@.subrange(0, a@.len() as int) =~= a@);
    assert(b@.subrange(0, b@.len() as int) =~= b@);
    while i < a.len() && i < b.len()
        invariant
            i <= a@.len(),
            i <= b@.len(),
            cmp_seq(a@, b@) == cmp_seq(
                a@.subrange(i as int, a@.len() as int),
                b@.subrange(i as int, b@.len() as int),
            ),
        decreases a@.len() - i,
    {
        let c = compare(&a[i], &b[i]);
        if c != 0 {
            return c;
        }
        proof {
            let sa = a@.subrange(i as int, a@.len() as int);
            let sb = b@.subrange(i as int, b@.len() as int);
            assert(sa.subrange(1, sa.len() as int) =~= a@.subrange(i + 1, a@.len() as int));
            assert(sb.subrange(1, sb.len() as int) =~= b@.subrange(i + 1, b@.len() as int));
        }
        i = i + 1;
    }
    if i < b.len() {
        -1
    } else if i < a.len() {
        1
    } else {
        0
    }
}

fn compare_dict(a: &Vec<(Value, Value)>, b: &Vec<(Value, Value)>) -> (r: i8)
    ensures
        r as int == cmp_entries(a@, b@),
    decreases a,
{
    let mut i: usize = 0;
    assert(a@.subrange(0, a@.len() as int) =~= a@);
    assert(b@.subrange(0, b@.len() as int) =~= b@);
    while i < a.len() && i < b.len()
        invariant
            i <= a@.len(),
            i <= b@.len(),
            cmp_entries(a@, b@) == cmp_entries(
                a@.subrange(i as int, a@.len() as int),
                b@.subrange(i as int, b@.len() as int),
            ),
        decreases a@.len() - i,
    {
        let c = compare(&a[i].0, &b[i].0);
        if c != 0 {
            return c;
        }
        let c = compare(&a[i].1, &b[i].1);
        if c != 0 {
            return c;
        }
        proof {
            let sa = a@.subrange(i as int, a@.len() as int);
            let sb = b@.subrange(i as int, b@.len() as int);
            assert(sa.subrange(1, sa.len() as int) =~= a@.subrange(i + 1, a@.len() as int));
            assert(sb.subrange(1, sb.len() as int) =~= b@.subrange(i + 1, b@.len() as int));
        }
        i = i + 1;
    }
    if i < b.len() {
        -1
    } else if i < a.len() {
        1
    } else {
        0
    }
}

/// Map entries stand in strictly increasing order of key.
pub open spec fn keys_sorted(e: Seq<(Value, Value)>) -> bool {
    forall|i: int| 0 <= i < e.len() - 1 ==> #[trigger] cmp_value(e[i].0, e[i + 1].0) == -1
}

/// The entries after adding `k: v`: the first entry whose key is not below
/// `k` decides. An equal key keeps its place and takes the value `v`; a
/// greater one, or the end, gets the new entry before it.
pub open spec fn insert_entry(e: Seq<(Value, Value)>, k: Value, v: Value) -> Seq<(Value, Value)>
    decreases e.len(),
{
    if e.len() == 0 {
        seq![(k, v)]
    } else if cmp_value(k, e[0].0) == 1 {
        seq![e[0]] + insert_entry(e.subrange(1, e.len() as int), k, v)
    } else if cmp_value(k, e[0].0) == 0 {
        seq![(e[0].0, v)] + e.subrange(1, e.len() as int)
    } else {
        seq![(k, v)] + e
    }
}

proof fn lemma_insert_cons(x: (Value, Value), t: Seq<(Value, Value)>, k: Value, v: Value)
    ensures
        insert_entry(seq![x] + t, k, v) == (if cmp_value(k, x.0) == 1 {
            seq![x] + insert_entry(t, k, v)
        } else if cmp_value(k, x.0) == 0 {
            seq![(x.0, v)] + t
        } else {
            seq![(k, v)] + (seq![x] + t)
        }),
{
    let e = seq![x] + t;
    assert(e.subrange(1, e.len() as int) =~= t);
}

proof fn lemma_insert_entry_at(e: Seq<(Value, Value)>, k: Value, v: Value, i: int)
    requires
        0 <= i <= e.len(),
        forall|j: int| 0 <= j < i ==> cmp_value(k, #[trigger] e[j].0) == 1,
        i < e.len() ==> cmp_value(k, e[i].0) == 0 || cmp_value(k, e[i].0) == -1,
    ensures
        insert_entry(e, k, v) == (if i < e.len() && cmp_value(k, e[i].0) == 0 {
            e.update(i, (e[i].0, v))
        } else {
            e.insert(i, (k, v))
        }),
    decreases i,
{
    if i == 0 {
        if e.len() > 0 && cmp_value(k, e[0].0) == 0 {
            assert(seq![(e[0].0, v)] + e.subrange(1, e.len() as int) =~= e.update(0, (e[0].0, v)));
        } else {
            assert(seq![(k, v)] + e =~= e.insert(0, (k, v)));
        }
    } else {
        let t = e.subrange(1, e.len() as int);
        assert forall|j: int| 0 <= j < i - 1 implies cmp_value(k, #[trigger] t[j].0) == 1 by {
            assert(t[j] == e[j + 1]);
        }
        lemma_insert_entry_at(t, k, v, i - 1);
        if i < e.len() && cmp_value(k, e[i].0) == 0 {
            assert(seq![e[0]] + t.update(i - 1, (t[i - 1].0, v)) =~= e.update(i, (e[i].0, v)));
        } else {
            assert(seq![e[0]] + t.insert(i - 1, (k, v)) =~= e.insert(i, (k, v)));
        }
    }
}

/// Entries with different keys may be added in either order: the stored
/// entries come out the same. A map's layout therefore follows from the
/// keys and values it holds, not from the order in which the text gave them.
pub proof fn lemma_insert_commutes(e: Seq<(Value, Value)>, k1: Value, v1: Value, k2: Value, v2: Value)
    requires
        cmp_value(k1, k2) != 0,
    ensures
        insert_entry(insert_entry(e, k1, v1), k2, v2) == insert_entry(insert_entry(e, k2, v2), k1, v1),
    decreases e.len(),
{
    lemma_cmp_antisym(k1, k2);
    let empty = Seq::<(Value, Value)>::empty();
    if e.len() == 0 {
        assert(seq![(k1, v1)] =~= seq![(k1, v1)] + empty);
        assert(seq![(k2, v2)] =~= seq![(k2, v2)] + empty);
        lemma_insert_cons((k1, v1), empty, k2, v2);
        lemma_insert_cons((k2, v2), empty, k1, v1);
        assert(seq![(k1, v1)] + seq![(k2, v2)] =~= seq![(k1, v1)] + (seq![(k2, v2)] + empty));
        assert(seq![(k2, v2)] + seq![(k1, v1)] =~= seq![(k2, v2)] + (seq![(k1, v1)] + empty));
    } else {
        let x = e[0];
        let t = e.subrange(1, e.len() as int);
        assert(e =~= seq![x] + t);
        lemma_cmp_trans(k1, x.0, k2);
        lemma_cmp_antisym(k1, x.0);
        lemma_cmp_antisym(k2, x.0);
        lemma_insert_cons(x, t, k1, v1);
        lemma_insert_cons(x, t, k2, v2);
        lemma_insert_cons(x, insert_entry(t, k1, v1), k2, v2);
        lemma_insert_cons(x, insert_entry(t, k2, v2), k1, v1);
        lemma_insert_cons((x.0, v1), t, k2, v2);
        lemma_insert_cons((x.0, v2), t, k1, v1);
        lemma_insert_cons((k1, v1), e, k2, v2);
        lemma_insert_cons((k2, v2), e, k1, v1);
        lemma_insert_commutes(t, k1, v1, k2, v2);
        if cmp_value(k1, x.0) == -1 && cmp_value(k2, x.0) == -1 {
            assert(seq![(k1, v1)] + (seq![(k2, v2)] + e) =~= seq![(k1, v1)] + seq![(k2, v2)] + e);
            assert(seq![(k2, v2)] + (seq![(k1, v1)] + e) =~= seq![(k2, v2)] + seq![(k1, v1)] + e);
        }
        assert(seq![(k1, v1)] + (seq![x] + insert_entry(t, k2, v2)) =~= seq![(k1, v1)] + seq![x] + insert_entry(t, k2, v2));
        assert(seq![(k2, v2)] + (seq![x] + insert_entry(t, k1, v1)) =~= seq![(k2, v2)] + seq![x] + insert_entry(t, k1, v1));
    }
}

/// Adds the entry `k: v` to sorted entries. Where a key equal to `k` in the
/// value order is present, its value becomes `v` and the key stays;
/// otherwise the entry goes where the order puts it. Gives the index of the
/// entry.
pub fn dict_insert(entries: &mut Vec<(Value, Value)>, k: Value, v: Value) -> (r: usize)
    requires
        keys_sorted(old(entries)@),
    ensures
        keys_sorted(final(entries)@),
        final(entries)@ == insert_entry(old(entries)@, k, v),
        r <= old(entries)@.len(),
        forall|i: int| 0 <= i < r ==> cmp_value(k, #[trigger] old(entries)@[i].0) == 1,
        if r < old(entries)@.len() && cmp_value(k, old(entries)@[r as int].0) == 0 {
            final(entries)@ == old(entries)@.update(r as int, (old(entries)@[r as int].0, v))
        } else {
            &&& r < old(entries)@.len() ==> cmp_value(k, old(entries)@[r as int].0) == -1
            &&& final(entries)@ == old(entries)@.insert(r as int, (k, v))
        },
{
    let mut i: usize = 0;
    while i < entries.len() && compare(&k, &entries[i].0) == 1
        invariant
            i <= entries@.len(),
            entries@ == old(entries)@,
            forall|j: int| 0 <= j < i ==> cmp_value(k, #[trigger] entries@[j].0) == 1,
        decreases entries@.len() - i,
    {
        i = i + 1;
    }
    let c: i8 = if i < entries.len() {
        compare(&k, &entries[i].0)
    } else {
        -1
    };
    proof {
        if i < entries@.len() {
            lemma_cmp_antisym(k, entries@[i as int].0);
        }
    }
    proof {
        lemma_insert_entry_at(entries@, k, v, i as int);
    }
    if c == 0 {
        let (key, _) = entries.remove(i);
        entries.insert(i, (key, v));
        proof {
            assert(final(entries)@ =~= old(entries)@.update(i as int, (old(entries)@[i as int].0, v)));
        }
        return i;
    }
    proof {
        if i > 0 {
            lemma_cmp_antisym(k, entries@[i - 1].0);
        }
    }
    entries.insert(i, (k, v));
    proof {
        let e = entries@;
        assert forall|j: int| 0 <= j < e.len() - 1 implies #[trigger] cmp_value(e[j].0, e[j + 1].0) == -1 by {
            let o = old(entries)@;
            if j + 1 < i {
                assert(e[j] == o[j] && e[j + 1] == o[j + 1]);
                assert(cmp_value(o[j].0, o[j + 1].0) == -1);
            } else if j + 1 == i {
                assert(e[j] == o[j] && e[j + 1] == (k, v));
                assert(cmp_value(k, o[j].0) == 1);
                assert(cmp_value(o[j].0, k) == -1);
            } else if j == i {
                assert(e[j] == (k, v) && e[j + 1] == o[j]);
                assert(cmp_value(k, o[j].0) == -1);
            } else {
                let jj = j - 1;
                assert(e[j] == o[jj] && e[j + 1] == o[jj + 1]);
                assert(cmp_value(o[jj].0, o[jj + 1].0) == -1);
            }
        }
    }
    i
}

/// Measures what is left of the input, for the decoder's recursion.
pub open spec fn left(de: &Deserializer) -> int {
    de.input().len() - de.cursor()
}

/// The bytes of `lit`, compared with `a`.
fn bytes_are(a: &Vec<u8>, lit: &str) -> (r: bool)
    ensures
        r == (a@ == lit.spec_bytes()),
{
    let b = lit.as_bytes();
    if a.len() != b.len() {
        return false;
    }
    let mut i: usize = 0;
    while i < a.len()
        invariant
            a@.len() == b@.len(),
            b@ == lit.spec_bytes(),
            i <= a@.len(),
            forall|j: int| 0 <= j < i ==> a@[j] == b@[j],
        decreases a@.len() - i,
    {
        if a[i] != b[i] {
            return false;
        }
        i = i + 1;
    }
    assert(a@ =~= b@);
    true
}

/// Where a record field name at `p` ends.
pub open spec fn field_end(s: Seq<u8>, p: int) -> Result<int> {
    let q = ws_end(s, p);
    if 0 <= q < s.len() && is_ident_start(s[q]) && utf8_decode(s.subrange(q, ident_end(s, q))) is Some {
        Ok(ident_end(s, q))
    } else {
        Err(Error::ExpectedIdentifier)
    }
}

/// Where the value that starts at `i` ends, or the error that decoding it
/// gives. The next significant byte picks the shape: `[` a sequence, `{` a
/// map, `(` a parenthesised form, `"` a string, `'` a character, a digit or
/// sign a number. An identifier is `Some(..)`, `None`, `true`, `false`, or a
/// name; a name followed by `(` introduces a parenthesised form.
pub open spec fn value_end(s: Seq<u8>, i: int) -> Result<int>
    decreases s.len() - i, 1int,
{
    let n = ws_end(s, i);
    if !(0 <= n < s.len()) {
        Err(Error::Eof)
    } else if s[n] == 91 {
        match items_end(s, n + 1, 93, true) {
            Ok(p) => closed(s, p, 93, Error::ExpectedArrayEnd),
            Err(x) => Err(x),
        }
    } else if s[n] == 123 {
        match entries_end(s, n + 1, 125, true, false) {
            Ok(p) => closed(s, p, 125, Error::ExpectedMapEnd),
            Err(x) => Err(x),
        }
    } else if s[n] == 40 {
        paren_end(s, n)
    } else if s[n] == 34 {
        match string_lit(s, n) {
            Some((_, e)) => Ok(e),
            None => Err(Error::ExpectedString),
        }
    } else if s[n] == 39 {
        match char_lit(s, n) {
            Ok((_, e)) => Ok(e),
            Err(x) => Err(x),
        }
    } else if is_digit(s[n]) || s[n] == 45 || s[n] == 43 {
        match number_lit(s, n) {
            Some((_, e)) => Ok(e),
            None => Err(Error::ExpectedFloat),
        }
    } else if !is_ident_start(s[n]) {
        Err(Error::Syntax)
    } else {
        let e = ident_end(s, n);
        let id = s.subrange(n, e);
        if id == "None".spec_bytes() || id == "true".spec_bytes() || id == "false".spec_bytes() {
            Ok(e)
        } else if sig_is(s, e, 40) {
            if id == "Some".spec_bytes() {
                match value_end(s, ws_end(s, e) + 1) {
                    Ok(q) => if sig_is(s, q, 41) {
                        Ok(ws_end(s, q) + 1)
                    } else {
                        Err(Error::ExpectedOptionEnd)
                    },
                    Err(x) => Err(x),
                }
            } else {
                paren_end(s, ws_end(s, e))
            }
        } else {
            Ok(ws_end(s, e))
        }
    }
}

/// The parenthesised form whose `(` stands at `n`: `()`, a record
/// `(f: v, ..)` where a name and a colon come first, else a tuple.
pub open spec fn paren_end(s: Seq<u8>, n: int) -> Result<int>
    decreases s.len() - n, 0int,
{
    let q = ws_end(s, n + 1);
    if !(0 <= n < s.len()) {
        Err(Error::Syntax)
    } else if sig_is(s, n + 1, 41) {
        closed(s, q, 41, Error::ExpectedArrayEnd)
    } else if 0 <= q < s.len() && is_ident_start(s[q]) && sig_is(s, ident_end(s, q), 58) {
        match entries_end(s, q, 41, true, true) {
            Ok(p) => closed(s, p, 41, Error::ExpectedStructEnd),
            Err(x) => Err(x),
        }
    } else {
        match items_end(s, q, 41, true) {
            Ok(p) => closed(s, p, 41, Error::ExpectedArrayEnd),
            Err(x) => Err(x),
        }
    }
}

/// The items of a sequence or tuple from `i` up to `term`: where the run
/// ends (at `term`), or its error.
pub open spec fn items_end(s: Seq<u8>, i: int, term: u8, first: bool) -> Result<int>
    decreases s.len() - i, if first {
        2int
    } else {
        0int
    },
{
    let (r, p) = item_step(s, i, term, first, Error::ExpectedArrayComma);
    match r {
        Err(x) => Err(x),
        Ok(false) => Ok(p),
        Ok(true) => if p < i {
            Err(Error::Syntax)
        } else {
            match value_end(s, p) {
                Err(x) => Err(x),
                Ok(e) => if i < e <= s.len() {
                    items_end(s, e, term, false)
                } else {
                    Err(Error::Syntax)
                },
            }
        },
    }
}

/// The entries of a map (keys are values) or a record (keys are field
/// names) from `i` up to `term`: where the run ends, or its error.
pub open spec fn entries_end(s: Seq<u8>, i: int, term: u8, first: bool, record: bool) -> Result<int>
    decreases s.len() - i, if first {
        2int
    } else {
        0int
    },
{
    let (r, p) = item_step(s, i, term, first, Error::ExpectedMapComma);
    match r {
        Err(x) => Err(x),
        Ok(false) => Ok(p),
        Ok(true) => if p < i {
            Err(Error::Syntax)
        } else {
            let k = if record {
                field_end(s, p)
            } else {
                value_end(s, p)
            };
            match k {
                Err(x) => Err(x),
                Ok(ke) => if ke < p {
                    Err(Error::Syntax)
                } else if !sig_is(s, ke, 58) {
                    Err(Error::ExpectedMapColon)
                } else {
                    match value_end(s, ws_end(s, ws_end(s, ke) + 1)) {
                        Err(x) => Err(x),
                        Ok(ve) => if i < ve <= s.len() {
                            entries_end(s, ve, term, false, record)
                        } else {
                            Err(Error::Syntax)
                        },
                    }
                },
            }
        },
    }
}

/// `v` is the value that the text at `i` decodes to, as `parse_value` builds
/// it: names before a parenthesised form and the names of unit values are
/// dropped, a parenthesised form with one element is that element, and a
/// record is a map from field names to values.
pub open spec fn value_decoded(s: Seq<u8>, i: int, v: Value) -> bool
    decreases s.len() - i, 1int,
{
    let n = ws_end(s, i);
    if !(0 <= n < s.len()) {
        false
    } else if s[n] == 91 {
        v is List && list_decoded(s, n + 1, 93, true, v->List_0@)
    } else if s[n] == 123 {
        v is Dict && dict_decoded(s, n + 1, 125, true, false, Seq::empty(), v->Dict_0@)
    } else if s[n] == 40 {
        paren_decoded(s, n, v)
    } else if s[n] == 34 {
        match string_lit(s, n) {
            Some((t, _)) => v is String && v->String_0@ == t,
            None => false,
        }
    } else if s[n] == 39 {
        match char_lit(s, n) {
            Ok((b, _)) => v == Value::Char(b as char),
            Err(_) => false,
        }
    } else if is_digit(s[n]) || s[n] == 45 || s[n] == 43 {
        match number_lit(s, n) {
            Some((m, _)) => v is Number && v->Number_0.spec_get() == m,
            None => false,
        }
    } else if !is_ident_start(s[n]) {
        false
    } else {
        let e = ident_end(s, n);
        let id = s.subrange(n, e);
        if id == "None".spec_bytes() {
            v == Value::Option(None)
        } else if id == "true".spec_bytes() {
            v == Value::Bool(true)
        } else if id == "false".spec_bytes() {
            v == Value::Bool(false)
        } else if sig_is(s, e, 40) {
            if id == "Some".spec_bytes() {
                v is Option && v->Option_0 is Some && value_decoded(
                    s,
                    ws_end(s, e) + 1,
                    *v->Option_0->Some_0,
                )
            } else {
                paren_decoded(s, ws_end(s, e), v)
            }
        } else {
            v == Value::Unit
        }
    }
}

/// `v` is what the parenthesised form whose `(` stands at `n` decodes to.
pub open spec fn paren_decoded(s: Seq<u8>, n: int, v: Value) -> bool
    decreases s.len() - n, 0int,
{
    let q = ws_end(s, n + 1);
    if !(0 <= n < s.len()) {
        false
    } else if sig_is(s, n + 1, 41) {
        v == Value::Unit
    } else if 0 <= q < s.len() && is_ident_start(s[q]) && sig_is(s, ident_end(s, q), 58) {
        v is Dict && dict_decoded(s, q, 41, true, true, Seq::empty(), v->Dict_0@)
    } else {
        list_decoded(s, q, 41, true, seq![v]) || (v is List && v->List_0@.len() != 1
            && list_decoded(s, q, 41, true, v->List_0@))
    }
}

/// `vs` are the items of a sequence or tuple from `i` up to `term`, in
/// order.
pub open spec fn list_decoded(s: Seq<u8>, i: int, term: u8, first: bool, vs: Seq<Value>) -> bool
    decreases s.len() - i, if first {
        2int
    } else {
        0int
    },
{
    let (r, p) = item_step(s, i, term, first, Error::ExpectedArrayComma);
    match r {
        Err(_) => false,
        Ok(false) => vs.len() == 0,
        Ok(true) => if p < i {
            false
        } else {
            vs.len() > 0 && value_decoded(s, p, vs[0]) && match value_end(s, p) {
                Ok(e) => if i < e <= s.len() {
                    list_decoded(s, e, term, false, vs.subrange(1, vs.len() as int))
                } else {
                    false
                },
                Err(_) => false,
            }
        },
    }
}

/// `k` is the key that the text at `p` decodes to: a field name as a string
/// in a record, a value in a map.
pub open spec fn key_decoded(s: Seq<u8>, p: int, record: bool, k: Value) -> bool
    decreases s.len() - p, 2int,
{
    if record {
        let q = ws_end(s, p);
        k is String && utf8_decode(s.subrange(q, ident_end(s, q))) is Some && k->String_0@
            == utf8_decode(s.subrange(q, ident_end(s, q)))->0
    } else {
        value_decoded(s, p, k)
    }
}

/// `out` is what the entries from `i` up to `term` make when each is added,
/// in text order, to the entries `acc`.
pub open spec fn dict_decoded(
    s: Seq<u8>,
    i: int,
    term: u8,
    first: bool,
    record: bool,
    acc: Seq<(Value, Value)>,
    out: Seq<(Value, Value)>,
) -> bool
    decreases s.len() - i, if first {
        3int
    } else {
        0int
    },
{
    let (r, p) = item_step(s, i, term, first, Error::ExpectedMapComma);
    match r {
        Err(_) => false,
        Ok(false) => out == acc,
        Ok(true) => if p < i {
            false
        } else {
            let k = if record {
                field_end(s, p)
            } else {
                value_end(s, p)
            };
            match k {
                Err(_) => false,
                Ok(ke) => if ke < p || !sig_is(s, ke, 58) {
                    false
                } else {
                    let vs = ws_end(s, ws_end(s, ke) + 1);
                    match value_end(s, vs) {
                        Err(_) => false,
                        Ok(ve) => if i < ve <= s.len() {
                            exists|kv: Value, vv: Value|
                                key_decoded(s, p, record, kv) && value_decoded(s, vs, vv)
                                    && dict_decoded(
                                    s,
                                    ve,
                                    term,
                                    false,
                                    record,
                                    #[trigger] insert_entry(acc, kv, vv),
                                    out,
                                )
                        } else {
                            false
                        },
                    }
                },
            }
        },
    }
}

/// Decodes one value of any shape, as `value_end` lays out: names before a
/// parenthesised form, and the names of unit values, are dropped; a
/// parenthesised form with one element is that element; a record becomes a
/// map from field names to values.
pub fn parse_value(de: &mut Deserializer) -> (r: Result<Value>)
    requires
        old(de).wf(),
    ensures
        final(de).wf(),
        final(de).input() == old(de).input(),
        agrees(r, value_end(old(de).input(), old(de).cursor()), final(de).cursor()),
        r is Ok ==> value_decoded(old(de).input(), old(de).cursor(), r->Ok_0),
        r is Ok ==> final(de).cursor() > old(de).next_sig(),
        r is Ok && r->Ok_0 is Dict ==> keys_sorted(r->Ok_0->Dict_0@),
        ({
            let s = old(de).input();
            let c = old(de).cursor();
            &&& sig_is(s, c, 34) ==> match string_lit(s, ws_end(s, c)) {
                Some((t, e)) => r is Ok && r->Ok_0 is String && r->Ok_0->String_0@ == t,
                None => true,
            }
            &&& sig_is(s, c, 39) ==> match char_lit(s, ws_end(s, c)) {
                Ok((b, e)) => r == Ok::<Value, Error>(Value::Char(b as char)),
                Err(_) => true,
            }
            &&& (sig_is(s, c, 45) || sig_is(s, c, 43) || (ws_end(s, c) < s.len() && is_digit(
                s[ws_end(s, c)],
            ))) ==> match number_lit(s, ws_end(s, c)) {
                Some((m, e)) => r is Ok && r->Ok_0 is Number && r->Ok_0->Number_0.spec_get() == m,
                None => true,
            }
            &&& sig_is(s, c, 91) ==> (r is Ok ==> r->Ok_0 is List)
            &&& sig_is(s, c, 123) ==> (r is Ok ==> r->Ok_0 is Dict)
        }),
    decreases left(old(de)), 1int,
{
    de.skip_ws();
    let b = match de.peek() {
        Some(b) => b,
        None => {
            return Err(Error::Eof);
        },
    };
    if b == 91 {
        parse_list(de)
    } else if b == 123 {
        parse_dict(de)
    } else if b == 40 {
        parse_paren(de)
    } else if b == 34 {
        let r = match de.parse_string() {
            Ok(t) => Ok(Value::String(t)),
            Err(e) => Err(e),
        };
        r
    } else if b == 39 {
        let r = match de.parse_char() {
            Ok(ch) => Ok(Value::Char(ch)),
            Err(e) => Err(e),
        };
        r
    } else if (48 <= b && b <= 57) || b == 45 || b == 43 {
        let r = match de.parse_number() {
            Ok(m) => Ok(Value::Number(m)),
            Err(e) => Err(e),
        };
        r
    } else {
        let name = match de.parse_identifier() {
            Ok(name) => name,
            Err(_) => {
                return Err(Error::Syntax);
            },
        };
        if bytes_are(&name, "None") {
            Ok(Value::Option(None))
        } else if bytes_are(&name, "true") {
            Ok(Value::Bool(true))
        } else if bytes_are(&name, "false") {
            Ok(Value::Bool(false))
        } else if sig_byte(de, 40) {
            if bytes_are(&name, "Some") {
                de.expect_byte(40, Error::ExpectedOption)?;
                let inner = parse_value(de)?;
                de.expect_byte(41, Error::ExpectedOptionEnd)?;
                Ok(Value::Option(Some(Box::new(inner))))
            } else {
                parse_paren(de)
            }
        } else {
            Ok(Value::Unit)
        }
    }
}

/// Whether the next significant byte is `b`; only skips whitespace.
fn sig_byte(de: &mut Deserializer, b: u8) -> (r: bool)
    requires
        old(de).wf(),
    ensures
        final(de).moved(old(de), old(de).next_sig()),
        r == sig_is(old(de).input(), old(de).cursor(), b),
{
    de.skip_ws();
    de.peek() == Some(b)
}

/// `[ v, .. ]`
fn parse_list(de: &mut Deserializer) -> (r: Result<Value>)
    requires
        old(de).wf(),
        sig_is(old(de).input(), old(de).cursor(), 91),
    ensures
        final(de).wf(),
        final(de).input() == old(de).input(),
        ({
            let s = old(de).input();
            let n = old(de).next_sig();
            agrees(
                r,
                match items_end(s, n + 1, 93, true) {
                    Ok(p) => closed(s, p, 93, Error::ExpectedArrayEnd),
                    Err(x) => Err(x),
                },
                final(de).cursor(),
            )
        }),
        r is Ok ==> final(de).cursor() > old(de).next_sig(),
        r is Ok ==> r->Ok_0 is List && list_decoded(
            old(de).input(),
            old(de).next_sig() + 1,
            93,
            true,
            r->Ok_0->List_0@,
        ),
    decreases left(old(de)), 0int,
{
    let s = Ghost(old(de).input());
    let n = Ghost(old(de).next_sig());
    de.seq_start()?;
    let mut items: Vec<Value> = Vec::new();
    let mut it = CommaSeparated::new(93);
    loop
        invariant
            de.wf(),
            de.input() == s@,
            s@ == old(de).input(),
            n@ == old(de).next_sig(),
            n@ >= old(de).cursor(),
            de.cursor() > n@,
            it.terminator == 93,
            items_end(s@, n@ + 1, 93, true) == items_end(s@, de.cursor(), 93, it.first),
            forall|tail: Seq<Value>|
                #[trigger] list_decoded(s@, de.cursor(), 93, it.first, tail) ==> list_decoded(
                    s@,
                    n@ + 1,
                    93,
                    true,
                    items@ + tail,
                ),
        ensures
            de.wf(),
            de.input() == s@,
            de.cursor() > n@,
            items_end(s@, n@ + 1, 93, true) == Ok::<int, Error>(de.cursor()),
            list_decoded(s@, n@ + 1, 93, true, items@),
        decreases left(de),
    {
        let cur = Ghost(de.cursor());
        let first = Ghost(it.first);
        let old_items = Ghost(items@);
        if !it.next_element(de)? {
            proof {
                let t = Seq::<Value>::empty();
                assert(list_decoded(s@, cur@, 93, first@, t));
                assert(list_decoded(s@, n@ + 1, 93, true, old_items@ + t));
                assert(old_items@ + t =~= old_items@);
                assert(items_end(s@, cur@, 93, first@) == Ok::<int, Error>(de.cursor()));
            }
            break;
        }
        let v = parse_value(de)?;
        items.push(v);
        proof {
            assert forall|tail: Seq<Value>|
                #[trigger] list_decoded(s@, de.cursor(), 93, false, tail) implies list_decoded(
                s@,
                n@ + 1,
                93,
                true,
                items@ + tail,
            ) by {
                let vt = seq![v] + tail;
                assert(vt.subrange(1, vt.len() as int) =~= tail);
                assert(list_decoded(s@, cur@, 93, first@, vt));
                assert(old_items@ + vt =~= items@ + tail);
            }
        }
    }
    de.seq_end()?;
    Ok(Value::List(items))
}

/// `{ k: v, .. }`
fn parse_dict(de: &mut Deserializer) -> (r: Result<Value>)
    requires
        old(de).wf(),
        sig_is(old(de).input(), old(de).cursor(), 123),
    ensures
        final(de).wf(),
        final(de).input() == old(de).input(),
        ({
            let s = old(de).input();
            let n = old(de).next_sig();
            agrees(
                r,
                match entries_end(s, n + 1, 125, true, false) {
                    Ok(p) => closed(s, p, 125, Error::ExpectedMapEnd),
                    Err(x) => Err(x),
                },
                final(de).cursor(),
            )
        }),
        r is Ok ==> final(de).cursor() > old(de).next_sig(),
        r is Ok ==> r->Ok_0 is Dict && keys_sorted(r->Ok_0->Dict_0@) && dict_decoded(
            old(de).input(),
            old(de).next_sig() + 1,
            125,
            true,
            false,
            Seq::empty(),
            r->Ok_0->Dict_0@,
        ),
    decreases left(old(de)), 0int,
{
    let s = Ghost(old(de).input());
    let n = Ghost(old(de).next_sig());
    de.map_start()?;
    let mut entries: Vec<(Value, Value)> = Vec::new();
    let mut it = CommaSeparated::new(125);
    loop
        invariant
            de.wf(),
            de.input() == s@,
            s@ == old(de).input(),
            n@ == old(de).next_sig(),
            n@ >= old(de).cursor(),
            de.cursor() > n@,
            it.terminator == 125,
            keys_sorted(entries@),
            entries_end(s@, n@ + 1, 125, true, false) == entries_end(s@, de.cursor(), 125, it.first, false),
            forall|out: Seq<(Value, Value)>|
                #[trigger] dict_decoded(s@, de.cursor(), 125, it.first, false, entries@, out)
                    ==> dict_decoded(s@, n@ + 1, 125, true, false, Seq::empty(), out),
        ensures
            de.wf(),
            de.input() == s@,
            de.cursor() > n@,
            keys_sorted(entries@),
            entries_end(s@, n@ + 1, 125, true, false) == Ok::<int, Error>(de.cursor()),
            dict_decoded(s@, n@ + 1, 125, true, false, Seq::empty(), entries@),
        decreases left(de),
    {
        let cur = Ghost(de.cursor());
        let first = Ghost(it.first);
        let old_entries = Ghost(entries@);
        if !it.next_key(de)? {
            proof {
                assert(dict_decoded(s@, cur@, 125, first@, false, old_entries@, old_entries@));
                assert(entries_end(s@, cur@, 125, first@, false) == Ok::<int, Error>(de.cursor()));
            }
            break;
        }
        let p = Ghost(de.cursor());
        let k = parse_value(de)?;
        it.next_value(de)?;
        let vs = Ghost(de.cursor());
        let v = parse_value(de)?;
        dict_insert(&mut entries, k, v);
        proof {
            assert forall|out: Seq<(Value, Value)>|
                #[trigger] dict_decoded(s@, de.cursor(), 125, false, false, entries@, out) implies dict_decoded(
                s@,
                n@ + 1,
                125,
                true,
                false,
                Seq::empty(),
                out,
            ) by {
                assert(key_decoded(s@, p@, false, k));
                assert(value_decoded(s@, vs@, v));
                assert(entries@ == insert_entry(old_entries@, k, v));
                assert(dict_decoded(s@, cur@, 125, first@, false, old_entries@, out));
            }
        }
    }
    de.map_end()?;
    Ok(Value::Dict(entries))
}

/// The parenthesised form at the cursor: `()` is a unit, a single element is
/// that element, `(f: v, ..)` a record whose field names become string keys,
/// and anything else a tuple.
#[verifier::rlimit(40)]
fn parse_paren(de: &mut Deserializer) -> (r: Result<Value>)
    requires
        old(de).wf(),
        sig_is(old(de).input(), old(de).cursor(), 40),
    ensures
        final(de).wf(),
        final(de).input() == old(de).input(),
        agrees(r, paren_end(old(de).input(), old(de).next_sig()), final(de).cursor()),
        r is Ok ==> final(de).cursor() > old(de).next_sig(),
        r is Ok && r->Ok_0 is Dict ==> keys_sorted(r->Ok_0->Dict_0@),
        r is Ok ==> paren_decoded(old(de).input(), old(de).next_sig(), r->Ok_0),
    decreases left(old(de)), 0int,
{
    let s = Ghost(old(de).input());
    let n = Ghost(old(de).next_sig());
    de.expect_byte(40, Error::ExpectedArray)?;
    if sig_byte(de, 41) {
        de.tuple_end()?;
        return Ok(Value::Unit);
    }
    let start = de.position();
    let is_record = match de.parse_identifier() {
        Ok(_) => sig_byte(de, 58),
        Err(_) => false,
    };
    de.rewind(start);
    proof {
        let q = ws_end(s@, n@ + 1);
        assert(start as int == q);
        assert(is_record == (0 <= q < s@.len() && is_ident_start(s@[q]) && sig_is(
            s@,
            ident_end(s@, q),
            58,
        )));
    }
    if is_record {
        let mut entries: Vec<(Value, Value)> = Vec::new();
        let mut it = CommaSeparated::new(41);
        loop
            invariant
                de.wf(),
                de.input() == s@,
                s@ == old(de).input(),
                n@ == old(de).next_sig(),
                n@ >= old(de).cursor(),
                de.cursor() > n@,
                it.terminator == 41,
                start as int == ws_end(s@, n@ + 1),
                keys_sorted(entries@),
                paren_end(s@, n@) == match entries_end(s@, start as int, 41, true, true) {
                    Ok(p) => closed(s@, p, 41, Error::ExpectedStructEnd),
                    Err(x) => Err(x),
                },
                entries_end(s@, start as int, 41, true, true) == entries_end(s@, de.cursor(), 41, it.first, true),
                forall|out: Seq<(Value, Value)>|
                    #[trigger] dict_decoded(s@, de.cursor(), 41, it.first, true, entries@, out)
                        ==> dict_decoded(s@, start as int, 41, true, true, Seq::empty(), out),
            ensures
                de.wf(),
                de.input() == s@,
                de.cursor() > n@,
                keys_sorted(entries@),
                entries_end(s@, start as int, 41, true, true) == Ok::<int, Error>(de.cursor()),
                dict_decoded(s@, start as int, 41, true, true, Seq::empty(), entries@),
            decreases left(de),
        {
            let cur = Ghost(de.cursor());
            let first = Ghost(it.first);
            let old_entries = Ghost(entries@);
            if !it.next_key(de)? {
                proof {
                    assert(dict_decoded(s@, cur@, 41, first@, true, old_entries@, old_entries@));
                    assert(entries_end(s@, cur@, 41, first@, true) == Ok::<int, Error>(de.cursor()));
                }
                break;
            }
            let p = Ghost(de.cursor());
            let field = de.parse_identifier()?;
            let key = match text_from_utf8(field) {
                Some(t) => Value::String(t),
                None => {
                    return Err(Error::ExpectedIdentifier);
                },
            };
            it.next_value(de)?;
            let vs = Ghost(de.cursor());
            let v = parse_value(de)?;
            dict_insert(&mut entries, key, v);
            proof {
                assert forall|out: Seq<(Value, Value)>|
                    #[trigger] dict_decoded(s@, de.cursor(), 41, false, true, entries@, out) implies dict_decoded(
                    s@,
                    start as int,
                    41,
                    true,
                    true,
                    Seq::empty(),
                    out,
                ) by {
                    assert(key_decoded(s@, p@, true, key));
                    assert(value_decoded(s@, vs@, v));
                    assert(entries@ == insert_entry(old_entries@, key, v));
                    assert(dict_decoded(s@, cur@, 41, first@, true, old_entries@, out));
                }
            }
        }
        de.struct_end()?;
        return Ok(Value::Dict(entries));
    }
    let mut items: Vec<Value> = Vec::new();
    let mut it = CommaSeparated::new(41);
    loop
        invariant
            de.wf(),
            de.input() == s@,
            s@ == old(de).input(),
            n@ == old(de).next_sig(),
            n@ >= old(de).cursor(),
            de.cursor() > n@,
            it.terminator == 41,
            start as int == ws_end(s@, n@ + 1),
            !is_record,
            paren_end(s@, n@) == match items_end(s@, start as int, 41, true) {
                Ok(p) => closed(s@, p, 41, Error::ExpectedArrayEnd),
                Err(x) => Err(x),
            },
            items_end(s@, start as int, 41, true) == items_end(s@, de.cursor(), 41, it.first),
            forall|tail: Seq<Value>|
                #[trigger] list_decoded(s@, de.cursor(), 41, it.first, tail) ==> list_decoded(
                    s@,
                    start as int,
                    41,
                    true,
                    items@ + tail,
                ),
            forall|j: int|
                0 <= j < items@.len() ==> (#[trigger] items@[j] is Dict ==> keys_sorted(
                    items@[j]->Dict_0@,
                )),
        ensures
            de.wf(),
            de.input() == s@,
            de.cursor() > n@,
            items_end(s@, start as int, 41, true) == Ok::<int, Error>(de.cursor()),
            list_decoded(s@, start as int, 41, true, items@),
            forall|j: int|
                0 <= j < items@.len() ==> (#[trigger] items@[j] is Dict ==> keys_sorted(
                    items@[j]->Dict_0@,
                )),
        decreases left(de),
    {
        let cur = Ghost(de.cursor());
        let first = Ghost(it.first);
        let old_items = Ghost(items@);
        if !it.next_element(de)? {
            proof {
                let t = Seq::<Value>::empty();
                assert(list_decoded(s@, cur@, 41, first@, t));
                assert(list_decoded(s@, start as int, 41, true, old_items@ + t));
                assert(old_items@ + t =~= old_items@);
                assert(items_end(s@, cur@, 41, first@) == Ok::<int, Error>(de.cursor()));
            }
            break;
        }
        let v = parse_value(de)?;
        items.push(v);
        proof {
            assert forall|tail: Seq<Value>|
                #[trigger] list_decoded(s@, de.cursor(), 41, false, tail) implies list_decoded(
                s@,
                start as int,
                41,
                true,
                items@ + tail,
            ) by {
                let vt = seq![v] + tail;
                assert(vt.subrange(1, vt.len() as int) =~= tail);
                assert(list_decoded(s@, cur@, 41, first@, vt));
                assert(old_items@ + vt =~= items@ + tail);
            }
        }
    }
    de.tuple_end()?;
    if items.len() == 1 {
        proof {
            assert(items@ =~= seq![items@[0]]);
        }
        let v = items.pop().unwrap();
        return Ok(v);
    }
    Ok(Value::List(items))
}

impl Value {
    /// Decodes a value of any shape from the whole of `s`: after the value
    /// only whitespace may follow, else the error is `TrailingCharacters`.
    pub fn from_str(s: &str) -> (r: Result<Value>)
        ensures
            ({
                let b = s.spec_bytes();
                match value_end(b, 0) {
                    Ok(e) => if ws_end(b, e) == b.len() {
                        r is Ok
                    } else {
                        r == Err::<Value, Error>(Error::TrailingCharacters)
                    },
                    Err(x) => r is Err && r->Err_0 == x,
                }
            }),
            r is Ok ==> value_decoded(s.spec_bytes(), 0, r->Ok_0),
            r is Ok && r->Ok_0 is Dict ==> keys_sorted(r->Ok_0->Dict_0@),
    {
        let mut de = Deserializer::from_str(s);
        let v = parse_value(&mut de)?;
        de.end()?;
        Ok(v)
    }
}

impl Decode for Value {
    open spec fn decode_end(s: Seq<u8>, i: int) -> Result<int> {
        value_end(s, i)
    }

    open spec fn decoded(s: Seq<u8>, i: int, v: Self) -> bool {
        value_decoded(s, i, v)
    }

    fn decode(de: &mut Deserializer) -> (r: Result<Value>) {
        parse_value(de)
    }
}

impl PartialEq for Value {
    fn eq(&self, other: &Value) -> (r: bool) {
        compare(self, other) == 0
    }
}

impl vstd::std_specs::cmp::PartialEqSpecImpl for Value {
    open spec fn obeys_eq_spec() -> bool {
        false
    }

    open spec fn eq_spec(&self, other: &Value) -> bool {
        cmp_value(*self, *other) == 0
    }
}

} // verus!
