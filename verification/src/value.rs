use std::cmp::Ordering;
use vstd::prelude::*;
use vstd::slice::slice_subrange;
use vstd::utf8::{decode_utf8, encode_utf8, valid_utf8};

use crate::codec::{
    fill_zero, find_zero, le_u64_at, read_u64, splice, u64_bytes, write_bytes, write_u64, zero_end,
    zeros,
};
use crate::field::{Field, FieldExt, FieldV};

verus! {

/// The column types the storage layer knows.
#[derive(Debug, Clone, Copy, PartialEq, Eq, Structural)]
pub enum DataType {
    Boolean,
    Int64,
    Float64,
    Utf8,
    Binary,
    FixedSizeBinary(i32),
    Null,
}

/// A single value of any supported type. A `Float64` holds the IEEE-754 bits
/// of the number.
#[derive(Debug, Clone, PartialEq)]
pub enum Value {
    Float64(u64),
    Utf8(String),
    Boolean(bool),
    Binary(Vec<u8>),
    Null,
}

pub ghost enum ValueV {
    Float64(u64),
    Utf8(Seq<char>),
    Boolean(bool),
    Binary(Seq<u8>),
    Null,
}

impl View for Value {
    type V = ValueV;

    open spec fn view(&self) -> ValueV {
        match self {
            Value::Float64(b) => ValueV::Float64(*b),
            Value::Utf8(s) => ValueV::Utf8(s@),
            Value::Boolean(b) => ValueV::Boolean(*b),
            Value::Binary(v) => ValueV::Binary(v@),
            Value::Null => ValueV::Null,
        }
    }
}

pub open spec fn type_of(v: ValueV) -> DataType {
    match v {
        ValueV::Float64(_) => DataType::Float64,
        ValueV::Utf8(_) => DataType::Utf8,
        ValueV::Boolean(_) => DataType::Boolean,
        ValueV::Binary(_) => DataType::Binary,
        ValueV::Null => DataType::Null,
    }
}

// ---------------------------------------------------------------------------
// Order. Numbers are ordered as `OrderedFloat` orders them: by value, with
// -0 equal to +0, and every NaN equal to every other and above all numbers.
pub open spec fn sign_bit() -> int {
    0x8000_0000_0000_0000
}

pub open spec fn infinity_magnitude() -> int {
    0x7ff0_0000_0000_0000
}

/// The place of a float, given by its bits, in that order.
pub open spec fn float_rank(bits: u64) -> int {
    let mag = bits % 0x8000_0000_0000_0000;
    if mag > infinity_magnitude() {
        sign_bit()
    } else if bits >= 0x8000_0000_0000_0000 {
        -mag
    } else {
        mag as int
    }
}

/// -1, 0 or 1 as `a` is below, equal to or above `b`.
pub open spec fn sign_int(a: int, b: int) -> int {
    if a < b {
        -1
    } else if a == b {
        0
    } else {
        1
    }
}

/// Lexicographic order of character sequences (that of `str`), as a sign.
pub open spec fn sign_chars(a: Seq<char>, b: Seq<char>) -> int
    decreases a.len(),
{
    if a.len() == 0 {
        if b.len() == 0 {
            0
        } else {
            -1
        }
    } else if b.len() == 0 {
        1
    } else if a[0] < b[0] {
        -1
    } else if a[0] > b[0] {
        1
    } else {
        sign_chars(a.drop_first(), b.drop_first())
    }
}

/// Lexicographic order of byte sequences (that of `Vec<u8>`), as a sign.
pub open spec fn sign_bytes(a: Seq<u8>, b: Seq<u8>) -> int
    decreases a.len(),
{
    if a.len() == 0 {
        if b.len() == 0 {
            0
        } else {
            -1
        }
    } else if b.len() == 0 {
        1
    } else if a[0] < b[0] {
        -1
    } else if a[0] > b[0] {
        1
    } else {
        sign_bytes(a.drop_first(), b.drop_first())
    }
}

/// `false` below `true`, as a sign.
pub open spec fn sign_bools(a: bool, b: bool) -> int {
    if a == b {
        0
    } else if !a {
        -1
    } else {
        1
    }
}

/// Text is ordered character by character: a proper prefix comes first, and
/// after a common start the smaller character decides.
pub proof fn lemma_text_order(p: Seq<char>, c: char, d: char, x: Seq<char>, y: Seq<char>)
    ensures
        c < d ==> value_sign(ValueV::Utf8(p + seq![c] + x), ValueV::Utf8(p + seq![d] + y)) < 0,
        value_sign(ValueV::Utf8(p), ValueV::Utf8(p + seq![c] + x)) < 0,
    decreases p.len(),
{
    let a = p + seq![c] + x;
    let b = p + seq![d] + y;
    if p.len() == 0 {
        assert(a[0] == c);
        assert(b[0] == d);
        assert((p + seq![c] + x).len() > 0);
    } else {
        lemma_text_order(p.drop_first(), c, d, x, y);
        assert(a.drop_first() =~= p.drop_first() + seq![c] + x);
        assert(b.drop_first() =~= p.drop_first() + seq![d] + y);
        assert(a[0] == p[0] && b[0] == p[0]);
        assert(p.drop_first() + seq![c] + x =~= (p + seq![c] + x).drop_first());
    }
}

/// The order of values: `Null` comes before every other value, `false`
/// before `true`, and numbers by value: among the non-negative ones (up to
/// infinity) the order of their bits, and every negative one (down to minus
/// infinity) before every non-negative one.
pub proof fn lemma_value_order(v: ValueV, x: u64, y: u64)
    ensures
        !(v is Null) ==> value_sign(ValueV::Null, v) < 0 && value_sign(v, ValueV::Null) > 0,
        value_sign(ValueV::Boolean(false), ValueV::Boolean(true)) < 0,
        x <= 0x7ff0_0000_0000_0000 && y <= 0x7ff0_0000_0000_0000 ==> value_sign(
            ValueV::Float64(x),
            ValueV::Float64(y),
        ) == (if x < y {
            -1int
        } else if x == y {
            0int
        } else {
            1int
        }),
        0x8000_0000_0000_0000 < x <= 0xfff0_0000_0000_0000 && y <= 0x7ff0_0000_0000_0000 ==> value_sign(
            ValueV::Float64(x),
            ValueV::Float64(y),
        ) < 0,
{
}

/// Two values can be compared when they have the same type or one is `Null`.
pub open spec fn comparable(a: ValueV, b: ValueV) -> bool {
    ||| a is Null
    ||| b is Null
    ||| type_of(a) == type_of(b)
}

/// The order of values as a sign: `Null` below everything else, otherwise
/// the order of the type.
pub open spec fn value_sign(a: ValueV, b: ValueV) -> int {
    match (a, b) {
        (ValueV::Null, ValueV::Null) => 0,
        (ValueV::Null, _) => -1,
        (_, ValueV::Null) => 1,
        (ValueV::Float64(x), ValueV::Float64(y)) => sign_int(float_rank(x), float_rank(y)),
        (ValueV::Utf8(x), ValueV::Utf8(y)) => sign_chars(x, y),
        (ValueV::Boolean(x), ValueV::Boolean(y)) => sign_bools(x, y),
        (ValueV::Binary(x), ValueV::Binary(y)) => sign_bytes(x, y),
        _ => 0,
    }
}

pub open spec fn ordering_of(sign: int) -> Ordering {
    if sign < 0 {
        Ordering::Less
    } else if sign == 0 {
        Ordering::Equal
    } else {
        Ordering::Greater
    }
}

/// The order of two comparable values.
pub open spec fn order_values(a: ValueV, b: ValueV) -> Ordering {
    ordering_of(value_sign(a, b))
}

pub open spec fn value_leq(a: ValueV, b: ValueV) -> bool {
    value_sign(a, b) <= 0
}

/// -1, 0 or 1 as the float `a` is below, equal to or above `b`.
fn float_order(a: u64, b: u64) -> (r: i8)
    ensures
        r == sign_int(float_rank(a), float_rank(b)),
{
    let ma = a % 0x8000_0000_0000_0000;
    let mb = b % 0x8000_0000_0000_0000;
    let nan_a = ma > 0x7ff0_0000_0000_0000;
    let nan_b = mb > 0x7ff0_0000_0000_0000;
    let neg_a = a >= 0x8000_0000_0000_0000;
    let neg_b = b >= 0x8000_0000_0000_0000;
    if nan_a && nan_b {
        0
    } else if nan_a {
        1
    } else if nan_b {
        -1
    } else if neg_a && !neg_b {
        if ma == 0 && mb == 0 {
            0
        } else {
            -1
        }
    } else if !neg_a && neg_b {
        if ma == 0 && mb == 0 {
            0
        } else {
            1
        }
    } else if neg_a {
        if ma > mb {
            -1
        } else if ma == mb {
            0
        } else {
            1
        }
    } else {
        if ma < mb {
            -1
        } else if ma == mb {
            0
        } else {
            1
        }
    }
}

/// -1, 0 or 1 for the lexicographic order of `a` and `b`.
fn chars_order(a: &[char], b: &[char]) -> (r: i8)
    ensures
        r == sign_chars(a@, b@),
{
    let mut i: usize = 0;
    proof {
        assert(a@.skip(0) =~= a@);
        assert(b@.skip(0) =~= b@);
    }
    while i < a.len() && i < b.len()
        invariant
            0 <= i <= a@.len(),
            i <= b@.len(),
            sign_chars(a@, b@) == sign_chars(a@.skip(i as int), b@.skip(i as int)),
        decreases a@.len() - i,
    {
        let ghost sa = a@.skip(i as int);
        let ghost sb = b@.skip(i as int);
        if a[i] < b[i] {
            return -1;
        }
        if a[i] > b[i] {
            return 1;
        }
        proof {
            assert(sa.drop_first() =~= a@.skip(i + 1));
            assert(sb.drop_first() =~= b@.skip(i + 1));
        }
        i = i + 1;
    }
    if a.len() == b.len() {
        0
    } else if i == a.len() {
        -1
    } else {
        1
    }
}

/// -1, 0 or 1 for the lexicographic order of `a` and `b`.
fn bytes_order(a: &[u8], b: &[u8]) -> (r: i8)
    ensures
        r == sign_bytes(a@, b@),
{
    let mut i: usize = 0;
    proof {
        assert(a@.skip(0) =~= a@);
        assert(b@.skip(0) =~= b@);
    }
    while i < a.len() && i < b.len()
        invariant
            0 <= i <= a@.len(),
            i <= b@.len(),
            sign_bytes(a@, b@) == sign_bytes(a@.skip(i as int), b@.skip(i as int)),
        decreases a@.len() - i,
    {
        let ghost sa = a@.skip(i as int);
        let ghost sb = b@.skip(i as int);
        if a[i] < b[i] {
            return -1;
        }
        if a[i] > b[i] {
            return 1;
        }
        proof {
            assert(sa.drop_first() =~= a@.skip(i + 1));
            assert(sb.drop_first() =~= b@.skip(i + 1));
        }
        i = i + 1;
    }
    if a.len() == b.len() {
        0
    } else if i == a.len() {
        -1
    } else {
        1
    }
}

/// The sign of the order of two comparable values.
pub fn value_order(a: &Value, b: &Value) -> (r: i8)
    requires
        comparable(a@, b@),
    ensures
        r == value_sign(a@, b@),
{
    match (a, b) {
        (Value::Null, Value::Null) => 0,
        (Value::Null, _) => -1,
        (_, Value::Null) => 1,
        (Value::Float64(x), Value::Float64(y)) => float_order(*x, *y),
        (Value::Utf8(x), Value::Utf8(y)) => {
            let p = crate::text::chars_of(x.as_str());
            let q = crate::text::chars_of(y.as_str());
            chars_order(p.as_slice(), q.as_slice())
        },
        (Value::Boolean(x), Value::Boolean(y)) => {
            if *x == *y {
                0
            } else if !*x {
                -1
            } else {
                1
            }
        },
        (Value::Binary(x), Value::Binary(y)) => bytes_order(x.as_slice(), y.as_slice()),
        _ => 0,
    }
}

// ---------------------------------------------------------------------------
// Layout of a value in a record.
/// The bytes `serialize` writes for `v` in a field of `size` bytes: eight
/// little-endian bytes for a number, one byte for a boolean, and for text,
/// bytes and null the field's `size` bytes, content first (cut at `size`)
/// and zeros after.
pub open spec fn encoded(v: ValueV, size: nat) -> Seq<u8> {
    match v {
        ValueV::Float64(b) => u64_bytes(b),
        ValueV::Utf8(s) => padded(encode_utf8(s), size),
        ValueV::Boolean(b) => seq![if b { 1u8 } else { 0u8 }],
        ValueV::Binary(bytes) => padded(bytes, size),
        ValueV::Null => zeros(size),
    }
}

pub open spec fn padded(bytes: Seq<u8>, size: nat) -> Seq<u8> {
    let n = if bytes.len() <= size {
        bytes.len()
    } else {
        size
    };
    bytes.take(n as int) + zeros((size - n) as nat)
}

/// How many bytes `serialize` needs behind the write position.
pub open spec fn needed(v: ValueV, size: nat) -> nat {
    match v {
        ValueV::Float64(_) => 8,
        ValueV::Boolean(_) => 1,
        _ => size,
    }
}

/// What std's `String::from_utf8_lossy` makes of `bytes`.
pub uninterp spec fn lossy_utf8(bytes: Seq<u8>) -> Seq<char>;

/// `String::from_utf8_lossy(bytes).into_owned()`. Its result is named by
/// `lossy_utf8`; of it the contract states what std documents for valid
/// input: the characters that the bytes encode. What std puts in place of
/// invalid sequences is not stated.
#[verifier::external_body]
fn text_from_utf8_lossy(bytes: &[u8]) -> (s: String)
    ensures
        s@ == lossy_utf8(bytes@),
        valid_utf8(bytes@) ==> s@ == decode_utf8(bytes@),
{
    String::from_utf8_lossy(bytes).into_owned()
}

fn decode_text(bytes: &[u8]) -> (s: String)
    ensures
        s@ == lossy_text(bytes@),
{
    text_from_utf8_lossy(bytes)
}

/// What the lossy decoding gives: the characters that valid UTF-8 encodes.
pub open spec fn lossy_text(bytes: Seq<u8>) -> Seq<char> {
    if valid_utf8(bytes) {
        decode_utf8(bytes)
    } else {
        lossy_utf8(bytes)
    }
}

/// Text read from stored bytes: up to the first zero byte.
pub open spec fn stored_text(bytes: Seq<u8>) -> Seq<char> {
    lossy_text(bytes.take(zero_end(bytes) as int))
}

/// The types `deserialize` can read.
pub open spec fn readable(dt: DataType) -> bool {
    dt != DataType::Int64
}

/// How many bytes `deserialize` needs for a value of type `dt`.
pub open spec fn readable_from(src: Seq<u8>, dt: DataType) -> bool {
    &&& readable(dt)
    &&& match dt {
        DataType::Float64 => 8 <= src.len(),
        DataType::Boolean => 1 <= src.len(),
        DataType::FixedSizeBinary(n) => 0 <= n && n <= src.len(),
        _ => true,
    }
}

/// The value `deserialize` reads from `src` for a column of type `dt`.
pub open spec fn decoded(src: Seq<u8>, dt: DataType) -> ValueV {
    match dt {
        DataType::Float64 => ValueV::Float64(le_u64_at(src, 0)),
        DataType::Utf8 => ValueV::Utf8(stored_text(src)),
        DataType::Boolean => ValueV::Boolean(src[0] != 0),
        DataType::Binary => ValueV::Binary(src),
        DataType::FixedSizeBinary(n) => ValueV::Utf8(stored_text(src.take(n as int))),
        _ => ValueV::Null,
    }
}

impl Value {
    /// A copy of the value.
    pub fn copy(&self) -> (r: Value)
        ensures
            r@ == self@,
    {
        match self {
            Value::Float64(b) => Value::Float64(*b),
            Value::Utf8(s) => Value::Utf8(s.clone()),
            Value::Boolean(b) => Value::Boolean(*b),
            Value::Binary(v) => Value::Binary(v.clone()),
            Value::Null => Value::Null,
        }
    }

    pub fn data_type(&self) -> (t: DataType)
        ensures
            t == type_of(self@),
    {
        match self {
            Value::Float64(_) => DataType::Float64,
            Value::Utf8(_) => DataType::Utf8,
            Value::Boolean(_) => DataType::Boolean,
            Value::Binary(_) => DataType::Binary,
            Value::Null => DataType::Null,
        }
    }

    /// The order of two values; values of two different types, neither of
    /// them null, cannot be compared.
    pub fn cmp(&self, other: &Value) -> (r: Ordering)
        requires
            comparable(self@, other@),
        ensures
            r == order_values(self@, other@),
    {
        let sign = value_order(self, other);
        if sign < 0 {
            Ordering::Less
        } else if sign == 0 {
            Ordering::Equal
        } else {
            Ordering::Greater
        }
    }

    pub fn partial_cmp(&self, other: &Value) -> (r: Option<Ordering>)
        requires
            comparable(self@, other@),
        ensures
            r == Some(order_values(self@, other@)),
    {
        Some(self.cmp(other))
    }

    /// Whether `self` is at most `other`.
    pub fn leq(&self, other: &Value) -> (r: bool)
        requires
            comparable(self@, other@),
        ensures
            r == value_leq(self@, other@),
    {
        value_order(self, other) <= 0
    }

    /// Writes the value at the start of `dest`, in a field of `size` bytes.
    pub fn serialize(&self, dest: &mut [u8], size: usize)
        requires
            needed(self@, size as nat) <= old(dest)@.len(),
        ensures
            final(dest)@ == splice(old(dest)@, 0, encoded(self@, size as nat)),
    {
        self.serialize_at(dest, 0, size)
    }

    /// Writes the value at `dest[off..]`, in a field of `size` bytes.
    pub fn serialize_at(&self, dest: &mut [u8], off: usize, size: usize)
        requires
            off + needed(self@, size as nat) <= old(dest)@.len(),
        ensures
            final(dest)@ == splice(old(dest)@, off as int, encoded(self@, size as nat)),
    {
        match self {
            Value::Float64(b) => {
                write_u64(dest, off, *b);
            },
            Value::Utf8(s) => {
                let bytes = s.as_str().as_bytes();
                proof {
                    assert(bytes@ == encode_utf8(s@));
                }
                self.write_padded(dest, off, bytes, size);
            },
            Value::Boolean(b) => {
                let byte: u8 = if *b {
                    1
                } else {
                    0
                };
                dest[off] = byte;
                proof {
                    assert(dest@ =~= splice(old(dest)@, off as int, seq![byte]));
                }
            },
            Value::Binary(bytes) => {
                self.write_padded(dest, off, bytes.as_slice(), size);
            },
            Value::Null => {
                fill_zero(dest, off, off + size);
            },
        }
    }

    fn write_padded(&self, dest: &mut [u8], off: usize, bytes: &[u8], size: usize)
        requires
            off + size <= old(dest)@.len(),
        ensures
            final(dest)@ == splice(old(dest)@, off as int, padded(bytes@, size as nat)),
    {
        let _n = dest.len();
        let len = if bytes.len() <= size {
            bytes.len()
        } else {
            size
        };
        let ghost d0 = dest@;
        write_bytes(dest, off, slice_subrange(bytes, 0, len));
        let ghost d1 = dest@;
        fill_zero(dest, off + len, off + size);
        proof {
            assert(bytes@.subrange(0, len as int) =~= bytes@.take(len as int));
            assert(dest@ =~= splice(d0, off as int, padded(bytes@, size as nat)));
        }
    }

    /// Reads a value of the field's type from the start of `src`.
    pub fn deserialize(src: &[u8], field: &Field) -> (v: Value)
        requires
            readable_from(src@, field@.data_type),
        ensures
            v@ == decoded(src@, field@.data_type),
    {
        proof {
            assert(src@.skip(0) =~= src@);
        }
        Self::deserialize_at(src, 0, field.data_type)
    }

    /// Reads a value of type `dt` from `src[off..]`.
    pub fn deserialize_at(src: &[u8], off: usize, dt: DataType) -> (v: Value)
        requires
            off <= src@.len(),
            readable_from(src@.skip(off as int), dt),
        ensures
            v@ == decoded(src@.skip(off as int), dt),
    {
        let ghost s = src@.skip(off as int);
        let _n = src.len();
        match dt {
            DataType::Float64 => {
                let x = read_u64(src, off);
                proof {
                    assert(src@.subrange(off as int, off + 8) =~= s.subrange(0, 8));
                }
                Value::Float64(x)
            },
            DataType::Utf8 => {
                let end = find_zero(src, off);
                proof {
                    crate::codec::lemma_zero_end_bound(s);
                }
                let text = decode_text(slice_subrange(src, off, off + end));
                proof {
                    assert(src@.subrange(off as int, off + end) =~= s.take(end as int));
                }
                Value::Utf8(text)
            },
            DataType::Boolean => Value::Boolean(src[off] != 0),
            DataType::Binary => {
                let rest = slice_subrange(src, off, src.len());
                proof {
                    assert(rest@ =~= s);
                }
                Value::Binary(vstd::slice::slice_to_vec(rest))
            },
            DataType::FixedSizeBinary(n) => {
                let len = n as usize;
                let data = slice_subrange(src, off, off + len);
                let end = find_zero(data, 0);
                proof {
                    assert(data@ =~= s.take(n as int));
                    assert(data@.skip(0) =~= data@);
                    crate::codec::lemma_zero_end_bound(data@);
                }
                let text = decode_text(slice_subrange(data, 0, end));
                proof {
                    assert(data@.subrange(0, end as int) =~= data@.take(end as int));
                }
                Value::Utf8(text)
            },
            _ => Value::Null,
        }
    }
}


/// The pairs of value and column type that a stored value reads back as:
/// numbers, booleans and nulls in their own type; text in a text column
/// when its UTF-8 bytes hold no zero byte and are shorter than the field,
/// so that a zero byte ends them.
pub open spec fn round_trips(v: ValueV, dt: DataType, size: nat) -> bool {
    match (v, dt) {
        (ValueV::Float64(_), DataType::Float64) => true,
        (ValueV::Boolean(_), DataType::Boolean) => true,
        (ValueV::Null, DataType::Null) => true,
        (ValueV::Utf8(s), DataType::Utf8) => encode_utf8(s).len() < size && !encode_utf8(
            s,
        ).contains(0u8),
        (ValueV::Utf8(s), DataType::FixedSizeBinary(n)) => 0 <= n <= size && encode_utf8(s).len()
            <= n && !encode_utf8(s).contains(0u8),
        _ => false,
    }
}

/// `serialize` writes exactly the bytes it needs.
pub proof fn lemma_encoded_len(v: ValueV, size: nat)
    ensures
        encoded(v, size).len() == needed(v, size),
{
    vstd::bytes::lemma_auto_spec_u64_to_from_le_bytes();
}

/// Bytes that begin with the encoding of a value read back as that value,
/// for the pairs of `round_trips`.
pub proof fn lemma_value_decodes(v: ValueV, dt: DataType, size: nat, s: Seq<u8>)
    requires
        round_trips(v, dt, size),
        encoded(v, size).len() <= s.len(),
        s.take(encoded(v, size).len() as int) == encoded(v, size),
    ensures
        readable_from(s, dt),
        decoded(s, dt) == v,
{
    let enc = encoded(v, size);
    match v {
        ValueV::Float64(b) => {
            vstd::bytes::lemma_auto_spec_u64_to_from_le_bytes();
            assert(s.subrange(0, 8) =~= s.take(8));
        },
        ValueV::Boolean(b) => {
            assert(s[0] == s.take(1)[0]);
        },
        ValueV::Null => {},
        ValueV::Utf8(t) => {
            let e = encode_utf8(t);
            vstd::utf8::encode_utf8_valid_utf8(t);
            vstd::utf8::encode_utf8_decode_utf8(t);
            assert(enc.take(e.len() as int) =~= e);
            assert(e.len() < size ==> enc[e.len() as int] == 0u8);
            match dt {
                DataType::Utf8 => {
                    assert(s[e.len() as int] == enc[e.len() as int]);
                    assert forall|j: int| 0 <= j < e.len() implies s[j] != 0 by {
                        assert(s[j] == enc[j]);
                        assert(enc[j] == e[j]);
                        assert(e.contains(e[j]));
                    }
                    crate::codec::lemma_zero_end(s, e.len() as int);
                    assert(s.take(e.len() as int) =~= e);
                },
                DataType::FixedSizeBinary(n) => {
                    let d = s.take(n as int);
                    if e.len() < n {
                        assert(d[e.len() as int] == enc[e.len() as int]);
                    }
                    assert forall|j: int| 0 <= j < e.len() implies d[j] != 0 by {
                        assert(d[j] == enc[j]);
                        assert(enc[j] == e[j]);
                        assert(e.contains(e[j]));
                    }
                    crate::codec::lemma_zero_end(d, e.len() as int);
                    assert(d.take(e.len() as int) =~= e);
                },
                _ => {},
            }
        },
        _ => {},
    }
}

/// A value written into a field and read back from the same place with the
/// field's type is the value it was, for the pairs of `round_trips`.
pub proof fn lemma_value_roundtrip(v: ValueV, dt: DataType, size: nat, dest: Seq<u8>, off: int)
    requires
        round_trips(v, dt, size),
        0 <= off,
        off + needed(v, size) <= dest.len(),
        off + size <= dest.len(),
    ensures
        readable_from(splice(dest, off, encoded(v, size)).skip(off), dt),
        decoded(splice(dest, off, encoded(v, size)).skip(off), dt) == v,
{
    let enc = encoded(v, size);
    let s = splice(dest, off, enc);
    lemma_encoded_len(v, size);
    assert(s.skip(off).take(enc.len() as int) =~= enc);
    lemma_value_decodes(v, dt, size, s.skip(off));
}


pub proof fn lemma_sign_chars_trans(a: Seq<char>, b: Seq<char>, c: Seq<char>)
    requires
        sign_chars(a, b) < 0,
        sign_chars(b, c) < 0,
    ensures
        sign_chars(a, c) < 0,
    decreases a.len(),
{
    if a.len() > 0 && b.len() > 0 && c.len() > 0 && a[0] == b[0] && b[0] == c[0] {
        lemma_sign_chars_trans(a.drop_first(), b.drop_first(), c.drop_first());
    }
}

pub proof fn lemma_sign_chars_zero(a: Seq<char>, b: Seq<char>)
    requires
        sign_chars(a, b) == 0,
    ensures
        a == b,
    decreases a.len(),
{
    if a.len() > 0 && b.len() > 0 {
        lemma_sign_chars_zero(a.drop_first(), b.drop_first());
        assert(a =~= seq![a[0]] + a.drop_first());
        assert(b =~= seq![b[0]] + b.drop_first());
    }
}

pub proof fn lemma_sign_bytes_trans(a: Seq<u8>, b: Seq<u8>, c: Seq<u8>)
    requires
        sign_bytes(a, b) < 0,
        sign_bytes(b, c) < 0,
    ensures
        sign_bytes(a, c) < 0,
    decreases a.len(),
{
    if a.len() > 0 && b.len() > 0 && c.len() > 0 && a[0] == b[0] && b[0] == c[0] {
        lemma_sign_bytes_trans(a.drop_first(), b.drop_first(), c.drop_first());
    }
}

pub proof fn lemma_sign_bytes_zero(a: Seq<u8>, b: Seq<u8>)
    requires
        sign_bytes(a, b) == 0,
    ensures
        a == b,
    decreases a.len(),
{
    if a.len() > 0 && b.len() > 0 {
        lemma_sign_bytes_zero(a.drop_first(), b.drop_first());
        assert(a =~= seq![a[0]] + a.drop_first());
        assert(b =~= seq![b[0]] + b.drop_first());
    }
}

/// The order of values is transitive.
pub proof fn lemma_sign_transitive(a: ValueV, b: ValueV, c: ValueV)
    requires
        value_sign(a, b) < 0,
        value_sign(b, c) < 0,
    ensures
        value_sign(a, c) < 0,
{
    match (a, b, c) {
        (ValueV::Utf8(x), ValueV::Utf8(y), ValueV::Utf8(z)) => lemma_sign_chars_trans(x, y, z),
        (ValueV::Binary(x), ValueV::Binary(y), ValueV::Binary(z)) => lemma_sign_bytes_trans(x, y, z),
        _ => {},
    }
}

/// Below a value is below every value equal to it.
pub proof fn lemma_sign_transitive_gt(a: ValueV, b: ValueV, c: ValueV)
    requires
        value_sign(a, b) < 0,
        value_sign(b, c) == 0,
        comparable(b, c),
    ensures
        value_sign(a, c) < 0,
{
    match (b, c) {
        (ValueV::Utf8(y), ValueV::Utf8(z)) => lemma_sign_chars_zero(y, z),
        (ValueV::Binary(y), ValueV::Binary(z)) => lemma_sign_bytes_zero(y, z),
        _ => {},
    }
}

proof fn lemma_sign_chars_refl(a: Seq<char>)
    ensures
        sign_chars(a, a) == 0,
    decreases a.len(),
{
    if a.len() > 0 {
        lemma_sign_chars_refl(a.drop_first());
    }
}

proof fn lemma_sign_bytes_refl(a: Seq<u8>)
    ensures
        sign_bytes(a, a) == 0,
    decreases a.len(),
{
    if a.len() > 0 {
        lemma_sign_bytes_refl(a.drop_first());
    }
}

proof fn lemma_sign_chars_flip(a: Seq<char>, b: Seq<char>)
    ensures
        sign_chars(a, b) == -sign_chars(b, a),
    decreases a.len(),
{
    if a.len() > 0 && b.len() > 0 {
        lemma_sign_chars_flip(a.drop_first(), b.drop_first());
    }
}

proof fn lemma_sign_bytes_flip(a: Seq<u8>, b: Seq<u8>)
    ensures
        sign_bytes(a, b) == -sign_bytes(b, a),
    decreases a.len(),
{
    if a.len() > 0 && b.len() > 0 {
        lemma_sign_bytes_flip(a.drop_first(), b.drop_first());
    }
}

/// Every value is equal to itself in the order of values.
pub proof fn lemma_sign_refl(v: ValueV)
    ensures
        value_sign(v, v) == 0,
{
    match v {
        ValueV::Utf8(x) => lemma_sign_chars_refl(x),
        ValueV::Binary(x) => lemma_sign_bytes_refl(x),
        _ => {},
    }
}

/// Swapping two values that can be compared flips their order.
pub proof fn lemma_sign_flip(a: ValueV, b: ValueV)
    requires
        comparable(a, b),
    ensures
        value_sign(a, b) == -value_sign(b, a),
{
    match (a, b) {
        (ValueV::Utf8(x), ValueV::Utf8(y)) => lemma_sign_chars_flip(x, y),
        (ValueV::Binary(x), ValueV::Binary(y)) => lemma_sign_bytes_flip(x, y),
        _ => {},
    }
}

/// Two values that can be compared and are equal in the order stand in the
/// same order to every value.
pub proof fn lemma_sign_same(a: ValueV, b: ValueV, c: ValueV)
    requires
        value_sign(a, b) == 0,
        comparable(a, b),
    ensures
        value_sign(a, c) == value_sign(b, c),
        value_sign(c, a) == value_sign(c, b),
{
    match (a, b) {
        (ValueV::Utf8(x), ValueV::Utf8(y)) => lemma_sign_chars_zero(x, y),
        (ValueV::Binary(x), ValueV::Binary(y)) => lemma_sign_bytes_zero(x, y),
        _ => {},
    }
}

} // verus!

