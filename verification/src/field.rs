use vstd::prelude::*;

use crate::text::{
    all_digits, chars_of, chars_range, find_char, int_text, lemma_nat_digits, nat_digits,
    parse_i32, parse_usize, spec_parse_i32, spec_parse_usize, starts_with_chars, string_from_chars,
    usize_text, i32_text, chars_equal,
};
use crate::value::DataType;

verus! {

/// A column of a table: its name, its type, whether it may be null, and the
/// number of bytes it takes in a stored row when one was given.
#[derive(Debug, Clone)]
pub struct Field {
    pub name: String,
    pub data_type: DataType,
    pub nullable: bool,
    pub size: Option<usize>,
}

pub ghost struct FieldV {
    pub name: Seq<char>,
    pub data_type: DataType,
    pub nullable: bool,
    pub size: Option<usize>,
}

impl View for Field {
    type V = FieldV;

    open spec fn view(&self) -> FieldV {
        FieldV {
            name: self.name@,
            data_type: self.data_type,
            nullable: self.nullable,
            size: self.size,
        }
    }
}

/// Bytes of a column of type `dt` when no size was given: 1 for booleans,
/// 8 for numbers, `n` for fixed-size binary (the `i32` taken as a `usize`),
/// and 0 for the variable-length types.
pub open spec fn default_size(dt: DataType) -> usize {
    match dt {
        DataType::Boolean => 1,
        DataType::Float64 => 8,
        DataType::Int64 => 8,
        DataType::FixedSizeBinary(n) => n as usize,
        _ => 0,
    }
}

pub open spec fn byte_size_of(f: FieldV) -> usize {
    match f.size {
        Some(n) => n,
        None => default_size(f.data_type),
    }
}

/// Storage-specific facts about a column.
pub trait FieldExt {
    fn byte_size(&self) -> usize;
}

impl FieldExt for Field {
    /// The bytes the column takes in a stored row.
    fn byte_size(&self) -> (r: usize)
        ensures
            r == byte_size_of(self@),
    {
        match self.size {
            Some(n) => n,
            None => default_size_for_type(&self.data_type),
        }
    }
}

impl Field {
    /// A copy of the column.
    pub fn copy(&self) -> (r: Field)
        ensures
            r@ == self@,
    {
        Field {
            name: self.name.clone(),
            data_type: self.data_type,
            nullable: self.nullable,
            size: self.size,
        }
    }
}

/// Default byte size of a column type (used where no size was given).
pub fn default_size_for_type(dt: &DataType) -> (r: usize)
    ensures
        r == default_size(*dt),
{
    match dt {
        DataType::Boolean => 1,
        DataType::Float64 => 8,
        DataType::Int64 => 8,
        DataType::FixedSizeBinary(n) => *n as usize,
        _ => 0,
    }
}

pub open spec fn sized_field(name: Seq<char>, dt: DataType, size: usize) -> FieldV {
    FieldV { name, data_type: dt, nullable: false, size: Some(size) }
}

/// A column that may not be null, of the given storage size.
pub fn field_with_size(name: &str, data_type: DataType, size: usize) -> (f: Field)
    ensures
        f@ == sized_field(name@, data_type, size),
{
    Field { name: name.to_string(), data_type, nullable: false, size: Some(size) }
}

/// A column of the given storage size.
pub fn new_field(name: &str, data_type: DataType, nullable: bool, size: usize) -> (f: Field)
    ensures
        f@ == (FieldV { name: name@, data_type, nullable, size: Some(size) }),
{
    Field { name: name.to_string(), data_type, nullable, size: Some(size) }
}

// ---------------------------------------------------------------------------
// Text form of column types and columns, as the system table stores them.
/// The stored name of a column type; the types without a short name are
/// written by their name.
pub open spec fn type_text(dt: DataType) -> Seq<char> {
    match dt {
        DataType::Float64 => seq!['f', '6', '4'],
        DataType::Boolean => seq!['b', 'o', 'o', 'l'],
        DataType::Utf8 => seq!['u', 't', 'f', '8'],
        DataType::Binary => seq!['b', 'i', 'n'],
        DataType::FixedSizeBinary(n) => seq!['f', 's', 'b'] + int_text(n as int),
        DataType::Int64 => seq!['I', 'n', 't', '6', '4'],
        DataType::Null => seq!['N', 'u', 'l', 'l'],
    }
}

/// The column type a stored name stands for, if any.
pub open spec fn type_of_text(s: Seq<char>) -> Option<DataType> {
    if s == seq!['f', '6', '4'] {
        Some(DataType::Float64)
    } else if s == seq!['b', 'o', 'o', 'l'] {
        Some(DataType::Boolean)
    } else if s == seq!['u', 't', 'f', '8'] {
        Some(DataType::Utf8)
    } else if s == seq!['b', 'i', 'n'] {
        Some(DataType::Binary)
    } else if s.len() >= 3 && s.take(3) == seq!['f', 's', 'b'] {
        match spec_parse_i32(s.skip(3)) {
            Some(n) => Some(DataType::FixedSizeBinary(n as i32)),
            None => None,
        }
    } else {
        None
    }
}

pub open spec fn type_error_text(s: Seq<char>) -> Seq<char> {
    if s.len() >= 3 && s.take(3) == seq!['f', 's', 'b'] {
        "invalid fixed size binary: "@ + s
    } else {
        "unknown data type: "@ + s
    }
}

/// The stored name of a column type.
pub fn serialize_data_type(dt: &DataType) -> (s: String)
    ensures
        s@ == type_text(*dt),
{
    match dt {
        DataType::Float64 => {
            proof {
                reveal_strlit("f64");
            }
            "f64".to_string()
        },
        DataType::Boolean => {
            proof {
                reveal_strlit("bool");
            }
            "bool".to_string()
        },
        DataType::Utf8 => {
            proof {
                reveal_strlit("utf8");
            }
            "utf8".to_string()
        },
        DataType::Binary => {
            proof {
                reveal_strlit("bin");
            }
            "bin".to_string()
        },
        DataType::FixedSizeBinary(n) => {
            let mut s = "fsb".to_string();
            let digits = i32_text(*n);
            s.append(digits.as_str());
            proof {
                reveal_strlit("fsb");
            }
            s
        },
        DataType::Int64 => {
            proof {
                reveal_strlit("Int64");
            }
            "Int64".to_string()
        },
        DataType::Null => {
            proof {
                reveal_strlit("Null");
            }
            "Null".to_string()
        },
    }
}

fn text_is(s: &[char], lit: &str) -> (r: bool)
    ensures
        r == (s@ == lit@),
{
    let l = chars_of(lit);
    chars_equal(s, l.as_slice())
}

/// The column type a stored name stands for; the error names the text.
pub fn deserialize_data_type(s: &str) -> (r: Result<DataType, String>)
    ensures
        match r {
            Ok(dt) => type_of_text(s@) == Some(dt),
            Err(e) => type_of_text(s@) is None && e@ == type_error_text(s@),
        },
{
    proof {
        reveal_strlit("f64");
        reveal_strlit("bool");
        reveal_strlit("utf8");
        reveal_strlit("bin");
        reveal_strlit("fsb");
        reveal_strlit("invalid fixed size binary: ");
        reveal_strlit("unknown data type: ");
        assert("f64"@ =~= seq!['f', '6', '4']);
        assert("bool"@ =~= seq!['b', 'o', 'o', 'l']);
        assert("utf8"@ =~= seq!['u', 't', 'f', '8']);
        assert("bin"@ =~= seq!['b', 'i', 'n']);
        assert("fsb"@ =~= seq!['f', 's', 'b']);
    }
    let c = chars_of(s);
    if text_is(c.as_slice(), "f64") {
        return Ok(DataType::Float64);
    }
    if text_is(c.as_slice(), "bool") {
        return Ok(DataType::Boolean);
    }
    if text_is(c.as_slice(), "utf8") {
        return Ok(DataType::Utf8);
    }
    if text_is(c.as_slice(), "bin") {
        return Ok(DataType::Binary);
    }
    let prefix = chars_of("fsb");
    if starts_with_chars(c.as_slice(), prefix.as_slice()) {
        let rest = chars_range(c.as_slice(), 3, c.len());
        proof {
            assert(rest@ =~= s@.skip(3));
        }
        match parse_i32(rest.as_slice()) {
            Some(n) => Ok(DataType::FixedSizeBinary(n)),
            None => {
                let mut e = "invalid fixed size binary: ".to_string();
                e.append(s);
                Err(e)
            },
        }
    } else {
        let mut e = "unknown data type: ".to_string();
        e.append(s);
        Err(e)
    }
}

/// The stored form of a column: `name:type:size`.
pub open spec fn field_text(f: FieldV) -> Seq<char> {
    f.name + seq![':'] + type_text(f.data_type) + seq![':'] + nat_digits(
        byte_size_of(f) as nat,
    )
}

/// Writes a column as `name:type:size`.
pub fn serialize_field(field: &Field) -> (s: String)
    ensures
        s@ == field_text(field@),
{
    proof {
        reveal_strlit(":");
    }
    let mut s = field.name.clone();
    s.append(":");
    let t = serialize_data_type(&field.data_type);
    s.append(t.as_str());
    s.append(":");
    let n = usize_text(field.byte_size());
    s.append(n.as_str());
    s
}

/// The three parts of `name:type:size`, split at the first two colons
/// (the size keeps any further colon).
pub open spec fn field_parts(s: Seq<char>) -> Option<(Seq<char>, Seq<char>, Seq<char>)> {
    if exists|i: int, j: int|
        #![trigger s[i], s[j]]
        0 <= i < j < s.len() && s[i] == ':' && s[j] == ':' && !s.take(i).contains(':')
            && !s.subrange(i + 1, j).contains(':') {
        let (i, j) = choose|i: int, j: int|
            #![trigger s[i], s[j]]
            0 <= i < j < s.len() && s[i] == ':' && s[j] == ':' && !s.take(i).contains(':')
                && !s.subrange(i + 1, j).contains(':');
        Some((s.take(i), s.subrange(i + 1, j), s.skip(j + 1)))
    } else {
        None
    }
}

/// The column that `parse_field` reads from `s`, if `s` holds one.
pub open spec fn field_of_text(s: Seq<char>) -> Option<FieldV> {
    match field_parts(s) {
        Some((name, t, size)) => match (type_of_text(t), spec_parse_usize(size)) {
            (Some(dt), Some(n)) => Some(sized_field(name, dt, n as usize)),
            _ => None,
        },
        None => None,
    }
}

/// Reads a column written as `name:type:size`.
pub fn parse_field(s: &str) -> (r: Result<Field, String>)
    ensures
        match r {
            Ok(f) => field_of_text(s@) == Some(f@),
            Err(_) => field_of_text(s@) is None,
        },
{
    let c = chars_of(s);
    let i = match find_char(c.as_slice(), ':') {
        Some(i) => i,
        None => return Err(field_format_error(s)),
    };
    let n = c.len();
    let after = chars_range(c.as_slice(), i + 1, n);
    let k = match find_char(after.as_slice(), ':') {
        Some(k) => k,
        None => {
            proof {
                assert forall|a: int, b: int|
                    0 <= a < b < s@.len() && s@[a] == ':' && s@[b] == ':' && !s@.take(
                        a,
                    ).contains(':') && !s@.subrange(a + 1, b).contains(':') implies false by {
                    if a < i {
                        assert(s@.take(i as int)[a] == ':');
                    } else if a > i {
                        assert(s@.take(a)[i as int] == ':');
                    } else {
                        assert(after@[b - i - 1] == ':');
                    }
                }
            }
            return Err(field_format_error(s));
        },
    };
    let j = i + 1 + k;
    let name_chars = chars_range(c.as_slice(), 0, i);
    let type_chars = chars_range(c.as_slice(), i + 1, j);
    let size_chars = chars_range(c.as_slice(), j + 1, c.len());
    proof {
        assert(s@[i as int] == ':');
        assert(s@[j as int] == ':');
        assert(s@.subrange(i + 1, j as int) =~= after@.take(k as int));
        assert(!s@.subrange(i + 1, j as int).contains(':'));
        assert(name_chars@ =~= s@.take(i as int));
        lemma_field_parts(s@, i as int, j as int);
    }
    let name = string_from_chars(name_chars.as_slice());
    let type_text = string_from_chars(type_chars.as_slice());
    let data_type = match deserialize_data_type(type_text.as_str()) {
        Ok(dt) => dt,
        Err(e) => return Err(e),
    };
    let size = match parse_usize(size_chars.as_slice()) {
        Some(n) => n,
        None => {
            let mut e = "invalid size '".to_string();
            let size_text = string_from_chars(size_chars.as_slice());
            e.append(size_text.as_str());
            e.append("' in field '");
            e.append(s);
            e.append("'");
            return Err(e);
        },
    };
    Ok(Field { name, data_type, nullable: false, size: Some(size) })
}

fn field_format_error(s: &str) -> (e: String)
    ensures
        e@ == "invalid field format '"@ + s@ + "', expected name:type:size"@,
{
    let mut e = "invalid field format '".to_string();
    e.append(s);
    e.append("', expected name:type:size");
    e
}

/// The split at the first two colons is unique.
proof fn lemma_field_parts(s: Seq<char>, i: int, j: int)
    requires
        0 <= i < j < s.len(),
        s[i] == ':',
        s[j] == ':',
        !s.take(i).contains(':'),
        !s.subrange(i + 1, j).contains(':'),
    ensures
        field_parts(s) == Some((s.take(i), s.subrange(i + 1, j), s.skip(j + 1))),
{
    assert(s[i] == ':' && s[j] == ':');
    let (a, b) = choose|a: int, b: int|
        #![trigger s[a], s[b]]
        0 <= a < b < s.len() && s[a] == ':' && s[b] == ':' && !s.take(a).contains(':')
            && !s.subrange(a + 1, b).contains(':');
    if a < i {
        assert(s.take(i)[a] == ':');
    }
    if i < a {
        assert(s.take(a)[i] == ':');
    }
    if b < j {
        assert(s.subrange(i + 1, j)[b - i - 1] == ':');
    }
    if j < b {
        assert(s.subrange(a + 1, b)[j - a - 1] == ':');
    }
}


/// The types whose stored name reads back as the same type.
pub open spec fn named_type(dt: DataType) -> bool {
    dt != DataType::Int64 && dt != DataType::Null
}

/// Reading back the stored name of a type gives the type, for every type
/// but `Int64` and `Null` (which are written by name and not read back).
pub proof fn lemma_type_text_roundtrip(dt: DataType)
    requires
        named_type(dt),
    ensures
        type_of_text(type_text(dt)) == Some(dt),
        !type_text(dt).contains(':'),
{
    match dt {
        DataType::FixedSizeBinary(n) => {
            let t = type_text(dt);
            crate::text::lemma_parse_i32_text(n as int);
            crate::text::lemma_int_text_chars(n as int);
            assert(t.take(3) =~= seq!['f', 's', 'b']);
            assert(t.skip(3) =~= int_text(n as int));
            assert(t != seq!['f', '6', '4']) by {
                assert(t[1] == 's');
            }
            assert(t != seq!['b', 'o', 'o', 'l']);
            assert(t != seq!['u', 't', 'f', '8']);
            assert(t != seq!['b', 'i', 'n']);
            assert forall|k: int| 0 <= k < t.len() implies t[k] != ':' by {
                if k >= 3 {
                    assert(t[k] == int_text(n as int)[k - 3]);
                }
            }
        },
        _ => {
            let t = type_text(dt);
            assert(t != seq!['f', '6', '4'] || dt == DataType::Float64);
            assert(t != seq!['b', 'o', 'o', 'l'] || dt == DataType::Boolean);
            assert(t != seq!['u', 't', 'f', '8'] || dt == DataType::Utf8);
        },
    }
}

/// A column written by `serialize_field` reads back by `parse_field` as the
/// same name and type, with its byte size, not nullable; for names without
/// a ':' and types that have a stored name.
pub proof fn lemma_field_text_roundtrip(f: FieldV)
    requires
        !f.name.contains(':'),
        named_type(f.data_type),
    ensures
        field_of_text(field_text(f)) == Some(sized_field(f.name, f.data_type, byte_size_of(f))),
{
    let t = type_text(f.data_type);
    let d = nat_digits(byte_size_of(f) as nat);
    let s = field_text(f);
    lemma_type_text_roundtrip(f.data_type);
    crate::text::lemma_parse_usize_digits(byte_size_of(f) as nat);
    let i = f.name.len() as int;
    let j = i + 1 + t.len();
    assert(s[i] == ':');
    assert(s[j] == ':');
    assert(s.take(i) =~= f.name);
    assert(s.subrange(i + 1, j) =~= t);
    assert(s.skip(j + 1) =~= d);
    lemma_field_parts(s, i, j);
}

} // verus!
