use vstd::prelude::*;

use crate::field::{Field, FieldV};
use crate::text::{
    chars_of, chars_range, digit_char, find_char, nat_digits, parse_usize, spec_parse_usize, string_from_chars,
    usize_text,
};
use crate::value::DataType;

verus! {

pub const NUMBER_SIZE: usize = 8;

pub const BOOL_SIZE: usize = 1;

/// The kind of a column and, for text and bytes, its width.
#[derive(Debug, Clone, Copy, PartialEq, Eq, Structural)]
pub enum ColumnType {
    Number,
    Varchar(usize),
    Bool,
    Bytes(usize),
}

/// The type of a stored value.
#[derive(Debug, Clone, Copy, PartialEq, Eq, Structural)]
pub enum Type {
    Number,
    Varchar(usize),
    Bool,
    Bytes(usize),
}

/// A named column of a row with its type and width in bytes.
#[derive(Debug, Clone)]
pub struct Column {
    pub name: String,
    pub column_type: ColumnType,
    pub column_size: usize,
}

pub open spec fn type_size(t: ColumnType) -> usize {
    match t {
        ColumnType::Number => NUMBER_SIZE,
        ColumnType::Varchar(n) => n,
        ColumnType::Bool => BOOL_SIZE,
        ColumnType::Bytes(n) => n,
    }
}

/// The short code of a column type: `n`, `b`, `v` and the width, `y` and the width.
pub open spec fn type_code(t: ColumnType) -> Seq<char> {
    match t {
        ColumnType::Number => seq!['n'],
        ColumnType::Bool => seq!['b'],
        ColumnType::Varchar(n) => seq!['v'] + nat_digits(n as nat),
        ColumnType::Bytes(n) => seq!['y'] + nat_digits(n as nat),
    }
}

/// The column type a code stands for, or the message that says why none does.
pub open spec fn type_of_code(s: Seq<char>) -> Result<ColumnType, Seq<char>> {
    if s == seq!['n'] {
        Ok(ColumnType::Number)
    } else if s == seq!['b'] {
        Ok(ColumnType::Bool)
    } else if s.len() > 0 && s[0] == 'v' {
        match spec_parse_usize(s.drop_first()) {
            Some(n) => Ok(ColumnType::Varchar(n as usize)),
            None => Err("invalid varchar size: "@ + s.drop_first()),
        }
    } else if s.len() > 0 && s[0] == 'y' {
        match spec_parse_usize(s.drop_first()) {
            Some(n) => Ok(ColumnType::Bytes(n as usize)),
            None => Err("invalid bytes size: "@ + s.drop_first()),
        }
    } else {
        Err("unknown column type: "@ + s)
    }
}

impl ColumnType {
    /// The width in bytes of a value of this type.
    pub fn size(self) -> (r: usize)
        ensures
            r == type_size(self),
    {
        match self {
            ColumnType::Number => NUMBER_SIZE,
            ColumnType::Varchar(n) => n,
            ColumnType::Bool => BOOL_SIZE,
            ColumnType::Bytes(n) => n,
        }
    }

    /// The value type of this column type.
    pub fn to_type(self) -> (r: Type)
        ensures
            r == match self {
                ColumnType::Number => Type::Number,
                ColumnType::Varchar(n) => Type::Varchar(n),
                ColumnType::Bool => Type::Bool,
                ColumnType::Bytes(n) => Type::Bytes(n),
            },
    {
        match self {
            ColumnType::Number => Type::Number,
            ColumnType::Varchar(n) => Type::Varchar(n),
            ColumnType::Bool => Type::Bool,
            ColumnType::Bytes(n) => Type::Bytes(n),
        }
    }

    /// The short code of the type.
    pub fn to_text(self) -> (s: String)
        ensures
            s@ == type_code(self),
    {
        proof {
            reveal_strlit("n");
            reveal_strlit("b");
            reveal_strlit("v");
            reveal_strlit("y");
        }
        match self {
            ColumnType::Number => "n".to_string(),
            ColumnType::Bool => "b".to_string(),
            ColumnType::Varchar(n) => {
                let mut s = "v".to_string();
                let d = usize_text(n);
                s.append(d.as_str());
                s
            },
            ColumnType::Bytes(n) => {
                let mut s = "y".to_string();
                let d = usize_text(n);
                s.append(d.as_str());
                s
            },
        }
    }

    /// Reads a type from its short code.
    pub fn parse(s: &str) -> (r: Result<ColumnType, String>)
        ensures
            match r {
                Ok(t) => type_of_code(s@) == Ok::<ColumnType, Seq<char>>(t),
                Err(e) => type_of_code(s@) == Err::<ColumnType, Seq<char>>(e@),
            },
    {
        proof {
            reveal_strlit("invalid varchar size: ");
            reveal_strlit("invalid bytes size: ");
            reveal_strlit("unknown column type: ");
        }
        let c = chars_of(s);
        if c.len() == 1 && c[0] == 'n' {
            proof {
                assert(s@ =~= seq!['n']);
            }
            return Ok(ColumnType::Number);
        }
        if c.len() == 1 && c[0] == 'b' {
            proof {
                assert(s@ =~= seq!['b']);
            }
            return Ok(ColumnType::Bool);
        }
        proof {
            assert(s@ != seq!['n']);
            assert(s@ != seq!['b']);
        }
        if c.len() > 0 && (c[0] == 'v' || c[0] == 'y') {
            let rest = chars_range(c.as_slice(), 1, c.len());
            proof {
                assert(rest@ =~= s@.drop_first());
            }
            match parse_usize(rest.as_slice()) {
                Some(n) => {
                    if c[0] == 'v' {
                        Ok(ColumnType::Varchar(n))
                    } else {
                        Ok(ColumnType::Bytes(n))
                    }
                },
                None => {
                    let mut e = if c[0] == 'v' {
                        "invalid varchar size: ".to_string()
                    } else {
                        "invalid bytes size: ".to_string()
                    };
                    let tail = string_from_chars(rest.as_slice());
                    e.append(tail.as_str());
                    Err(e)
                },
            }
        } else {
            let mut e = "unknown column type: ".to_string();
            e.append(s);
            Err(e)
        }
    }
}

/// A type's code reads back as the type.
pub proof fn lemma_type_code_roundtrip(t: ColumnType)
    ensures
        type_of_code(type_code(t)) == Ok::<ColumnType, Seq<char>>(t),
{
    match t {
        ColumnType::Varchar(n) => {
            crate::text::lemma_parse_usize_digits(n as nat);
            let c = type_code(t);
            assert(c.drop_first() =~= nat_digits(n as nat));
            crate::text::lemma_nat_digits(n as nat);
            assert(c[0] == 'v');
            assert(c.len() >= 2);
            assert(c != seq!['n']);
            assert(c != seq!['b']);
            assert(spec_parse_usize(c.drop_first()) == Some(n as nat));
            assert(!(c == seq!['n']));
            assert(type_of_code(c) == Ok::<ColumnType, Seq<char>>(ColumnType::Varchar((n as nat) as usize)));
        },
        ColumnType::Bytes(n) => {
            crate::text::lemma_parse_usize_digits(n as nat);
            let c = type_code(t);
            assert(c.drop_first() =~= nat_digits(n as nat));
            crate::text::lemma_nat_digits(n as nat);
            assert(c[0] == 'y');
            assert(c.len() >= 2);
            assert(c != seq!['n']);
            assert(c != seq!['b']);
            assert(spec_parse_usize(c.drop_first()) == Some(n as nat));
        },
        ColumnType::Number => {
            assert(type_code(t) =~= seq!['n']);
        },
        ColumnType::Bool => {
            assert(type_code(t) =~= seq!['b']);
            assert(seq!['b'][0] != seq!['n'][0]);
        },
    }
}

/// The text of a column: its name, `:` and its type's code.
pub open spec fn column_text(name: Seq<char>, t: ColumnType) -> Seq<char> {
    name + seq![':'] + type_code(t)
}

/// The column a text stands for: the name before the first `:`, the type
/// after it; or the message that says why there is none.
pub open spec fn column_of_text(s: Seq<char>) -> Result<(Seq<char>, ColumnType), Seq<char>> {
    if exists|i: int| 0 <= i < s.len() && s[i] == ':' {
        let i = choose|i: int| 0 <= i < s.len() && s[i] == ':' && forall|j: int| 0 <= j < i ==> s[j] != ':';
        match type_of_code(s.skip(i + 1)) {
            Ok(t) => Ok((s.take(i), t)),
            Err(e) => Err(e),
        }
    } else {
        Err("invalid column format: "@ + s)
    }
}

impl Column {
    /// A column of the given type, as wide as the type.
    pub fn new(name: String, column_type: ColumnType) -> (c: Column)
        ensures
            c.name@ == name@,
            c.column_type == column_type,
            c.column_size == type_size(column_type),
    {
        Column { name, column_size: column_type.size(), column_type }
    }

    /// `name:code`.
    pub fn to_text(&self) -> (s: String)
        ensures
            s@ == column_text(self.name@, self.column_type),
    {
        proof {
            reveal_strlit(":");
        }
        let mut s = self.name.clone();
        s.append(":");
        let t = self.column_type.to_text();
        s.append(t.as_str());
        s
    }

    /// Reads a column from `name:code`.
    pub fn parse(s: &str) -> (r: Result<Column, String>)
        ensures
            match r {
                Ok(c) => column_of_text(s@) == Ok::<(Seq<char>, ColumnType), Seq<char>>((c.name@, c.column_type))
                    && c.column_size == type_size(c.column_type),
                Err(e) => column_of_text(s@) == Err::<(Seq<char>, ColumnType), Seq<char>>(e@),
            },
    {
        proof {
            reveal_strlit("invalid column format: ");
        }
        let c = chars_of(s);
        match find_char(c.as_slice(), ':') {
            None => {
                let mut e = "invalid column format: ".to_string();
                e.append(s);
                Err(e)
            },
            Some(i) => {
                let name_chars = chars_range(c.as_slice(), 0, i);
                let type_chars = chars_range(c.as_slice(), i + 1, c.len());
                let name = string_from_chars(name_chars.as_slice());
                let type_str = string_from_chars(type_chars.as_slice());
                proof {
                    assert(type_chars@ =~= s@.skip(i + 1));
                    assert(name_chars@ =~= s@.take(i as int));
                    assert forall|k: int| 0 <= k < i implies s@[k] != ':' by {
                        assert(s@.take(i as int)[k] == s@[k]);
                    }
                    let j = choose|j: int| 0 <= j < s@.len() && s@[j] == ':' && forall|k: int| 0 <= k < j ==> s@[k] != ':';
                    if j < i {
                        assert(s@[j] != ':');
                    } else if j > i {
                        assert(s@[i as int] != ':');
                    }
                }
                match ColumnType::parse(type_str.as_str()) {
                    Ok(t) => Ok(Column::new(name, t)),
                    Err(e) => Err(e),
                }
            },
        }
    }

    /// The storage field of the column: numbers as 64-bit floats, text as
    /// UTF-8, flags as booleans, bytes as binary; as wide as the column.
    pub fn to_field(&self) -> (f: Field)
        ensures
            f@ == column_field(self.name@, self.column_type, self.column_size),
    {
        let dt = match self.column_type {
            ColumnType::Number => DataType::Float64,
            ColumnType::Varchar(_) => DataType::Utf8,
            ColumnType::Bool => DataType::Boolean,
            ColumnType::Bytes(_) => DataType::Binary,
        };
        crate::field::field_with_size(self.name.as_str(), dt, self.column_size)
    }
}

/// The storage field of a column.
pub open spec fn column_field(name: Seq<char>, t: ColumnType, size: usize) -> FieldV {
    crate::field::sized_field(
        name,
        match t {
            ColumnType::Number => DataType::Float64,
            ColumnType::Varchar(_) => DataType::Utf8,
            ColumnType::Bool => DataType::Boolean,
            ColumnType::Bytes(_) => DataType::Binary,
        },
        size,
    )
}

/// What each column type is: a number is stored as a `Float64` of 8 bytes
/// with the code `n`; a boolean as a `Boolean` of 1 byte with the code `b`; a
/// `Varchar(n)` as `Utf8` text of `n` bytes with the code `v` and `n` in
/// decimal; `Bytes(n)` as `Binary` of `n` bytes with the code `y` and `n`.
pub proof fn lemma_column_types(name: Seq<char>, t: ColumnType, size: usize)
    ensures
        t == ColumnType::Number ==> type_code(t) == seq!['n'] && type_size(t) == 8 && column_field(
            name,
            t,
            size,
        ).data_type == DataType::Float64,
        t == ColumnType::Bool ==> type_code(t) == seq!['b'] && type_size(t) == 1 && column_field(
            name,
            t,
            size,
        ).data_type == DataType::Boolean,
        t matches ColumnType::Varchar(n) ==> type_code(t) == seq!['v'] + nat_digits(n as nat) && type_size(t)
            == n && column_field(name, t, size).data_type == DataType::Utf8,
        t matches ColumnType::Bytes(n) ==> type_code(t) == seq!['y'] + nat_digits(n as nat) && type_size(t)
            == n && column_field(name, t, size).data_type == DataType::Binary,
        column_field(name, t, size).name == name && column_field(name, t, size).size == Some(size)
            && !column_field(name, t, size).nullable,
{
}

/// A column whose name has no `:` reads back from its text.
pub proof fn lemma_column_text_roundtrip(name: Seq<char>, t: ColumnType)
    requires
        forall|j: int| 0 <= j < name.len() ==> name[j] != ':',
    ensures
        column_of_text(column_text(name, t)) == Ok::<(Seq<char>, ColumnType), Seq<char>>((name, t)),
{
    let s = column_text(name, t);
    let n = name.len() as int;
    assert(s[n] == ':');
    let i = choose|i: int| 0 <= i < s.len() && s[i] == ':' && forall|j: int| 0 <= j < i ==> s[j] != ':';
    assert(0 <= n < s.len() && s[n] == ':' && forall|j: int| 0 <= j < n ==> s[j] != ':');
    if i < n {
        assert(s[i] == name[i]);
    } else if i > n {
        assert(s[n] != ':');
    }
    assert(s.take(n) =~= name);
    assert(s.skip(n + 1) =~= type_code(t));
    lemma_type_code_roundtrip(t);
}

} // verus!
