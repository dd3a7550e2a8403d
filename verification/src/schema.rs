use vstd::prelude::*;

use crate::field::{byte_size_of, Field, FieldExt, FieldV};
use crate::value::DataType;

verus! {

/// The columns of a table, in order, with the table's name when it has one.
#[derive(Debug, Clone)]
pub struct Schema {
    pub fields: Vec<Field>,
    pub table_name: Option<String>,
}

pub ghost struct SchemaV {
    pub fields: Seq<FieldV>,
    pub table_name: Option<Seq<char>>,
}

pub open spec fn field_views(fs: Seq<Field>) -> Seq<FieldV> {
    fs.map_values(|f: Field| f@)
}

impl View for Schema {
    type V = SchemaV;

    open spec fn view(&self) -> SchemaV {
        SchemaV {
            fields: field_views(self.fields@),
            table_name: match self.table_name {
                Some(n) => Some(n@),
                None => None,
            },
        }
    }
}

/// The sum of the byte sizes of `fs`.
pub open spec fn row_size_of(fs: Seq<FieldV>) -> nat
    decreases fs.len(),
{
    if fs.len() == 0 {
        0
    } else {
        row_size_of(fs.drop_last()) + byte_size_of(fs.last()) as nat
    }
}

pub proof fn lemma_row_size_prefix(fs: Seq<FieldV>, i: int)
    requires
        0 <= i <= fs.len(),
    ensures
        row_size_of(fs.take(i)) <= row_size_of(fs),
    decreases fs.len(),
{
    if i < fs.len() {
        assert(fs.drop_last().take(i) =~= fs.take(i));
        lemma_row_size_prefix(fs.drop_last(), i);
    } else {
        assert(fs.take(i) =~= fs);
    }
}

/// The position of the first field of `fs` from `i` on called `name`.
pub open spec fn position_from(fs: Seq<FieldV>, name: Seq<char>, i: int) -> Option<int>
    decreases fs.len() - i,
{
    if i < 0 || i >= fs.len() {
        None
    } else if fs[i].name == name {
        Some(i)
    } else {
        position_from(fs, name, i + 1)
    }
}

/// The position of the first field of `fs` called `name`.
pub open spec fn position_of(fs: Seq<FieldV>, name: Seq<char>) -> Option<int> {
    position_from(fs, name, 0)
}

/// Skipping fields of other names does not move the first one called `name`.
pub proof fn lemma_position_skip(fs: Seq<FieldV>, name: Seq<char>, i: int, j: int)
    requires
        0 <= i <= j,
        forall|k: int| i <= k < j && k < fs.len() ==> #[trigger] fs[k].name != name,
    ensures
        position_from(fs, name, i) == position_from(fs, name, j),
    decreases j - i,
{
    if i < j && i < fs.len() {
        lemma_position_skip(fs, name, i + 1, j);
    }
}

/// The first field called `name` is one of the fields, and has that name.
pub proof fn lemma_position_in(fs: Seq<FieldV>, name: Seq<char>, i: int)
    ensures
        position_from(fs, name, i) matches Some(k) ==> i <= k < fs.len() && fs[k].name == name,
    decreases fs.len() - i,
{
    if 0 <= i < fs.len() && fs[i].name != name {
        lemma_position_in(fs, name, i + 1);
    }
}

/// Database-specific facts about a schema.
pub trait SchemaExt {
    /// Whether the sum of the fields' sizes fits in a `usize`.
    spec fn size_fits(&self) -> bool;

    fn table_name(&self) -> Option<&str>;

    fn row_size(&self) -> usize
        requires
            self.size_fits(),
    ;
}

impl SchemaExt for Schema {
    open spec fn size_fits(&self) -> bool {
        row_size_of(self@.fields) <= usize::MAX
    }

    /// The name of the table the schema belongs to.
    fn table_name(&self) -> (r: Option<&str>)
        ensures
            match r {
                Some(n) => self@.table_name == Some(n@),
                None => self@.table_name is None,
            },
    {
        match &self.table_name {
            Some(n) => Some(n.as_str()),
            None => None,
        }
    }

    /// The bytes a stored row of the schema takes: the sum of its fields' sizes.
    fn row_size(&self) -> (r: usize)
        ensures
            r == row_size_of(self@.fields),
    {
        row_size(self.fields.as_slice())
    }
}

/// The sum of the fields' byte sizes.
pub fn row_size(fields: &[Field]) -> (r: usize)
    requires
        row_size_of(field_views(fields@)) <= usize::MAX,
    ensures
        r == row_size_of(field_views(fields@)),
{
    let ghost fs = field_views(fields@);
    let mut total: usize = 0;
    let mut i: usize = 0;
    while i < fields.len()
        invariant
            0 <= i <= fields@.len(),
            fs == field_views(fields@),
            row_size_of(fs) <= usize::MAX,
            total == row_size_of(fs.take(i as int)),
        decreases fields@.len() - i,
    {
        proof {
            assert(fs.take(i + 1).drop_last() =~= fs.take(i as int));
            assert(fs.take(i + 1).last() == fields@[i as int]@);
            lemma_row_size_prefix(fs, i + 1);
        }
        let size = fields[i].byte_size();
        total = total + size;
        i = i + 1;
    }
    proof {
        assert(fs.take(i as int) =~= fs);
    }
    total
}

impl Schema {
    /// The first field called `name`.
    pub fn field_with_name(&self, name: &str) -> (r: Option<&Field>)
        ensures
            match r {
                Some(f) => position_of(self@.fields, name@) matches Some(i) && 0 <= i < self@.fields.len()
                    && self@.fields[i] == f@,
                None => position_of(self@.fields, name@) is None,
            },
    {
        let ghost fs = self@.fields;
        let mut i: usize = 0;
        while i < self.fields.len()
            invariant
                0 <= i <= self.fields@.len(),
                fs == self@.fields,
                forall|j: int| 0 <= j < i ==> #[trigger] fs[j].name != name@,
            decreases self.fields@.len() - i,
        {
            proof {
                assert(fs[i as int] == self.fields@[i as int]@);
            }
            if crate::text::str_equal(self.fields[i].name.as_str(), name) {
                proof {
                    lemma_position_skip(fs, name@, 0, i as int);
                }
                return Some(&self.fields[i]);
            }
            i = i + 1;
        }
        proof {
            lemma_position_skip(fs, name@, 0, i as int);
        }
        None
    }

    /// A copy of the schema.
    pub fn copy(&self) -> (r: Schema)
        ensures
            r@ == self@,
    {
        let mut fields: Vec<Field> = Vec::new();
        let mut i: usize = 0;
        while i < self.fields.len()
            invariant
                0 <= i <= self.fields@.len(),
                field_views(fields@) == field_views(self.fields@).take(i as int),
            decreases self.fields@.len() - i,
        {
            let c = self.fields[i].copy();
            let ghost prev = fields@;
            fields.push(c);
            proof {
                assert(fields@ == prev.push(c));
                assert(field_views(fields@) =~= field_views(prev).push(c@));
                assert(field_views(self.fields@).take(i + 1) =~= field_views(self.fields@).take(
                    i as int,
                ).push(self.fields@[i as int]@));
            }
            i = i + 1;
        }
        proof {
            assert(field_views(self.fields@).take(i as int) =~= field_views(self.fields@));
        }
        let table_name = match &self.table_name {
            Some(n) => Some(n.clone()),
            None => None,
        };
        Schema { fields, table_name }
    }
}

/// A schema of the given fields for the table `table_name`.
pub fn new_table_schema(table_name: &str, fields: Vec<Field>) -> (s: Schema)
    ensures
        s@ == (SchemaV { fields: field_views(fields@), table_name: Some(table_name@) }),
{
    Schema { fields, table_name: Some(table_name.to_string()) }
}

} // verus!
