use vstd::prelude::*;

use indexmap::IndexMap;

use crate::btree::{max_cells, BTree};
use crate::column::{column_field, ColumnType, Column};
use crate::maps::{
    column_entries, columns_contains, columns_get, columns_get_index, columns_insert, columns_len, columns_new,
    inserted, key_position,
};
use crate::constants::{MAX_COLUMNS_STR_LEN, MAX_TABLE_NAME_LEN, MAX_VARCHAR_LEN, NULL_BITMAP_SIZE};
use crate::error::Error;
use crate::field::{byte_size_of, field_text, field_with_size, sized_field, Field, FieldExt, FieldV};
use crate::pager::Pager;
use crate::schema::row_size_of;
use crate::text::chars_of;
use crate::value::{DataType, Value};
use vstd::utf8::encode_utf8;

verus! {

/// The fields of entries, in their order.
pub open spec fn fields_of(entries: Seq<(Seq<char>, FieldV)>) -> Seq<FieldV> {
    entries.map_values(|e: (Seq<char>, FieldV)| e.1)
}

/// The columns every user table starts with: its row id, the two
/// transaction ids and the bitmap of null columns.
pub open spec fn system_entries() -> Seq<(Seq<char>, FieldV)> {
    seq![
        ("_rowid"@, sized_field("_rowid"@, DataType::Float64, 8)),
        ("_tidmin"@, sized_field("_tidmin"@, DataType::Float64, 8)),
        ("_tidmax"@, sized_field("_tidmax"@, DataType::Float64, 8)),
        ("_null_bitmap"@, sized_field("_null_bitmap"@, DataType::Binary, NULL_BITMAP_SIZE)),
    ]
}

fn put_column(m: &mut IndexMap<String, Field>, name: &str, dt: DataType, size: usize)
    ensures
        column_entries(*final(m)) == inserted(column_entries(*old(m)), name@, sized_field(name@, dt, size)),
{
    let _ = columns_insert(m, name.to_string(), field_with_size(name, dt, size));
}

/// The system columns, in order.
pub fn system_columns() -> (m: IndexMap<String, Field>)
    ensures
        column_entries(m) == system_entries(),
{
    proof {
        reveal_strlit("_rowid");
        reveal_strlit("_tidmin");
        reveal_strlit("_tidmax");
        reveal_strlit("_null_bitmap");
    }
    let mut m = columns_new();
    put_column(&mut m, "_rowid", DataType::Float64, 8);
    put_column(&mut m, "_tidmin", DataType::Float64, 8);
    put_column(&mut m, "_tidmax", DataType::Float64, 8);
    put_column(&mut m, "_null_bitmap", DataType::Binary, NULL_BITMAP_SIZE);
    proof {
        let e0 = Seq::<(Seq<char>, FieldV)>::empty();
        assert(key_position(e0, "_rowid"@) is None);
        let e1 = e0.push(("_rowid"@, sized_field("_rowid"@, DataType::Float64, 8)));
        assert("_rowid"@[1] != "_tidmin"@[1]);
        assert(key_position(e1, "_tidmin"@) is None) by {
            if exists|i: int| 0 <= i < e1.len() && #[trigger] e1[i].0 == "_tidmin"@ {
                assert(e1[0].0 == "_rowid"@);
            }
        }
        let e2 = e1.push(("_tidmin"@, sized_field("_tidmin"@, DataType::Float64, 8)));
        assert("_tidmin"@[5] != "_tidmax"@[5]);
        assert(key_position(e2, "_tidmax"@) is None) by {
            if exists|i: int| 0 <= i < e2.len() && #[trigger] e2[i].0 == "_tidmax"@ {
                let i = choose|i: int| 0 <= i < e2.len() && #[trigger] e2[i].0 == "_tidmax"@;
                assert(e2[i].0[1] == "_tidmax"@[1]);
            }
        }
        let e3 = e2.push(("_tidmax"@, sized_field("_tidmax"@, DataType::Float64, 8)));
        assert(key_position(e3, "_null_bitmap"@) is None) by {
            if exists|i: int| 0 <= i < e3.len() && #[trigger] e3[i].0 == "_null_bitmap"@ {
                let i = choose|i: int| 0 <= i < e3.len() && #[trigger] e3[i].0 == "_null_bitmap"@;
                assert(e3[i].0.len() == "_null_bitmap"@.len());
            }
        }
        assert(column_entries(m) =~= system_entries());
    }
    m
}

/// An ASCII punctuation character other than `_`: not allowed in a column name.
pub open spec fn bad_name_char(c: char) -> bool {
    &&& c != '_'
    &&& {
        ||| '!' <= c <= '/'
        ||| ':' <= c <= '@'
        ||| '[' <= c <= '`'
        ||| '{' <= c <= '~'
    }
}

/// The characters not allowed in a column name are exactly ASCII's
/// punctuation but `_`: ``!"#$%&'()*+,-./:;<=>?@[\]^`{|}~``. No letter,
/// digit, space or character beyond ASCII is refused.
pub proof fn lemma_bad_name_chars(c: char)
    ensures
        bad_name_char(c) <==> (c == '!' || c == '"' || c == '#' || c == '$' || c == '%' || c == '&' || c
            == '\'' || c == '(' || c == ')' || c == '*' || c == '+' || c == ',' || c == '-' || c == '.' || c
            == '/' || c == ':' || c == ';' || c == '<' || c == '=' || c == '>' || c == '?' || c == '@' || c
            == '[' || c == '\\' || c == ']' || c == '^' || c == '`' || c == '{' || c == '|' || c == '}' || c
            == '~'),
        ('a' <= c <= 'z') || ('A' <= c <= 'Z') || ('0' <= c <= '9') || c == '_' || c == ' ' ==> !bad_name_char(c),
{
}

/// The first character of `s` not allowed in a column name, if any.
pub open spec fn first_bad_char(s: Seq<char>) -> Option<int> {
    if exists|i: int| 0 <= i < s.len() && bad_name_char(#[trigger] s[i]) {
        Some(choose|i: int| 0 <= i < s.len() && bad_name_char(#[trigger] s[i]) && forall|j: int| 0 <= j < i ==> !bad_name_char(s[j]))
    } else {
        None
    }
}

fn is_bad_name_char(c: char) -> (r: bool)
    ensures
        r == bad_name_char(c),
{
    c != '_' && (('!' <= c && c <= '/') || (':' <= c && c <= '@') || ('[' <= c && c <= '`') || ('{' <= c && c
        <= '~'))
}

fn find_bad_char(s: &[char]) -> (r: Option<usize>)
    ensures
        match r {
            Some(i) => i < s@.len() && first_bad_char(s@) == Some(i as int),
            None => first_bad_char(s@) is None,
        },
{
    let mut i: usize = 0;
    while i < s.len()
        invariant
            0 <= i <= s@.len(),
            forall|j: int| 0 <= j < i ==> !bad_name_char(#[trigger] s@[j]),
        decreases s@.len() - i,
    {
        if is_bad_name_char(s[i]) {
            proof {
                let k = choose|k: int| 0 <= k < s@.len() && bad_name_char(#[trigger] s@[k]) && forall|j: int|
                    0 <= j < k ==> !bad_name_char(s@[j]);
                if k < i {
                    assert(!bad_name_char(s@[k]));
                } else if k > i {
                    assert(!bad_name_char(s@[i as int]));
                }
            }
            return Some(i);
        }
        i = i + 1;
    }
    None
}

/// The reason given for a name with a character that is not allowed.
pub open spec fn bad_char_reason(c: char) -> Seq<char> {
    "contains invalid character '"@ + seq![c] + "'"@
}

/// Collects a table's name and columns, remembering the first thing wrong.
#[derive(Debug)]
pub struct TableBuilder {
    pub name: String,
    pub columns: IndexMap<String, Field>,
    pub error: Option<Error>,
}

impl TableBuilder {
    /// A builder for a table of the given name; a name longer than
    /// `MAX_TABLE_NAME_LEN` bytes is an error.
    pub fn new(name: &str) -> (b: TableBuilder)
        ensures
            b.name@ == name@,
            column_entries(b.columns) == Seq::<(Seq<char>, FieldV)>::empty(),
            match b.error {
                Some(Error::TableNameTooLong(n)) => n == name.len() && n > MAX_TABLE_NAME_LEN,
                Some(_) => false,
                None => name.len() <= MAX_TABLE_NAME_LEN,
            },
    {
        let len = name.len();
        let error = if len > MAX_TABLE_NAME_LEN {
            Some(Error::TableNameTooLong(len))
        } else {
            None
        };
        TableBuilder { name: name.to_string(), columns: columns_new(), error }
    }

    /// Adds a column unless an error came before or the column is wrong: a
    /// name that starts with `_` is reserved, punctuation other than `_` is
    /// not allowed, a name already there is a duplicate, and text wider than
    /// `MAX_VARCHAR_LEN` is too long. The first error is kept.
    pub fn column(self, name: &str, column_type: ColumnType) -> (b: TableBuilder)
        ensures
            b.name == self.name,
            self.error is Some ==> b.error == self.error && b.columns == self.columns,
            self.error is None ==> {
                let n = name@;
                if n.len() > 0 && n[0] == '_' {
                    &&& b.error matches Some(Error::ReservedColumnName(m)) && m@ == n
                    &&& b.columns == self.columns
                } else if first_bad_char(n) is Some {
                    &&& b.error matches Some(Error::InvalidColumnName { name: m, reason })
                    &&& m@ == n
                    &&& reason@ == bad_char_reason(n[first_bad_char(n)->0])
                    &&& b.columns == self.columns
                } else if key_position(column_entries(self.columns), n) is Some {
                    &&& b.error matches Some(Error::DuplicateColumn(m)) && m@ == n
                    &&& b.columns == self.columns
                } else if column_type matches ColumnType::Varchar(len) && len > MAX_VARCHAR_LEN {
                    &&& b.error matches Some(Error::VarcharTooLong { max, got })
                    &&& max == MAX_VARCHAR_LEN
                    &&& column_type == ColumnType::Varchar(got)
                    &&& b.columns == self.columns
                } else {
                    &&& b.error is None
                    &&& column_entries(b.columns) == column_entries(self.columns).push(
                        (n, column_field(n, column_type, crate::column::type_size(column_type))),
                    )
                }
            },
    {
        let mut b = self;
        if b.error.is_some() {
            return b;
        }
        proof {
            reveal_strlit("contains invalid character '");
            reveal_strlit("'");
        }
        let c = chars_of(name);
        if c.len() > 0 && c[0] == '_' {
            b.error = Some(Error::ReservedColumnName(name.to_string()));
            return b;
        }
        match find_bad_char(c.as_slice()) {
            Some(i) => {
                let mut reason = "contains invalid character '".to_string();
                let mut one: Vec<char> = Vec::new();
                one.push(c[i]);
                let cs = crate::text::string_from_chars(one.as_slice());
                reason.append(cs.as_str());
                reason.append("'");
                proof {
                    assert(one@ =~= seq![name@[i as int]]);
                }
                b.error = Some(Error::InvalidColumnName { name: name.to_string(), reason });
                return b;
            },
            None => {},
        }
        if columns_contains(&b.columns, name) {
            b.error = Some(Error::DuplicateColumn(name.to_string()));
            return b;
        }
        match column_type {
            ColumnType::Varchar(len) => {
                if len > MAX_VARCHAR_LEN {
                    b.error = Some(Error::VarcharTooLong { max: MAX_VARCHAR_LEN, got: len });
                    return b;
                }
            },
            _ => {},
        }
        let col = Column::new(name.to_string(), column_type);
        let field = col.to_field();
        let _ = columns_insert(&mut b.columns, name.to_string(), field);
        b
    }
}

/// The entries after inserting each of `more`, in order (`IndexMap::extend`).
pub open spec fn extended(
    base: Seq<(Seq<char>, FieldV)>,
    more: Seq<(Seq<char>, FieldV)>,
) -> Seq<(Seq<char>, FieldV)>
    decreases more.len(),
{
    if more.len() == 0 {
        base
    } else {
        inserted(extended(base, more.drop_last()), more.last().0, more.last().1)
    }
}

/// Inserts every entry of `more` into `m`, in order.
fn extend_columns(m: &mut IndexMap<String, Field>, more: &IndexMap<String, Field>)
    ensures
        column_entries(*final(m)) == extended(column_entries(*old(m)), column_entries(*more)),
{
    let ghost base = column_entries(*m);
    let ghost es = column_entries(*more);
    let n = columns_len(more);
    let mut i: usize = 0;
    while i < n
        invariant
            0 <= i <= n,
            n == es.len(),
            es == column_entries(*more),
            column_entries(*m) == extended(base, es.take(i as int)),
        decreases n - i,
    {
        let (k, v) = columns_get_index(more, i).unwrap();
        let _ = columns_insert(m, k.clone(), v.copy());
        proof {
            assert(es.take(i + 1).drop_last() =~= es.take(i as int));
        }
        i = i + 1;
    }
    proof {
        assert(es.take(n as int) =~= es);
    }
}

/// The references to the fields of `m`, in order.
fn field_refs(m: &IndexMap<String, Field>) -> (v: Vec<&Field>)
    ensures
        crate::record::ref_views(v@) == fields_of(column_entries(*m)),
{
    let ghost es = column_entries(*m);
    let n = columns_len(m);
    let mut v: Vec<&Field> = Vec::new();
    let mut i: usize = 0;
    while i < n
        invariant
            0 <= i <= n,
            n == es.len(),
            es == column_entries(*m),
            crate::record::ref_views(v@) == fields_of(es.take(i as int)),
        decreases n - i,
    {
        let (_, f) = columns_get_index(m, i).unwrap();
        let ghost v0 = v@;
        v.push(f);
        proof {
            assert(v@ == v0.push(f));
            assert(crate::record::ref_views(v@) =~= crate::record::ref_views(v0).push(f@));
            assert(es.take(i + 1) =~= es.take(i as int).push(es[i as int]));
            assert(fields_of(es.take(i + 1)) =~= fields_of(es.take(i as int)).push(es[i as int].1));
        }
        i = i + 1;
    }
    proof {
        assert(es.take(n as int) =~= es);
    }
    v
}

/// A table: its columns, in order, with the first as key, over a B+tree.
#[derive(Debug)]
pub struct Table {
    pub name: String,
    pub columns: IndexMap<String, Field>,
    pub next_row_id: usize,
    pub primary_key_index: usize,
    pub btree: BTree,
}

impl Table {
    /// The table's fields, in order.
    pub open spec fn cols(&self) -> Seq<FieldV> {
        fields_of(column_entries(self.columns))
    }

    /// The tree's sizes are those of the columns, with the first as key.
    pub open spec fn wf(&self) -> bool {
        &&& self.cols().len() >= 1
        &&& self.btree.wf()
        &&& self.btree.row_size == row_size_of(self.cols())
        &&& self.btree.key_size == byte_size_of(self.cols()[0])
        &&& self.primary_key_index == 0
    }

    /// The pages hold nodes of this table and form a tree of levels.
    pub open spec fn stored_ok(&self, pager: &Pager) -> bool {
        &&& pager.wf()
        &&& self.btree.pages_ok(pager, self.cols())
        &&& self.btree.tree_shaped(pager, self.cols())
    }
}

/// The columns of a new table: those given when `clean`, otherwise the
/// system columns followed by those given.
pub open spec fn table_columns(user: Seq<(Seq<char>, FieldV)>, clean: bool) -> Seq<(Seq<char>, FieldV)> {
    if clean {
        user
    } else {
        extended(system_entries(), user)
    }
}

/// A page of zeros holds every node that a new tree can be made over.
proof fn lemma_new_tree_ok(tree: &BTree, before: &Pager, after: &Pager, cols: Seq<FieldV>)
    requires
        tree.wf(),
        tree.pages_ok(before, cols),
        crate::btree::cols_ok(cols, tree.row_size as nat),
        tree.root_page == before.next(),
        after.next() == before.next() + 1,
        after.page(tree.root_page as int) == crate::node::node_written(
            crate::btree::empty_leaf(),
            before.page(tree.root_page as int),
            tree.key_size as nat,
            tree.row_size as nat,
            cols,
        ),
        forall|n: int| n != tree.root_page ==> #[trigger] after.page(n) == before.page(n),
    ensures
        tree.pages_ok(after, cols),
        tree.tree_shaped(after, cols),
        tree.holds(after, tree.root_page as int, crate::btree::empty_leaf(), cols),
{
    let e = crate::btree::empty_leaf();
    assert(crate::node::node_fits(e, tree.key_size as nat, tree.row_size as nat, cols, crate::pager::PAGE_SIZE as nat));
    crate::btree::lemma_write_keeps_ok(tree, before, after, tree.root_page as int, e, cols);
    let levels = Map::<int, nat>::empty().insert(tree.root_page as int, 0);
    assert(tree.level_ok(after, levels, tree.root_page as int, cols));
    assert(tree.shaped(after, levels, cols));
    assert(levels.dom().contains(tree.root_page as int));
}

impl Table {
    /// A table over a new tree whose root is a new empty leaf.
    pub fn from_columns(name: String, user_columns: IndexMap<String, Field>, pager: &mut Pager, clean: bool) -> (r:
        Result<Table, Error>)
        requires
            old(pager).wf(),
            old(pager).next() < usize::MAX - 1,
            fields_of(table_columns(column_entries(user_columns), clean)).len() >= 1,
            row_size_of(fields_of(table_columns(column_entries(user_columns), clean))) + byte_size_of(
                fields_of(table_columns(column_entries(user_columns), clean))[0],
            ) + 4 <= usize::MAX,
            row_size_of(fields_of(table_columns(column_entries(user_columns), clean))) > 0,
        ensures
            match r {
                Ok(t) => {
                    &&& t.wf()
                    &&& t.name == name
                    &&& column_entries(t.columns) == table_columns(column_entries(user_columns), clean)
                    &&& t.next_row_id == 0
                    &&& t.btree.root_page == old(pager).next()
                    &&& final(pager).wf()
                    &&& final(pager).next() == old(pager).next() + 1
                    &&& t.btree.holds(final(pager), t.btree.root_page as int, crate::btree::empty_leaf(), t.cols())
                    &&& forall|n: int| n != t.btree.root_page ==> #[trigger] final(pager).page(n) == old(pager).page(n)
                    &&& t.btree.pages_ok(old(pager), t.cols()) ==> t.stored_ok(final(pager))
                },
                Err(_) => false,
            },
    {
        let columns = if clean {
            user_columns
        } else {
            let mut cols = system_columns();
            extend_columns(&mut cols, &user_columns);
            cols
        };
        let refs = field_refs(&columns);
        let ghost cv = crate::record::ref_views(refs@);
        let mut row_size: usize = 0;
        let mut i: usize = 0;
        while i < refs.len()
            invariant
                0 <= i <= refs@.len(),
                cv == crate::record::ref_views(refs@),
                row_size_of(cv) + byte_size_of(cv[0]) + 4 <= usize::MAX,
                row_size == row_size_of(cv.take(i as int)),
            decreases refs@.len() - i,
        {
            proof {
                crate::schema::lemma_row_size_prefix(cv, i as int + 1);
                assert(cv.take(i + 1).drop_last() =~= cv.take(i as int));
                assert(cv.take(i + 1).last() == cv[i as int]);
            }
            row_size = row_size + refs[i].byte_size();
            i = i + 1;
        }
        proof {
            assert(cv.take(refs@.len() as int) =~= cv);
        }
        let key_size = refs[0].byte_size();
        let ghost before = *pager;
        let btree = BTree::new(row_size, key_size, pager, refs.as_slice());
        proof {
            if btree.pages_ok(&before, cv) {
                assert(crate::btree::cols_ok(cv, btree.row_size as nat));
                lemma_new_tree_ok(&btree, &before, pager, cv);
            }
            assert(crate::node::node_fits(crate::btree::empty_leaf(), key_size as nat, row_size as nat, cv, crate::pager::PAGE_SIZE as nat));
            before.lemma_page_len(btree.root_page as int);
            crate::node::lemma_written_holds(crate::btree::empty_leaf(), before.page(btree.root_page as int), key_size as nat, row_size as nat, cv);
        }
        Ok(Table { name, columns, next_row_id: 0, primary_key_index: 0, btree })
    }
}

/// The entries of columns given by name and type, each as wide as its
/// type, inserted in order.
pub open spec fn typed_entries(cols: Seq<(String, ColumnType)>) -> Seq<(Seq<char>, FieldV)>
    decreases cols.len(),
{
    if cols.len() == 0 {
        Seq::empty()
    } else {
        let (n, t) = cols.last();
        inserted(typed_entries(cols.drop_last()), n@, column_field(n@, t, crate::column::type_size(t)))
    }
}

impl Table {
    /// A table of the given columns after the system ones, over a new tree.
    pub fn new(name: String, columns: Vec<(String, ColumnType)>, pager: &mut Pager) -> (r: Result<Table, Error>)
        requires
            old(pager).wf(),
            old(pager).next() < usize::MAX - 1,
            row_size_of(fields_of(table_columns(typed_entries(columns@), false))) + byte_size_of(
                fields_of(table_columns(typed_entries(columns@), false))[0],
            ) + 4 <= usize::MAX,
            row_size_of(fields_of(table_columns(typed_entries(columns@), false))) > 0,
        ensures
            match r {
                Ok(t) => {
                    &&& t.wf()
                    &&& t.name == name
                    &&& column_entries(t.columns) == table_columns(typed_entries(columns@), false)
                    &&& t.btree.root_page == old(pager).next()
                    &&& final(pager).wf()
                    &&& final(pager).next() == old(pager).next() + 1
                    &&& t.btree.holds(final(pager), t.btree.root_page as int, crate::btree::empty_leaf(), t.cols())
                    &&& forall|n: int| n != t.btree.root_page ==> #[trigger] final(pager).page(n) == old(pager).page(n)
                },
                Err(_) => false,
            },
    {
        let ghost cv = columns@;
        let mut user_columns = columns_new();
        let mut i: usize = 0;
        while i < columns.len()
            invariant
                0 <= i <= cv.len(),
                cv == columns@,
                column_entries(user_columns) == typed_entries(cv.take(i as int)),
            decreases cv.len() - i,
        {
            let c = Column::new(columns[i].0.clone(), columns[i].1);
            let f = c.to_field();
            let _ = columns_insert(&mut user_columns, columns[i].0.clone(), f);
            proof {
                assert(cv.take(i + 1).drop_last() =~= cv.take(i as int));
                assert(cv.take(i + 1).last() == cv[i as int]);
            }
            i = i + 1;
        }
        proof {
            assert(cv.take(cv.len() as int) =~= cv);
            lemma_extended_len(system_entries(), typed_entries(cv));
        }
        Table::from_columns(name, user_columns, pager, false)
    }
}

/// The length in bytes of the stored text of a field, as `str::len` gives it.
pub open spec fn text_bytes(f: FieldV) -> usize {
    encode_utf8(field_text(f)).len() as usize
}

/// The bytes of the stored text of the fields, `;` between them.
pub open spec fn texts_len(fs: Seq<FieldV>) -> nat
    decreases fs.len(),
{
    if fs.len() == 0 {
        0
    } else if fs.len() == 1 {
        text_bytes(fs[0]) as nat
    } else {
        texts_len(fs.drop_last()) + 1 + text_bytes(fs.last()) as nat
    }
}

/// Inserting never shortens the entries.
proof fn lemma_extended_len(base: Seq<(Seq<char>, FieldV)>, more: Seq<(Seq<char>, FieldV)>)
    ensures
        extended(base, more).len() >= base.len(),
    decreases more.len(),
{
    if more.len() > 0 {
        lemma_extended_len(base, more.drop_last());
    }
}

/// The stored text of the fields of `m`, their bytes summed with one byte
/// for each `;` between them; the sum stops at `usize::MAX`.
fn columns_text_len(m: &IndexMap<String, Field>) -> (r: usize)
    ensures
        r == if texts_len(fields_of(column_entries(*m))) <= usize::MAX {
            texts_len(fields_of(column_entries(*m)))
        } else {
            usize::MAX as nat
        },
{
    let ghost fs = fields_of(column_entries(*m));
    let n = columns_len(m);
    let mut total: usize = 0;
    let mut i: usize = 0;
    while i < n
        invariant
            0 <= i <= n,
            n == fs.len(),
            fs == fields_of(column_entries(*m)),
            total == if texts_len(fs.take(i as int)) <= usize::MAX {
                texts_len(fs.take(i as int))
            } else {
                usize::MAX as nat
            },
        decreases n - i,
    {
        let (_, f) = columns_get_index(m, i).unwrap();
        let text = crate::field::serialize_field(f);
        let len = text.as_str().len();
        proof {
            assert(fs.take(i + 1).drop_last() =~= fs.take(i as int));
            assert(fs.take(i + 1).last() == fs[i as int]);
            assert(f@ == fs[i as int]);
            assert(len == text_bytes(fs[i as int]));
            if i == 0 {
                assert(fs.take(1)[0] == fs[0]);
            }
        }
        if i == 0 {
            total = len;
        } else {
            total = total.saturating_add(1).saturating_add(len);
        }
        i = i + 1;
    }
    proof {
        assert(fs.take(n as int) =~= fs);
    }
    total
}

impl TableBuilder {
    /// The table the builder describes, over a new tree: the first error
    /// recorded, no columns, or a stored list of columns longer than
    /// `MAX_COLUMNS_STR_LEN` bytes make it fail.
    pub fn build(self, pager: &mut Pager) -> (r: Result<Table, Error>)
        requires
            old(pager).wf(),
            old(pager).next() < usize::MAX - 1,
            self.error is None ==> 0 < row_size_of(fields_of(extended(system_entries(), column_entries(self.columns))))
                && 2 * row_size_of(fields_of(extended(system_entries(), column_entries(self.columns)))) + 4
                <= usize::MAX,
        ensures
            match self.error {
                Some(e) => r == Err::<Table, Error>(e) && *final(pager) == *old(pager),
                None => {
                    let fs = fields_of(column_entries(self.columns));
                    if fs.len() == 0 {
                        r matches Err(Error::NoColumns) && *final(pager) == *old(pager)
                    } else if texts_len(fs) > MAX_COLUMNS_STR_LEN {
                        &&& r matches Err(Error::ColumnsTooLong(n))
                        &&& (texts_len(fs) <= usize::MAX ==> n == texts_len(fs))
                        &&& *final(pager) == *old(pager)
                    } else {
                        &&& r matches Ok(t)
                        &&& t.wf()
                        &&& t.name == self.name
                        &&& column_entries(t.columns) == extended(system_entries(), column_entries(self.columns))
                        &&& t.btree.root_page == old(pager).next()
                        &&& final(pager).wf()
                        &&& final(pager).next() == old(pager).next() + 1
                        &&& t.btree.holds(final(pager), t.btree.root_page as int, crate::btree::empty_leaf(), t.cols())
                        &&& forall|n: int|
                            n != t.btree.root_page ==> #[trigger] final(pager).page(n) == old(pager).page(n)
                        &&& t.btree.pages_ok(old(pager), t.cols()) ==> t.stored_ok(final(pager))
                    }
                },
            },
    {
        match self.error {
            Some(e) => return Err(e),
            None => {},
        }
        if columns_len(&self.columns) == 0 {
            return Err(Error::NoColumns);
        }
        let columns_str_len = columns_text_len(&self.columns);
        if columns_str_len > MAX_COLUMNS_STR_LEN {
            return Err(Error::ColumnsTooLong(columns_str_len));
        }
        proof {
            let fs = fields_of(extended(system_entries(), column_entries(self.columns)));
            lemma_extended_len(system_entries(), column_entries(self.columns));
            crate::schema::lemma_row_size_prefix(fs, 1);
            assert(fs.take(1).drop_last() =~= Seq::<FieldV>::empty());
            assert(fs.take(1).last() == fs[0]);
            assert(row_size_of(Seq::<FieldV>::empty()) == 0);
            assert(row_size_of(fs.take(1)) == byte_size_of(fs[0]));
        }
        Table::from_columns(self.name, self.columns, pager, false)
    }
}

impl Table {
    /// A table over a tree already stored, with its root at `root_page`.
    pub fn load(name: String, user_columns: IndexMap<String, Field>, root_page: usize, clean: bool) -> (t: Table)
        requires
            fields_of(table_columns(column_entries(user_columns), clean)).len() >= 1,
            row_size_of(fields_of(table_columns(column_entries(user_columns), clean))) + byte_size_of(
                fields_of(table_columns(column_entries(user_columns), clean))[0],
            ) + 4 <= usize::MAX,
            row_size_of(fields_of(table_columns(column_entries(user_columns), clean))) > 0,
        ensures
            t.wf(),
            t.name == name,
            column_entries(t.columns) == table_columns(column_entries(user_columns), clean),
            t.next_row_id == 0,
            t.btree.root_page == root_page,
    {
        let columns = if clean {
            user_columns
        } else {
            let mut cols = system_columns();
            extend_columns(&mut cols, &user_columns);
            cols
        };
        let refs = field_refs(&columns);
        let ghost cv = crate::record::ref_views(refs@);
        let mut row_size: usize = 0;
        let mut i: usize = 0;
        while i < refs.len()
            invariant
                0 <= i <= refs@.len(),
                cv == crate::record::ref_views(refs@),
                row_size_of(cv) + byte_size_of(cv[0]) + 4 <= usize::MAX,
                row_size == row_size_of(cv.take(i as int)),
            decreases refs@.len() - i,
        {
            proof {
                crate::schema::lemma_row_size_prefix(cv, i as int + 1);
                assert(cv.take(i + 1).drop_last() =~= cv.take(i as int));
                assert(cv.take(i + 1).last() == cv[i as int]);
            }
            row_size = row_size + refs[i].byte_size();
            i = i + 1;
        }
        proof {
            assert(cv.take(refs@.len() as int) =~= cv);
        }
        let key_size = refs[0].byte_size();
        let btree = BTree::load(root_page, row_size, key_size);
        Table { name, columns, next_row_id: 0, primary_key_index: 0, btree }
    }

    /// The column of that name.
    pub fn get_column(&self, column_name: &str) -> (r: Option<&Field>)
        ensures
            match key_position(column_entries(self.columns), column_name@) {
                Some(i) => r matches Some(f) && f@ == column_entries(self.columns)[i].1,
                None => r is None,
            },
    {
        columns_get(&self.columns, column_name)
    }

    /// The column of that name, unless the name is a system column's
    /// (it starts with `_`).
    pub fn get_user_column(&self, column_name: &str) -> (r: Option<&Field>)
        ensures
            column_name@.len() > 0 && column_name@[0] == '_' ==> r is None,
            !(column_name@.len() > 0 && column_name@[0] == '_') ==> match key_position(
                column_entries(self.columns),
                column_name@,
            ) {
                Some(i) => r matches Some(f) && f@ == column_entries(self.columns)[i].1,
                None => r is None,
            },
    {
        let c = chars_of(column_name);
        if c.len() > 0 && c[0] == '_' {
            return None;
        }
        columns_get(&self.columns, column_name)
    }

    /// The key column: the first one.
    pub fn key_column(&self) -> (f: &Field)
        requires
            self.wf(),
        ensures
            f@ == self.cols()[0],
    {
        columns_get_index(&self.columns, self.primary_key_index).unwrap().1
    }

    /// The columns, in order.
    pub fn columns(&self) -> (v: Vec<&Field>)
        ensures
            crate::record::ref_views(v@) == self.cols(),
    {
        field_refs(&self.columns)
    }

    /// The columns after the system ones, in order.
    pub fn user_columns(&self) -> (v: Vec<&Field>)
        ensures
            crate::record::ref_views(v@) == if self.cols().len() <= 4 {
                Seq::<FieldV>::empty()
            } else {
                self.cols().skip(4)
            },
    {
        let ghost fs = self.cols();
        let n = columns_len(&self.columns);
        let mut v: Vec<&Field> = Vec::new();
        if n <= 4 {
            proof {
                assert(crate::record::ref_views(v@) =~= Seq::<FieldV>::empty());
            }
            return v;
        }
        let mut i: usize = 4;
        while i < n
            invariant
                4 <= i <= n,
                n == fs.len(),
                fs == self.cols(),
                crate::record::ref_views(v@) == fs.subrange(4, i as int),
            decreases n - i,
        {
            let (_, f) = columns_get_index(&self.columns, i).unwrap();
            let ghost v0 = v@;
            v.push(f);
            proof {
                assert(v@ == v0.push(f));
                assert(crate::record::ref_views(v@) =~= crate::record::ref_views(v0).push(f@));
                assert(fs.subrange(4, i + 1) =~= fs.subrange(4, i as int).push(fs[i as int]));
            }
            i = i + 1;
        }
        proof {
            assert(fs.subrange(4, n as int) =~= fs.skip(4));
        }
        v
    }

    /// The page the tree's root is on.
    pub fn root_page(&self) -> (r: usize)
        ensures
            r == self.btree.root_page,
    {
        self.btree.root_page
    }

    /// The node page `page_num` holds.
    pub fn read_node(&self, pager: &mut Pager, page_num: usize) -> (r: Result<crate::node::Node, Error>)
        requires
            old(pager).wf(),
            page_num < usize::MAX,
            crate::node::node_readable(
                old(pager).page(page_num as int),
                self.btree.key_size as nat,
                self.btree.row_size as nat,
                self.cols(),
            ),
        ensures
            final(pager).wf(),
            final(pager).next() == old(pager).next(),
            forall|n: int| #[trigger] final(pager).page(n) == old(pager).page(n),
            r matches Ok(node) && node@ == self.btree.node_at(old(pager), page_num as int, self.cols()),
    {
        let cols = self.columns();
        self.btree.read_node(pager, page_num, cols.as_slice())
    }

    /// Reads the node of page `page_num`, hands it to `f` and gives back
    /// what `f` returns.
    pub fn with_node<R, F: FnOnce(&crate::node::Node) -> Result<R, Error>>(
        &self,
        pager: &mut Pager,
        page_num: usize,
        f: F,
    ) -> (r: Result<R, Error>)
        requires
            old(pager).wf(),
            page_num < usize::MAX,
            crate::node::node_readable(
                old(pager).page(page_num as int),
                self.btree.key_size as nat,
                self.btree.row_size as nat,
                self.cols(),
            ),
            forall|n: crate::node::Node|
                n@ == self.btree.node_at(old(pager), page_num as int, self.cols()) ==> #[trigger] f.requires((&n,)),
        ensures
            final(pager).wf(),
            final(pager).next() == old(pager).next(),
            forall|n: int| #[trigger] final(pager).page(n) == old(pager).page(n),
            exists|n: crate::node::Node|
                n@ == self.btree.node_at(old(pager), page_num as int, self.cols()) && #[trigger] f.ensures((&n,), r),
    {
        let cols = self.columns();
        self.btree.with_node(pager, page_num, cols.as_slice(), f)
    }

    /// Writes `node` to page `page_num`.
    pub fn write_node(&self, pager: &mut Pager, page_num: usize, node: &crate::node::Node) -> (r: Result<
        (),
        Error,
    >)
        requires
            old(pager).wf(),
            page_num < usize::MAX,
            crate::node::node_writable(
                node@,
                self.btree.key_size as nat,
                self.btree.row_size as nat,
                self.cols(),
                crate::pager::PAGE_SIZE as nat,
            ),
        ensures
            r is Ok,
            final(pager).wf(),
            final(pager).next() == old(pager).next(),
            final(pager).page(page_num as int) == crate::node::node_written(
                node@,
                old(pager).page(page_num as int),
                self.btree.key_size as nat,
                self.btree.row_size as nat,
                self.cols(),
            ),
            forall|n: int| n != page_num ==> #[trigger] final(pager).page(n) == old(pager).page(n),
    {
        let cols = self.columns();
        self.btree.write_node(pager, page_num, node, cols.as_slice())
    }

    /// Inserts `row` under `key`, over the row of an equal key if there is one.
    /// Afterwards a leaf page holds the cell of `key` and `row`, and every cell
    /// that a leaf page held before, but those of a key equal to `key`, one still holds.
    pub fn insert(&mut self, pager: &mut Pager, key: &crate::value::Value, row: &crate::record::Record) -> (r:
        Result<(), Error>)
        requires
            old(self).wf(),
            old(self).stored_ok(old(pager)),
            old(self).btree.max_cells_per_leaf >= 2,
            2 * old(pager).next() + 2 < 0xffff_ffff,
            crate::node::key_fits(key@, old(self).cols()[0], old(self).btree.key_size as nat),
            crate::record::fits_columns(row@, old(self).cols()),
        ensures
            r is Ok,
            final(self).name == old(self).name,
            final(self).columns == old(self).columns,
            final(self).next_row_id == old(self).next_row_id,
            final(self).primary_key_index == old(self).primary_key_index,
            final(self).btree == (BTree { root_page: final(self).btree.root_page, ..old(self).btree }),
            final(self).wf(),
            final(self).stored_ok(final(pager)),
            old(pager).next() <= final(pager).next() <= 2 * old(pager).next() + 1,
            exists|p: int|
                0 <= p < final(pager).next() && #[trigger] final(self).btree.stores(
                    final(pager),
                    p,
                    key@,
                    row@,
                    old(self).cols(),
                ),
            final(self).btree.cells_kept(old(pager), final(pager), key@, old(self).cols()),
            match old(self).btree.node_at(old(pager), old(self).btree.root_page as int, old(self).cols()) {
                crate::node::NodeV::Leaf { parent, cells, next_leaf } => cells.len()
                    < old(self).btree.max_cells_per_leaf ==> {
                    &&& final(self).btree.root_page == old(self).btree.root_page
                    &&& final(pager).next() == old(pager).next()
                    &&& exists|i: int, found: bool|
                        crate::btree::search_result(crate::btree::cell_keys(cells), key@, i, found)
                            && final(self).btree.holds(
                            final(pager),
                            old(self).btree.root_page as int,
                            crate::node::NodeV::Leaf {
                                parent,
                                cells: crate::btree::placed(cells, i, found, (key@, row@)),
                                next_leaf,
                            },
                            old(self).cols(),
                        )
                },
                crate::node::NodeV::Internal { .. } => true,
            },
    {
        let cols = field_refs(&self.columns);
        self.btree.insert(pager, key, row, cols.as_slice())
    }
}

/// The leaf reached from page `n` by following, on internal pages, the
/// pointer of the first pair (`right` false) or the rightmost child (`right`
/// true), within `fuel` steps.
pub open spec fn edge_leaf(pager: &Pager, n: int, right: bool, fuel: nat) -> Option<int>
    decreases fuel,
{
    if !(0 <= n < usize::MAX) {
        None
    } else if crate::node::stored_is_leaf(pager.page(n)) {
        Some(n)
    } else if fuel == 0 {
        None
    } else {
        edge_leaf(
            pager,
            if right {
                crate::node::stored_pointer(pager.page(n)) as int
            } else {
                crate::codec::le_u32_at(pager.page(n), 12) as int
            },
            right,
            (fuel - 1) as nat,
        )
    }
}

/// Every key of a page that holds a leaf of the table can be compared with
/// a key that can be compared with the key column's values.
proof fn lemma_leaf_searchable(
    page: Seq<u8>,
    key: crate::value::ValueV,
    cols: Seq<FieldV>,
    ks: nat,
    rs: nat,
)
    requires
        crate::btree::page_ok(page, ks, rs, cols),
        cols.len() >= 1,
        byte_size_of(cols[0]) == ks,
        ks + rs <= usize::MAX,
        crate::btree_search::searchable_with(key, cols[0].data_type),
    ensures
        crate::node::stored_is_leaf(page) ==> crate::btree::leaf_keys_searchable(page, key, cols[0], rs),
{
    if crate::node::stored_is_leaf(page) {
        assert forall|i: int| 0 <= i < crate::node::stored_num_cells(page) implies {
            let off = crate::node::leaf_cell_offset(i, byte_size_of(cols[0]) as int, rs as int);
            &&& off <= page.len()
            &&& crate::value::readable_from(page.skip(off), cols[0].data_type)
            &&& crate::value::comparable(#[trigger] crate::btree::stored_leaf_key(page, i, cols[0], rs), key)
        } by {
            assert(crate::node::leaf_cell_readable(page, i, ks, rs, cols));
            let off = crate::node::leaf_cell_offset(i, ks as int, rs as int);
            crate::btree_search::lemma_searchable(key, cols[0].data_type, page.skip(off));
        }
    }
}

impl Table {
    /// A cursor on the first cell of the leftmost leaf; at the end of the
    /// table when that leaf is empty.
    pub fn start(&self, pager: &mut Pager) -> (r: Result<crate::cursor::Cursor<'_>, Error>)
        requires
            old(pager).wf(),
            exists|fuel: nat| #[trigger] edge_leaf(old(pager), self.btree.root_page as int, false, fuel) is Some,
        ensures
            final(pager).wf(),
            final(pager).next() == old(pager).next(),
            forall|n: int| #[trigger] final(pager).page(n) == old(pager).page(n),
            match r {
                Ok(c) => {
                    &&& c.table == self
                    &&& exists|fuel: nat|
                        #[trigger] edge_leaf(old(pager), self.btree.root_page as int, false, fuel) == Some(
                            c.page_num as int,
                        )
                    &&& c.cell_num == 0
                    &&& c.eot == (crate::node::stored_num_cells(old(pager).page(c.page_num as int)) == 0)
                },
                Err(_) => false,
            },
    {
        self.walk_edge(pager, false)
    }

    /// A cursor past the last cell of the rightmost leaf, at the end of the table.
    pub fn end(&self, pager: &mut Pager) -> (r: Result<crate::cursor::Cursor<'_>, Error>)
        requires
            old(pager).wf(),
            exists|fuel: nat| #[trigger] edge_leaf(old(pager), self.btree.root_page as int, true, fuel) is Some,
        ensures
            final(pager).wf(),
            final(pager).next() == old(pager).next(),
            forall|n: int| #[trigger] final(pager).page(n) == old(pager).page(n),
            match r {
                Ok(c) => {
                    &&& c.table == self
                    &&& exists|fuel: nat|
                        #[trigger] edge_leaf(old(pager), self.btree.root_page as int, true, fuel) == Some(
                            c.page_num as int,
                        )
                    &&& c.cell_num == crate::node::stored_num_cells(old(pager).page(c.page_num as int))
                    &&& c.eot
                },
                Err(_) => false,
            },
    {
        self.walk_edge(pager, true)
    }

    /// Walks down the left or right edge of the tree to a leaf.
    fn walk_edge(&self, pager: &mut Pager, right: bool) -> (r: Result<crate::cursor::Cursor<'_>, Error>)
        requires
            old(pager).wf(),
            exists|fuel: nat| #[trigger] edge_leaf(old(pager), self.btree.root_page as int, right, fuel) is Some,
        ensures
            final(pager).wf(),
            final(pager).next() == old(pager).next(),
            forall|n: int| #[trigger] final(pager).page(n) == old(pager).page(n),
            match r {
                Ok(c) => {
                    &&& c.table == self
                    &&& exists|fuel: nat|
                        #[trigger] edge_leaf(old(pager), self.btree.root_page as int, right, fuel) == Some(
                            c.page_num as int,
                        )
                    &&& c.cell_num == if right {
                        crate::node::stored_num_cells(old(pager).page(c.page_num as int)) as int
                    } else {
                        0
                    }
                    &&& c.eot == if right {
                        true
                    } else {
                        crate::node::stored_num_cells(old(pager).page(c.page_num as int)) == 0
                    }
                },
                Err(_) => false,
            },
    {
        let ghost fuel0 = choose|fuel: nat| #[trigger] edge_leaf(old(pager), self.btree.root_page as int, right, fuel) is Some;
        let ghost target = edge_leaf(old(pager), self.btree.root_page as int, right, fuel0);
        let mut page_num = self.btree.root_page;
        let ghost mut fuel = fuel0;
        loop
            invariant
                pager.wf(),
                pager.next() == old(pager).next(),
                forall|n: int| #[trigger] pager.page(n) == old(pager).page(n),
                edge_leaf(old(pager), page_num as int, right, fuel) == target,
                target is Some,
                target == edge_leaf(old(pager), self.btree.root_page as int, right, fuel0),
            decreases fuel,
        {
            match pager.get_page(page_num) {
                Ok(_) => {},
                Err(e) => return Err(e),
            }
            let page = pager.page_at(page_num);
            proof {
                old(pager).lemma_page_len(page_num as int);
                assert(page.data@ == old(pager).page(page_num as int));
            }
            if crate::node::Node::read_is_leaf(&page.data) {
                let num_cells = crate::node::Node::read_num_cells(&page.data);
                if right {
                    return Ok(crate::cursor::Cursor { table: self, eot: true, page_num, cell_num: num_cells });
                } else {
                    return Ok(crate::cursor::Cursor { table: self, eot: num_cells == 0, page_num, cell_num: 0 });
                }
            } else {
                page_num = if right {
                    crate::node::Node::read_right_child(&page.data)
                } else {
                    crate::node::Node::read_left_child(&page.data)
                };
                proof {
                    fuel = (fuel - 1) as nat;
                }
            }
        }
    }

    /// Finds where `key` is or would go: the leaf a search reaches, the cell
    /// binary search stops at there, and whether that cell's key equals
    /// `key`. The cursor is at the end of the table when the leaf has no
    /// next leaf and the cell is past its last one.
    pub fn search(&self, pager: &mut Pager, key: &Value) -> (r: Result<(crate::cursor::Cursor<'_>, bool), Error>)
        requires
            self.wf(),
            self.stored_ok(old(pager)),
            crate::btree_search::searchable_with(key@, self.cols()[0].data_type),
        ensures
            final(pager).wf(),
            final(pager).next() == old(pager).next(),
            forall|n: int| #[trigger] final(pager).page(n) == old(pager).page(n),
            match r {
                Ok((c, found)) => {
                    let page = old(pager).page(c.page_num as int);
                    &&& c.table == self
                    &&& self.btree.leaf_reached(
                        old(pager),
                        self.btree.root_page as int,
                        key@,
                        self.cols()[0],
                        old(pager).next() as nat,
                    ) == Some(c.page_num as int)
                    &&& crate::node::stored_is_leaf(page)
                    &&& crate::btree::search_result(
                        crate::btree::stored_leaf_keys(page, self.cols()[0], self.btree.row_size as nat),
                        key@,
                        c.cell_num as int,
                        found,
                    )
                    &&& c.eot == (crate::node::stored_next_leaf(page) is None && c.cell_num
                        >= crate::node::stored_num_cells(page))
                },
                Err(_) => false,
            },
    {
        let ghost cv = self.cols();
        let ghost ks = self.btree.key_size as nat;
        let ghost rs = self.btree.row_size as nat;
        let key_column = self.key_column();
        proof {
            let levels = choose|levels: Map<int, nat>|
                self.btree.shaped(old(pager), levels, cv) && #[trigger] levels.dom().contains(
                    self.btree.root_page as int,
                );
            assert(self.btree.level_ok(old(pager), levels, self.btree.root_page as int, cv));
            assert(cv.len() >= 1 && cv[0] == key_column@ && self.btree.pages_ok(old(pager), cv)
                && self.btree.shaped(old(pager), levels, cv) && levels.dom().contains(self.btree.root_page as int));
            crate::btree_search::lemma_reached_in_tree(&self.btree, old(pager), levels, cv, self.btree.root_page as int, key@, old(pager).next() as nat);
        }
        let leaf_page = match self.btree.leaf_search(pager, self.btree.root_page, key, key_column) {
            Ok(p) => p,
            Err(e) => return Err(e),
        };
        let ghost page = old(pager).page(leaf_page as int);
        proof {
            assert(crate::btree::page_ok(page, ks, rs, cv));
            lemma_leaf_searchable(page, key@, cv, ks, rs);
            crate::btree_search::lemma_reached_is_leaf(&self.btree, old(pager), self.btree.root_page as int, key@, cv, old(pager).next() as nat);
        }
        let node = match self.read_node(pager, leaf_page) {
            Ok(n) => n,
            Err(e) => return Err(e),
        };
        let (cell_num, found) = match self.btree.cell_search(pager, leaf_page, key, key_column) {
            Ok(t) => t,
            Err(e) => return Err(e),
        };
        let eot = node.next_leaf().is_none() && cell_num >= node.num_cells();
        Ok((crate::cursor::Cursor { table: self, eot, page_num: leaf_page, cell_num }, found))
    }
}

/// A leaf that fits a page still fits without one of its cells.
proof fn lemma_leaf_remove_fits(
    parent: Option<usize>,
    cells: Seq<(crate::value::ValueV, Seq<crate::value::ValueV>)>,
    next_leaf: Option<usize>,
    i: int,
    ks: nat,
    rs: nat,
    cols: Seq<FieldV>,
)
    requires
        crate::node::node_fits(crate::node::NodeV::Leaf { parent, cells, next_leaf }, ks, rs, cols, crate::pager::PAGE_SIZE as nat),
        0 <= i < cells.len(),
    ensures
        crate::node::node_fits(
            crate::node::NodeV::Leaf { parent, cells: cells.remove(i), next_leaf },
            ks,
            rs,
            cols,
            crate::pager::PAGE_SIZE as nat,
        ),
{
    let c2 = cells.remove(i);
    crate::node::lemma_offset_le(c2.len() as int, cells.len() as int, (ks + rs) as int);
    assert forall|k: int| 0 <= k < c2.len() implies #[trigger] crate::node::cell_fits(c2, cols, ks, k) by {
        if k < i {
            assert(crate::node::cell_fits(cells, cols, ks, k));
        } else {
            assert(crate::node::cell_fits(cells, cols, ks, k + 1));
        }
    }
}

impl Table {
    /// Removes the cell of `key` from the leaf a search for it reaches, if
    /// that leaf has it; otherwise changes nothing.
    pub fn delete(&self, pager: &mut Pager, key: &Value) -> (r: Result<(), Error>)
        requires
            self.wf(),
            self.stored_ok(old(pager)),
            crate::btree_search::searchable_with(key@, self.cols()[0].data_type),
        ensures
            final(pager).wf(),
            final(pager).next() == old(pager).next(),
            self.stored_ok(final(pager)),
            match r {
                Ok(()) => match self.btree.leaf_reached(
                    old(pager),
                    self.btree.root_page as int,
                    key@,
                    self.cols()[0],
                    old(pager).next() as nat,
                ) {
                    Some(p) => match self.btree.node_at(old(pager), p, self.cols()) {
                        crate::node::NodeV::Leaf { parent, cells, next_leaf } => exists|i: int, found: bool|
                            #[trigger] crate::btree::search_result(crate::btree::cell_keys(cells), key@, i, found) && if found {
                                &&& self.btree.holds(
                                    final(pager),
                                    p,
                                    crate::node::NodeV::Leaf { parent, cells: cells.remove(i), next_leaf },
                                    self.cols(),
                                )
                                &&& forall|n: int| n != p ==> #[trigger] final(pager).page(n) == old(pager).page(n)
                            } else {
                                forall|n: int| #[trigger] final(pager).page(n) == old(pager).page(n)
                            },
                        crate::node::NodeV::Internal { .. } => false,
                    },
                    None => false,
                },
                Err(_) => false,
            },
    {
        let ghost cv = self.cols();
        let ghost ks = self.btree.key_size as nat;
        let ghost rs = self.btree.row_size as nat;
        let (cursor, found) = match self.search(pager, key) {
            Ok(t) => t,
            Err(e) => return Err(e),
        };
        let ghost s1 = *pager;
        let ghost p = cursor.page_num as int;
        let ghost n0 = self.btree.node_at(&s1, p, cv);
        proof {
            assert(crate::btree::page_ok(s1.page(p), ks, rs, cv));
            let levels = choose|levels: Map<int, nat>|
                self.btree.shaped(old(pager), levels, cv) && #[trigger] levels.dom().contains(
                    self.btree.root_page as int,
                );
            crate::btree_search::lemma_reached_in_tree(&self.btree, old(pager), levels, cv, self.btree.root_page as int, key@, old(pager).next() as nat);
            assert(crate::btree::stored_leaf_keys(s1.page(p), cv[0], rs) =~= crate::btree::cell_keys(n0->Leaf_cells));
            assert(self.btree.node_at(old(pager), p, cv) == n0);
        }
        if found {
            let node = match cursor.read_node(pager) {
                Ok(n) => n,
                Err(e) => return Err(e),
            };
            let new_node = match node {
                crate::node::Node::Leaf { parent, mut cells, next_leaf } => {
                    cells.remove(cursor.cell_num);
                    crate::node::Node::Leaf { parent, cells, next_leaf }
                },
                crate::node::Node::Internal { parent, keys, children } => crate::node::Node::Internal {
                    parent,
                    keys,
                    children,
                },
            };
            let ghost nn = crate::node::NodeV::Leaf {
                parent: n0->Leaf_parent,
                cells: n0->Leaf_cells.remove(cursor.cell_num as int),
                next_leaf: n0->Leaf_next_leaf,
            };
            proof {
                assert(crate::node::cell_views(new_node->Leaf_cells@) =~= n0->Leaf_cells.remove(cursor.cell_num as int));
                assert(new_node@ == nn);
                lemma_leaf_remove_fits(n0->Leaf_parent, n0->Leaf_cells, n0->Leaf_next_leaf, cursor.cell_num as int, ks, rs, cv);
                crate::node::lemma_fits_writable(nn, ks, rs, cv, crate::pager::PAGE_SIZE as nat);
            }
            let ghost s2 = *pager;
            match cursor.write_node(pager, &new_node) {
                Ok(()) => {},
                Err(e) => return Err(e),
            }
            proof {
                crate::btree::lemma_write_keeps_ok(&self.btree, &s2, pager, p, nn, cv);
                let levels = choose|levels: Map<int, nat>|
                    self.btree.shaped(&s1, levels, cv) && #[trigger] levels.dom().contains(self.btree.root_page as int);
                assert(self.btree.shaped(&s2, levels, cv));
                if levels.dom().contains(p) {
                    assert(self.btree.level_ok(&s2, levels, p, cv));
                    assert(self.btree.level_ok(pager, levels, p, cv));
                }
                crate::btree_insert::lemma_shaped_step(&self.btree, &s2, pager, levels, levels, set![p], cv);
                assert(levels.dom().contains(self.btree.root_page as int));
            }
        }
        Ok(())
    }
}

/// Texts joined with `;` between them.
pub open spec fn joined(texts: Seq<Seq<char>>) -> Seq<char>
    decreases texts.len(),
{
    if texts.len() == 0 {
        Seq::empty()
    } else if texts.len() == 1 {
        texts[0]
    } else {
        joined(texts.drop_last()) + seq![';'] + texts.last()
    }
}

/// The pieces of `s` between the `;` in it (`str::split(';')`).
pub open spec fn pieces(s: Seq<char>) -> Seq<Seq<char>>
    decreases s.len(),
{
    if s.len() == 0 {
        seq![Seq::empty()]
    } else {
        let rest = pieces(s.drop_first());
        if s[0] == ';' {
            seq![Seq::empty()] + rest
        } else {
            rest.update(0, seq![s[0]] + rest[0])
        }
    }
}

proof fn lemma_pieces_nonempty(s: Seq<char>)
    ensures
        pieces(s).len() >= 1,
    decreases s.len(),
{
    if s.len() > 0 {
        lemma_pieces_nonempty(s.drop_first());
    }
}

/// Splits `s` at each `;`.
fn split_pieces(s: &[char]) -> (v: Vec<Vec<char>>)
    ensures
        v@.len() == pieces(s@).len(),
        forall|i: int| 0 <= i < v@.len() ==> #[trigger] v@[i]@ == pieces(s@)[i],
{
    let mut done: Vec<Vec<char>> = Vec::new();
    let mut cur: Vec<char> = Vec::new();
    let mut i: usize = 0;
    proof {
        lemma_pieces_nonempty(s@);
        let p = pieces(s@);
        assert(s@.skip(0) =~= s@);
        assert(done@.map_values(|p: Vec<char>| p@) =~= Seq::<Seq<char>>::empty());
        assert(cur@ + p[0] =~= p[0]);
        assert(p =~= Seq::<Seq<char>>::empty() + seq![cur@ + p[0]] + p.skip(1));
    }
    while i < s.len()
        invariant
            0 <= i <= s@.len(),
            ({
                let rest = pieces(s@.skip(i as int));
                &&& rest.len() >= 1
                &&& pieces(s@) == done@.map_values(|p: Vec<char>| p@) + seq![cur@ + rest[0]] + rest.skip(1)
            }),
        decreases s@.len() - i,
    {
        proof {
            lemma_pieces_nonempty(s@.skip(i + 1));
            assert(s@.skip(i as int).drop_first() =~= s@.skip(i + 1));
            assert(s@.skip(i as int)[0] == s@[i as int]);
        }
        let ghost d0 = done@.map_values(|p: Vec<char>| p@);
        let ghost c0 = cur@;
        let ghost rest = pieces(s@.skip(i + 1));
        if s[i] == ';' {
            let piece = cur;
            done.push(piece);
            cur = Vec::new();
            proof {
                assert(done@.map_values(|p: Vec<char>| p@) =~= d0.push(c0));
                assert(pieces(s@.skip(i as int)) == seq![Seq::<char>::empty()] + rest);
                assert(d0 + seq![c0 + Seq::<char>::empty()] + (seq![Seq::<char>::empty()] + rest).skip(1)
                    =~= d0.push(c0) + seq![cur@ + rest[0]] + rest.skip(1));
            }
        } else {
            cur.push(s[i]);
            proof {
                assert(done@.map_values(|p: Vec<char>| p@) =~= d0);
                let r0 = pieces(s@.skip(i as int));
                assert(r0 == rest.update(0, seq![s@[i as int]] + rest[0]));
                assert(c0 + r0[0] =~= cur@ + rest[0]);
                assert(r0.skip(1) =~= rest.skip(1));
            }
        }
        i = i + 1;
    }
    proof {
        assert(s@.skip(i as int) =~= Seq::<char>::empty());
    }
    let ghost d1 = done@.map_values(|p: Vec<char>| p@);
    done.push(cur);
    proof {
        assert(done@.map_values(|p: Vec<char>| p@) =~= pieces(s@));
        assert forall|k: int| 0 <= k < done@.len() implies #[trigger] done@[k]@ == pieces(s@)[k] by {
            assert(done@.map_values(|p: Vec<char>| p@)[k] == done@[k]@);
        }
    }
    done
}

/// The entries after inserting each field under its own name.
pub open spec fn by_name(fs: Seq<FieldV>) -> Seq<(Seq<char>, FieldV)>
    decreases fs.len(),
{
    if fs.len() == 0 {
        Seq::empty()
    } else {
        inserted(by_name(fs.drop_last()), fs.last().name, fs.last())
    }
}

/// What a system-table row describes: a table's name, root page, user
/// columns and key column.
#[derive(Debug)]
pub struct TableMetadata {
    pub name: String,
    pub root_page: usize,
    pub user_columns: IndexMap<String, Field>,
    pub primary_key_index: usize,
}

/// Texts of the fields of `m`, in order.
fn field_texts(m: &IndexMap<String, Field>) -> (v: Vec<String>)
    ensures
        v@.len() == column_entries(*m).len(),
        forall|i: int| 0 <= i < v@.len() ==> #[trigger] v@[i]@ == field_text(column_entries(*m)[i].1),
{
    let ghost es = column_entries(*m);
    let n = columns_len(m);
    let mut v: Vec<String> = Vec::new();
    let mut i: usize = 0;
    while i < n
        invariant
            0 <= i <= n,
            n == es.len(),
            es == column_entries(*m),
            v@.len() == i,
            forall|k: int| 0 <= k < i ==> #[trigger] v@[k]@ == field_text(es[k].1),
        decreases n - i,
    {
        let (_, f) = columns_get_index(m, i).unwrap();
        v.push(crate::field::serialize_field(f));
        i = i + 1;
    }
    v
}

/// The texts joined with `;` between them.
fn join_texts(texts: &Vec<String>) -> (s: String)
    ensures
        s@ == joined(texts@.map_values(|t: String| t@)),
{
    let ghost tv = texts@.map_values(|t: String| t@);
    let mut s = String::new();
    let mut i: usize = 0;
    while i < texts.len()
        invariant
            0 <= i <= texts@.len(),
            tv == texts@.map_values(|t: String| t@),
            s@ == joined(tv.take(i as int)),
        decreases texts@.len() - i,
    {
        proof {
            reveal_strlit(";");
            assert(tv.take(i + 1).drop_last() =~= tv.take(i as int));
            assert(tv.take(i + 1).last() == texts@[i as int]@);
        }
        if i > 0 {
            s.append(";");
        } else {
            proof {
                assert(joined(tv.take(0)) =~= Seq::<char>::empty());
            }
        }
        s.append(texts[i].as_str());
        i = i + 1;
    }
    proof {
        assert(tv.take(texts@.len() as int) =~= tv);
    }
    s
}

impl TableMetadata {
    /// The metadata of a table: its name, root page, user columns under
    /// their names, and key column.
    pub fn new(table: &Table) -> (m: TableMetadata)
        ensures
            m.name == table.name,
            m.root_page == table.btree.root_page,
            column_entries(m.user_columns) == by_name(
                if table.cols().len() <= 4 {
                    Seq::<FieldV>::empty()
                } else {
                    table.cols().skip(4)
                },
            ),
            m.primary_key_index == table.primary_key_index,
    {
        let users = table.user_columns();
        let ghost fs = crate::record::ref_views(users@);
        let mut user_columns = columns_new();
        let mut i: usize = 0;
        while i < users.len()
            invariant
                0 <= i <= users@.len(),
                fs == crate::record::ref_views(users@),
                column_entries(user_columns) == by_name(fs.take(i as int)),
            decreases users@.len() - i,
        {
            let f = users[i];
            let _ = columns_insert(&mut user_columns, f.name.clone(), f.copy());
            proof {
                assert(fs.take(i + 1).drop_last() =~= fs.take(i as int));
                assert(fs.take(i + 1).last() == f@);
            }
            i = i + 1;
        }
        proof {
            assert(fs.take(users@.len() as int) =~= fs);
        }
        TableMetadata {
            name: table.name.clone(),
            root_page: table.btree.root_page,
            user_columns,
            primary_key_index: table.primary_key_index,
        }
    }

    /// The stored list of the user columns: their texts joined with `;`.
    pub open spec fn columns_text(&self) -> Seq<char> {
        joined(fields_of(column_entries(self.user_columns)).map_values(|f: FieldV| field_text(f)))
    }

    /// The row of the system table that describes the table: its name, its
    /// root page as a number, its stored list of columns, and the index of
    /// its key column as a number.
    pub fn to_row(&self) -> (row: crate::record::Record)
        requires
            encode_utf8(self.name@).len() <= MAX_TABLE_NAME_LEN,
            encode_utf8(self.columns_text()).len() <= MAX_COLUMNS_STR_LEN,
            self.root_page < 0x20_0000_0000_0000,
            self.primary_key_index < 0x20_0000_0000_0000,
        ensures
            row@ == seq![
                crate::value::ValueV::Utf8(self.name@),
                crate::value::ValueV::Float64(crate::number::whole_bits(self.root_page as nat)),
                crate::value::ValueV::Utf8(self.columns_text()),
                crate::value::ValueV::Float64(crate::number::whole_bits(self.primary_key_index as nat)),
            ],
    {
        let texts = field_texts(&self.user_columns);
        let columns_str = join_texts(&texts);
        proof {
            let es = column_entries(self.user_columns);
            assert(texts@.map_values(|t: String| t@) =~= fields_of(es).map_values(|f: FieldV| field_text(f)));
        }
        let mut values: Vec<Value> = Vec::new();
        values.push(Value::Utf8(self.name.clone()));
        values.push(Value::Float64(crate::number::usize_to_number(self.root_page)));
        values.push(Value::Utf8(columns_str));
        values.push(Value::Float64(crate::number::usize_to_number(self.primary_key_index)));
        let row = crate::record::Record(values);
        proof {
            assert(row@ =~= seq![
                crate::value::ValueV::Utf8(self.name@),
                crate::value::ValueV::Float64(crate::number::whole_bits(self.root_page as nat)),
                crate::value::ValueV::Utf8(self.columns_text()),
                crate::value::ValueV::Float64(crate::number::whole_bits(self.primary_key_index as nat)),
            ]);
        }
        row
    }
}

/// The fields the pieces stand for, when each of them stands for one.
pub open spec fn parsed_fields(ps: Seq<Seq<char>>) -> Option<Seq<FieldV>>
    decreases ps.len(),
{
    if ps.len() == 0 {
        Some(Seq::empty())
    } else {
        match (parsed_fields(ps.drop_last()), crate::field::field_of_text(ps.last())) {
            (Some(fs), Some(f)) => Some(fs.push(f)),
            _ => None,
        }
    }
}

/// What a row of the system table describes: name, root page, user
/// columns and key column; none when a value has the wrong type or a
/// column does not read.
pub open spec fn metadata_of_row(row: Seq<crate::value::ValueV>) -> Option<
    (Seq<char>, usize, Seq<(Seq<char>, FieldV)>, usize),
> {
    match (row[0], row[1], row[2], row[3]) {
        (
            crate::value::ValueV::Utf8(name),
            crate::value::ValueV::Float64(root),
            crate::value::ValueV::Utf8(cols),
            crate::value::ValueV::Float64(key),
        ) => match parsed_fields(pieces(cols)) {
            Some(fs) => Some((name, crate::number::bits_usize(root), by_name(fs), crate::number::bits_usize(key))),
            None => None,
        },
        _ => None,
    }
}

impl TableMetadata {
    /// Reads the metadata back from a row of the system table.
    pub fn from_row(row: &crate::record::Record) -> (r: Result<TableMetadata, Error>)
        requires
            row@.len() >= 4,
        ensures
            match r {
                Ok(m) => metadata_of_row(row@) == Some(
                    (m.name@, m.root_page, column_entries(m.user_columns), m.primary_key_index),
                ),
                Err(Error::CorruptedTree(_)) => metadata_of_row(row@) is None,
                Err(_) => false,
            },
    {
        proof {
            assert(row@[0] == row.0@[0]@);
            assert(row@[1] == row.0@[1]@);
            assert(row@[2] == row.0@[2]@);
            assert(row@[3] == row.0@[3]@);
        }
        let name = match &row.0[0] {
            Value::Utf8(name) => name,
            _ => return Err(Error::CorruptedTree("expected name as varchar".to_string())),
        };
        let root_page = match &row.0[1] {
            Value::Float64(b) => *b,
            _ => return Err(Error::CorruptedTree("expected root_page as number".to_string())),
        };
        let columns_str = match &row.0[2] {
            Value::Utf8(c) => c,
            _ => return Err(Error::CorruptedTree("expected columns as varchar".to_string())),
        };
        let primary_key_index = match &row.0[3] {
            Value::Float64(b) => *b,
            _ => return Err(Error::CorruptedTree("expected primary_key_index as number".to_string())),
        };
        let user_columns = match parse_columns(columns_str.as_str()) {
            Ok(m) => m,
            Err(e) => return Err(Error::CorruptedTree(e)),
        };
        Ok(TableMetadata {
            name: name.clone(),
            root_page: crate::number::number_to_usize(root_page),
            user_columns,
            primary_key_index: crate::number::number_to_usize(primary_key_index),
        })
    }
}

/// The columns a stored list of columns describes: the pieces between `;`
/// each read as a column, inserted by name in order; the first piece that
/// does not read gives its error.
pub(crate) fn parse_columns(text: &str) -> (r: Result<IndexMap<String, Field>, String>)
    ensures
    match parsed_fields(pieces(text@)) {
        Some(fs) => r matches Ok(m) && column_entries(m) == by_name(fs),
        None => r is Err,
    },
{
    let chars = chars_of(text);
    let ps = split_pieces(chars.as_slice());
    let ghost pv = pieces(text@);
    let mut user_columns = columns_new();
    let ghost mut fs: Seq<FieldV> = Seq::empty();
    let mut i: usize = 0;
    while i < ps.len()
        invariant
            0 <= i <= ps@.len(),
            ps@.len() == pv.len(),
            forall|k: int| 0 <= k < ps@.len() ==> #[trigger] ps@[k]@ == pv[k],
            parsed_fields(pv.take(i as int)) == Some(fs),
            column_entries(user_columns) == by_name(fs),
            pv == pieces(text@),
        decreases ps@.len() - i,
    {
        let piece = crate::text::string_from_chars(ps[i].as_slice());
        proof {
            assert(pv.take(i + 1).drop_last() =~= pv.take(i as int));
            assert(pv.take(i + 1).last() == pv[i as int]);
        }
        let col = match crate::field::parse_field(piece.as_str()) {
            Ok(c) => c,
            Err(e) => {
                proof {
                    lemma_parsed_none(pv, i as int + 1);
                    assert(pv.take(pv.len() as int) =~= pv);
                }
                return Err(e);
            },
        };
        let ghost colv = col@;
        let _ = columns_insert(&mut user_columns, col.name.clone(), col);
        proof {
            let f0 = fs;
            fs = fs.push(colv);
            assert(fs.drop_last() =~= f0);
            assert(fs.last() == colv);
        }
        i = i + 1;
    }
    proof {
        assert(pv.take(ps@.len() as int) =~= pv);
    }
    Ok(user_columns)
}

/// Splitting at `;` text joined by a `;` gives the pieces of each side.
proof fn lemma_pieces_concat(x: Seq<char>, y: Seq<char>)
    ensures
        pieces(x + seq![';'] + y) == pieces(x) + pieces(y),
    decreases x.len(),
{
    let s = x + seq![';'] + y;
    if x.len() == 0 {
        assert(s.drop_first() =~= y);
        assert(pieces(x) =~= seq![Seq::<char>::empty()]);
    } else {
        assert(s.drop_first() =~= x.drop_first() + seq![';'] + y);
        lemma_pieces_concat(x.drop_first(), y);
        lemma_pieces_nonempty(x.drop_first());
        let px = pieces(x.drop_first());
        let py = pieces(y);
        if x[0] != ';' {
            assert((px + py).update(0, seq![x[0]] + (px + py)[0]) =~= px.update(0, seq![x[0]] + px[0]) + py);
        } else {
            assert(seq![Seq::<char>::empty()] + (px + py) =~= (seq![Seq::<char>::empty()] + px) + py);
        }
    }
}

/// Text without a `;` is a single piece.
proof fn lemma_pieces_single(t: Seq<char>)
    requires
        !t.contains(';'),
    ensures
        pieces(t) == seq![t],
    decreases t.len(),
{
    if t.len() > 0 {
        assert(!t.drop_first().contains(';')) by {
            if t.drop_first().contains(';') {
                let k = choose|k: int| 0 <= k < t.drop_first().len() && t.drop_first()[k] == ';';
                assert(t[k + 1] == ';');
            }
        }
        lemma_pieces_single(t.drop_first());
        assert(t[0] != ';') by {
            if t[0] == ';' {
                assert(t.contains(';'));
            }
        }
        assert(seq![t[0]] + t.drop_first() =~= t);
        assert(seq![t.drop_first()].update(0, seq![t[0]] + t.drop_first()) =~= seq![t]);
    } else {
        assert(t =~= Seq::<char>::empty());
    }
}

/// Splitting texts joined with `;` gives them back, when none holds a `;`.
pub proof fn lemma_pieces_joined(texts: Seq<Seq<char>>)
    requires
        texts.len() >= 1,
        forall|k: int| 0 <= k < texts.len() ==> !(#[trigger] texts[k]).contains(';'),
    ensures
        pieces(joined(texts)) == texts,
    decreases texts.len(),
{
    if texts.len() == 1 {
        lemma_pieces_single(texts[0]);
        assert(seq![texts[0]] =~= texts);
    } else {
        let init = texts.drop_last();
        lemma_pieces_joined(init);
        lemma_pieces_concat(joined(init), texts.last());
        lemma_pieces_single(texts.last());
        assert(init + seq![texts.last()] =~= texts);
    }
}

/// The stored text of a column has a `;` only where its name has one.
proof fn lemma_field_text_plain(f: FieldV)
    requires
        !f.name.contains(';'),
    ensures
        !field_text(f).contains(';'),
{
    let t = crate::field::type_text(f.data_type);
    let d = crate::text::nat_digits(byte_size_of(f) as nat);
    crate::text::lemma_nat_digits(byte_size_of(f) as nat);
    assert(!t.contains(';')) by {
        match f.data_type {
            DataType::FixedSizeBinary(n) => {
                let v = n as int;
                if v < 0 {
                    crate::text::lemma_nat_digits((-v) as nat);
                    assert forall|i: int| 0 <= i < t.len() implies #[trigger] t[i] != ';' by {
                        if i >= 4 {
                            assert(t[i] == crate::text::nat_digits((-v) as nat)[i - 4]);
                        }
                    }
                } else {
                    crate::text::lemma_nat_digits(v as nat);
                    assert forall|i: int| 0 <= i < t.len() implies #[trigger] t[i] != ';' by {
                        if i >= 3 {
                            assert(t[i] == crate::text::nat_digits(v as nat)[i - 3]);
                        }
                    }
                }
            },
            _ => {},
        }
    }
    let s = field_text(f);
    assert forall|i: int| 0 <= i < s.len() implies #[trigger] s[i] != ';' by {
        let a = f.name.len() as int;
        if i < a {
            assert(s[i] == f.name[i]);
            assert(f.name[i] != ';') by {
                if f.name[i] == ';' {
                    assert(f.name.contains(';'));
                }
            }
        } else if a < i < a + 1 + t.len() {
            assert(s[i] == t[i - a - 1]);
            assert(t[i - a - 1] != ';') by {
                if t[i - a - 1] == ';' {
                    assert(t.contains(';'));
                }
            }
        } else if i > a + 1 + t.len() {
            assert(s[i] == d[i - a - 2 - t.len()]);
        }
    }
}

/// What a read gives back of a write in the system table: the stored list
/// of a table's columns reads back as the same columns, in order, for
/// columns whose names hold no ':' nor ';' and whose types have a stored
/// name, stored with their byte size and not nullable (as a builder makes
/// them); and the root page written as a number reads back as itself.
pub proof fn lemma_stored_columns_roundtrip(fs: Seq<FieldV>, root: usize)
    requires
        fs.len() >= 1,
        root < 0x20_0000_0000_0000,
        forall|k: int|
            0 <= k < fs.len() ==> {
                &&& !(#[trigger] fs[k]).name.contains(':')
                &&& !fs[k].name.contains(';')
                &&& crate::field::named_type(fs[k].data_type)
                &&& fs[k] == sized_field(fs[k].name, fs[k].data_type, byte_size_of(fs[k]))
            },
    ensures
        parsed_fields(pieces(joined(fs.map_values(|f: FieldV| field_text(f))))) == Some(fs),
        crate::number::bits_usize(crate::number::whole_bits(root as nat)) == root,
{
    let texts = fs.map_values(|f: FieldV| field_text(f));
    assert forall|k: int| 0 <= k < texts.len() implies !(#[trigger] texts[k]).contains(';') by {
        lemma_field_text_plain(fs[k]);
    }
    lemma_pieces_joined(texts);
    lemma_parsed_texts(fs);
    crate::number::lemma_number_roundtrip(root as nat);
}

/// Entries keyed by their fields' names, with distinct keys, are what
/// inserting their fields by name gives.
proof fn lemma_by_name_keyed(es: Seq<(Seq<char>, FieldV)>)
    requires
        crate::maps::distinct_keys(es),
        forall|k: int| 0 <= k < es.len() ==> (#[trigger] es[k]).0 == es[k].1.name,
    ensures
        by_name(fields_of(es)) == es,
    decreases es.len(),
{
    if es.len() > 0 {
        let init = es.drop_last();
        assert forall|k: int| 0 <= k < init.len() implies (#[trigger] init[k]).0 == init[k].1.name by {
            assert(init[k] == es[k]);
        }
        assert(crate::maps::distinct_keys(init)) by {
            assert forall|i: int, j: int|
                0 <= i < init.len() && 0 <= j < init.len() && i != j implies #[trigger] init[i].0 != #[trigger] init[j].0 by {
                assert(init[i] == es[i]);
                assert(init[j] == es[j]);
            }
        }
        lemma_by_name_keyed(init);
        let fs = fields_of(es);
        assert(fs.drop_last() =~= fields_of(init));
        let last = es.last();
        assert(fs.last() == last.1);
        assert(key_position(init, last.1.name) is None) by {
            if exists|i: int| 0 <= i < init.len() && #[trigger] init[i].0 == last.1.name {
                let i = choose|i: int| 0 <= i < init.len() && #[trigger] init[i].0 == last.1.name;
                assert(es[i].0 == es[es.len() - 1].0);
            }
        }
        assert(init.push((last.1.name, last.1)) =~= es);
    }
}

/// What a read gives back of a write for a table's metadata: the row that
/// `to_row` makes of the metadata reads back by `from_row` as the same name,
/// root page, user columns in order, and key column; for user columns keyed
/// by their names, whose names hold no ':' nor ';' and whose types have a
/// stored name, each stored with its byte size and not nullable (as a
/// builder makes them), and page numbers below 2^53.
pub proof fn lemma_metadata_row_roundtrip(m: TableMetadata)
    requires
        column_entries(m.user_columns).len() >= 1,
        crate::maps::distinct_keys(column_entries(m.user_columns)),
        forall|k: int|
            0 <= k < column_entries(m.user_columns).len() ==> {
                let e = #[trigger] column_entries(m.user_columns)[k];
                &&& e.0 == e.1.name
                &&& !e.1.name.contains(':')
                &&& !e.1.name.contains(';')
                &&& crate::field::named_type(e.1.data_type)
                &&& e.1 == sized_field(e.1.name, e.1.data_type, byte_size_of(e.1))
            },
        m.root_page < 0x20_0000_0000_0000,
        m.primary_key_index < 0x20_0000_0000_0000,
    ensures
        metadata_of_row(
            seq![
                crate::value::ValueV::Utf8(m.name@),
                crate::value::ValueV::Float64(crate::number::whole_bits(m.root_page as nat)),
                crate::value::ValueV::Utf8(m.columns_text()),
                crate::value::ValueV::Float64(crate::number::whole_bits(m.primary_key_index as nat)),
            ],
        ) == Some((m.name@, m.root_page, column_entries(m.user_columns), m.primary_key_index)),
{
    let es = column_entries(m.user_columns);
    let fs = fields_of(es);
    assert forall|k: int|
        0 <= k < fs.len() implies {
            &&& !(#[trigger] fs[k]).name.contains(':')
            &&& !fs[k].name.contains(';')
            &&& crate::field::named_type(fs[k].data_type)
            &&& fs[k] == sized_field(fs[k].name, fs[k].data_type, byte_size_of(fs[k]))
        } by {
        assert(fs[k] == es[k].1);
    }
    lemma_stored_columns_roundtrip(fs, m.root_page);
    crate::number::lemma_number_roundtrip(m.primary_key_index as nat);
    lemma_by_name_keyed(es);
}

/// The stored texts of columns, each reading back as its column, read back
/// as all of them.
proof fn lemma_parsed_texts(fs: Seq<FieldV>)
    requires
        forall|k: int|
            0 <= k < fs.len() ==> {
                &&& !(#[trigger] fs[k]).name.contains(':')
                &&& crate::field::named_type(fs[k].data_type)
                &&& fs[k] == sized_field(fs[k].name, fs[k].data_type, byte_size_of(fs[k]))
            },
    ensures
        parsed_fields(fs.map_values(|f: FieldV| field_text(f))) == Some(fs),
    decreases fs.len(),
{
    let texts = fs.map_values(|f: FieldV| field_text(f));
    if fs.len() > 0 {
        let init = fs.drop_last();
        assert forall|k: int| 0 <= k < init.len() implies {
            &&& !(#[trigger] init[k]).name.contains(':')
            &&& crate::field::named_type(init[k].data_type)
            &&& init[k] == sized_field(init[k].name, init[k].data_type, byte_size_of(init[k]))
        } by {
            assert(init[k] == fs[k]);
        }
        lemma_parsed_texts(init);
        assert(texts.drop_last() =~= init.map_values(|f: FieldV| field_text(f)));
        let l = fs.last();
        assert(l == fs[fs.len() - 1]);
        crate::field::lemma_field_text_roundtrip(l);
        assert(init.push(l) =~= fs);
    } else {
        assert(texts =~= Seq::<Seq<char>>::empty());
    }
}

/// Once a prefix of the pieces fails to read, all of them do.
proof fn lemma_parsed_none(ps: Seq<Seq<char>>, n: int)
    requires
        0 <= n <= ps.len(),
        parsed_fields(ps.take(n)) is None,
    ensures
        parsed_fields(ps) is None,
    decreases ps.len() - n,
{
    if n < ps.len() {
        assert(ps.take(n + 1).drop_last() =~= ps.take(n));
        lemma_parsed_none(ps, n + 1);
    } else {
        assert(ps.take(n) =~= ps);
    }
}

} // verus!
