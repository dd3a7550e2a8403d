use vstd::prelude::*;

use indexmap::IndexMap;

use crate::constants::{MAX_COLUMNS_STR_LEN, MAX_TABLE_NAME_LEN};
use crate::error::Error;
use crate::field::{field_text, field_with_size, sized_field, Field, FieldV};
use crate::maps::{
    distinct_keys, lemma_inserted_distinct,
    column_entries, columns_insert, columns_new, inserted, key_position, schema_entries, schemas_get,
    schemas_get_index, schemas_insert, schemas_len, schemas_new, table_entries, tables_contains, tables_get,
    tables_insert, tables_new,
};
use crate::pager::Pager;
use crate::query::Catalog;
use crate::schema::{new_table_schema, Schema, SchemaV};
use crate::table::{
    by_name, extended, fields_of, joined, system_entries, Table, TableBuilder, TableMetadata,
};
use crate::btree::{cell_keys, placed, search_result, cols_ok, empty_leaf, max_cells, max_keys, page_ok, BTree};
use crate::field::byte_size_of;
use crate::codec::le_u32_at;
use crate::codec::splice;
use crate::magic::{header_bytes, header_of, DatabaseHeader, CURRENT_VERSION};
use crate::node::{cell_fits, cell_holds, leaf_region, leaf_cell_offset, node_readable, stored_pointer, NodeV, decoded_node, key_fits, node_fits, page_holds, stored_is_leaf, stored_num_cells};
use crate::number::whole_bits;
use crate::pager::{zero_page, PAGE_SIZE};
use crate::record::{decoded_record, fits_column, fits_columns};
use crate::schema::{field_views, row_size_of};
use crate::table::{edge_leaf, parse_columns, parsed_fields, pieces, texts_len};
use crate::number::{bits_usize, number_to_usize};
use crate::record::Record;
use crate::value::type_of;
use crate::value::{lemma_encoded_len, DataType, Value, ValueV};
use vstd::utf8::encode_utf8;

verus! {

/// The columns of the system table: a table's name, its root page, its
/// stored list of columns, and its key column.
pub open spec fn system_table_entries() -> Seq<(Seq<char>, FieldV)> {
    seq![
        ("table_name"@, sized_field("table_name"@, DataType::FixedSizeBinary(64), MAX_TABLE_NAME_LEN)),
        ("root_page"@, sized_field("root_page"@, DataType::Float64, 8)),
        ("columns"@, sized_field("columns"@, DataType::FixedSizeBinary(1024), MAX_COLUMNS_STR_LEN)),
        ("primary_key_index"@, sized_field("primary_key_index"@, DataType::Float64, 8)),
    ]
}

fn put(m: &mut IndexMap<String, Field>, name: &str, dt: DataType, size: usize)
    ensures
        column_entries(*final(m)) == inserted(column_entries(*old(m)), name@, sized_field(name@, dt, size)),
{
    let _ = columns_insert(m, name.to_string(), field_with_size(name, dt, size));
}

/// The columns of the system table, in order.
pub fn system_table_columns() -> (m: IndexMap<String, Field>)
    ensures
        column_entries(m) == system_table_entries(),
{
    proof {
        reveal_strlit("table_name");
        reveal_strlit("root_page");
        reveal_strlit("columns");
        reveal_strlit("primary_key_index");
    }
    let mut m = columns_new();
    put(&mut m, "table_name", DataType::FixedSizeBinary(64), MAX_TABLE_NAME_LEN);
    put(&mut m, "root_page", DataType::Float64, 8);
    put(&mut m, "columns", DataType::FixedSizeBinary(1024), MAX_COLUMNS_STR_LEN);
    put(&mut m, "primary_key_index", DataType::Float64, 8);
    proof {
        let e0 = Seq::<(Seq<char>, FieldV)>::empty();
        let e1 = e0.push(("table_name"@, sized_field("table_name"@, DataType::FixedSizeBinary(64), 64)));
        let e2 = e1.push(("root_page"@, sized_field("root_page"@, DataType::Float64, 8)));
        let e3 = e2.push(("columns"@, sized_field("columns"@, DataType::FixedSizeBinary(1024), 1024)));
        assert(key_position(e0, "table_name"@) is None);
        assert(key_position(e1, "root_page"@) is None) by {
            if exists|i: int| 0 <= i < e1.len() && #[trigger] e1[i].0 == "root_page"@ {
                let i = choose|i: int| 0 <= i < e1.len() && #[trigger] e1[i].0 == "root_page"@;
                assert(e1[i].0.len() != "root_page"@.len());
            }
        }
        assert(key_position(e2, "columns"@) is None) by {
            if exists|i: int| 0 <= i < e2.len() && #[trigger] e2[i].0 == "columns"@ {
                let i = choose|i: int| 0 <= i < e2.len() && #[trigger] e2[i].0 == "columns"@;
                assert(e2[i].0.len() != "columns"@.len());
            }
        }
        assert(key_position(e3, "primary_key_index"@) is None) by {
            if exists|i: int| 0 <= i < e3.len() && #[trigger] e3[i].0 == "primary_key_index"@ {
                let i = choose|i: int| 0 <= i < e3.len() && #[trigger] e3[i].0 == "primary_key_index"@;
                assert(e3[i].0.len() != "primary_key_index"@.len());
            }
        }
        assert(column_entries(m) =~= system_table_entries());
    }
    m
}

/// A database: its pages, its tables and their schemas by name, and the
/// system table that lists the tables.
pub struct Database {
    pub pager: Pager,
    pub tables: IndexMap<String, Table>,
    pub schemas: IndexMap<String, Schema>,
    pub system_table: Table,
}

impl Database {
    /// The system table has its columns and its tree holds its nodes.
    pub open spec fn wf(&self) -> bool {
        &&& self.system_table.wf()
        &&& self.system_table.cols() == fields_of(system_table_entries())
        &&& self.system_table.stored_ok(&self.pager)
        &&& schema_entries(self.schemas).len() == table_entries(self.tables).len()
        &&& forall|i: int|
            0 <= i < table_entries(self.tables).len() ==> #[trigger] schema_entries(self.schemas)[i].0
                == table_entries(self.tables)[i].0
    }

    /// The row of the system table that records a table built from
    /// `builder` with its root at `root`.
    pub open spec fn system_row_of(builder: &TableBuilder, root: usize) -> Seq<ValueV> {
        seq![
            ValueV::Utf8(builder.name@),
            ValueV::Float64(whole_bits(root as nat)),
            ValueV::Utf8(stored_columns_text(column_entries(builder.columns))),
            ValueV::Float64(whole_bits(0)),
        ]
    }

    /// A leaf page of the system table holds the row for the table built
    /// from `builder` under the table's name; when the system table is a
    /// single leaf with room, the row is put where the search for the name
    /// stops, on the same root page.
    pub open spec fn row_recorded(before: &Database, after: &Database, builder: &TableBuilder) -> bool {
        let root = before.system_table.btree.root_page;
        &&& exists|p: int|
            #[trigger] after.system_table.btree.stores(
                &after.pager,
                p,
                ValueV::Utf8(builder.name@),
                Database::system_row_of(builder, before.pager.next()),
                system_cols(),
            )
        &&& match before.system_table.btree.node_at(&before.pager, root as int, system_cols()) {
            NodeV::Leaf { parent, cells, next_leaf } => cells.len() < 3 ==> {
                &&& after.system_table.btree.root_page == root
                &&& exists|i: int, found: bool|
                    #[trigger] search_result(cell_keys(cells), ValueV::Utf8(builder.name@), i, found)
                        && after.system_table.btree.holds(
                        &after.pager,
                        root as int,
                        NodeV::Leaf {
                            parent,
                            cells: placed(
                                cells,
                                i,
                                found,
                                (ValueV::Utf8(builder.name@), Database::system_row_of(builder, before.pager.next())),
                            ),
                            next_leaf,
                        },
                        system_cols(),
                    )
            },
            NodeV::Internal { .. } => true,
        }
    }

    /// The schema the query layer gets for a table built from `builder`.
    pub open spec fn new_schema(builder: &TableBuilder) -> SchemaV {
        SchemaV {
            fields: user_fields(fields_of(extended(system_entries(), column_entries(builder.columns)))),
            table_name: Some(builder.name@),
        }
    }
}

impl Catalog for Database {
    open spec fn schema_named(&self, name: Seq<char>) -> Option<SchemaV> {
        match key_position(schema_entries(self.schemas), name) {
            Some(i) => Some(schema_entries(self.schemas)[i].1),
            None => None,
        }
    }

    open spec fn schema_list(&self) -> Seq<SchemaV> {
        schema_entries(self.schemas).map_values(|e: (Seq<char>, SchemaV)| e.1)
    }

    fn get_schema(&self, name: &str) -> (r: Option<Schema>) {
        match schemas_get(&self.schemas, name) {
            Some(s) => Some(s.copy()),
            None => None,
        }
    }

    fn get_schemas(&self) -> (r: Vec<Schema>) {
        let ghost es = schema_entries(self.schemas);
        let n = schemas_len(&self.schemas);
        let mut v: Vec<Schema> = Vec::new();
        let mut i: usize = 0;
        while i < n
            invariant
                0 <= i <= n,
                n == es.len(),
                es == schema_entries(self.schemas),
                v@.map_values(|s: Schema| s@) =~= es.take(i as int).map_values(|e: (Seq<char>, SchemaV)| e.1),
            decreases n - i,
        {
            let (_, s) = schemas_get_index(&self.schemas, i).unwrap();
            let c = s.copy();
            let ghost v0 = v@;
            v.push(c);
            proof {
                assert(v@.map_values(|s: Schema| s@) =~= v0.map_values(|s: Schema| s@).push(c@));
                assert(es.take(i + 1).map_values(|e: (Seq<char>, SchemaV)| e.1) =~= es.take(i as int).map_values(
                    |e: (Seq<char>, SchemaV)| e.1,
                ).push(es[i as int].1));
            }
            i = i + 1;
        }
        proof {
            assert(es.take(n as int) =~= es);
        }
        v
    }
}

/// The system table's columns take 64 + 8 + 1024 + 8 bytes, the key 64.
pub proof fn lemma_system_sizes()
    ensures
        fields_of(system_table_entries()).len() == 4,
        crate::schema::row_size_of(fields_of(system_table_entries())) == 1104,
        crate::field::byte_size_of(fields_of(system_table_entries())[0]) == 64,
        crate::field::byte_size_of(fields_of(system_table_entries())[1]) == 8,
        crate::field::byte_size_of(fields_of(system_table_entries())[2]) == 1024,
        crate::field::byte_size_of(fields_of(system_table_entries())[3]) == 8,
        fields_of(system_table_entries())[0].data_type == DataType::FixedSizeBinary(64),
        fields_of(system_table_entries())[1].data_type == DataType::Float64,
        fields_of(system_table_entries())[2].data_type == DataType::FixedSizeBinary(1024),
        fields_of(system_table_entries())[3].data_type == DataType::Float64,
{
    let fs = fields_of(system_table_entries());
    reveal_with_fuel(crate::schema::row_size_of, 5);
    assert(crate::field::byte_size_of(fs[1]) == 8);
    assert(crate::field::byte_size_of(fs[2]) == 1024);
    assert(crate::field::byte_size_of(fs[3]) == 8);
    assert(fs.drop_last().drop_last().drop_last().drop_last() =~= Seq::<FieldV>::empty());
}

/// The stored list of the user columns of a table built from these entries.
pub open spec fn stored_columns_text(user: Seq<(Seq<char>, FieldV)>) -> Seq<char> {
    let cols = fields_of(extended(system_entries(), user));
    joined(
        fields_of(
            by_name(
                if cols.len() <= 4 {
                    Seq::<FieldV>::empty()
                } else {
                    cols.skip(4)
                },
            ),
        ).map_values(|f: FieldV| field_text(f)),
    )
}

/// The columns after the four system ones.
pub open spec fn user_fields(cols: Seq<FieldV>) -> Seq<FieldV> {
    if cols.len() <= 4 {
        Seq::<FieldV>::empty()
    } else {
        cols.skip(4)
    }
}

/// Text that a fixed-size field of `n` bytes stores and reads back.
pub open spec fn fits_fixed(s: Seq<char>, n: nat) -> bool {
    encode_utf8(s).len() <= n && !encode_utf8(s).contains(0u8)
}

impl Database {
    /// An empty database held in memory.
    pub fn memory() -> (r: Result<Database, Error>)
        ensures
            match r {
                Ok(db) => {
                    &&& db.wf()
                    &&& db.pager.next() == 1
                    &&& table_entries(db.tables) == Seq::<(Seq<char>, Table)>::empty()
                    &&& schema_entries(db.schemas) == Seq::<(Seq<char>, SchemaV)>::empty()
                },
                Err(_) => false,
            },
    {
        let mut pager = Pager::memory();
        let ghost p0 = pager;
        let columns = system_table_columns();
        proof {
            lemma_system_sizes();
        }
        let system_table = match Table::from_columns("_system".to_string(), columns, &mut pager, true) {
            Ok(t) => t,
            Err(e) => return Err(e),
        };
        proof {
            crate::btree::lemma_memory_pages_ok(&system_table.btree, &p0, system_table.cols());
        }
        Ok(Database { pager, tables: tables_new(), schemas: schemas_new(), system_table })
    }

    /// The table called `name`.
    pub fn get_table(&self, name: &str) -> (r: Option<&Table>)
        ensures
            match key_position(table_entries(self.tables), name@) {
                Some(i) => r matches Some(t) && *t == table_entries(self.tables)[i].1,
                None => r is None,
            },
    {
        tables_get(&self.tables, name)
    }

    /// Whether there is a table called `name`.
    pub fn table_exists(&self, name: &str) -> (r: bool)
        ensures
            r == (key_position(table_entries(self.tables), name@) is Some),
    {
        tables_contains(&self.tables, name)
    }
}

/// A page that holds an empty leaf for one tree holds it for any tree
/// whose sizes and columns suit an empty leaf.
proof fn lemma_empty_leaf_any(page: Seq<u8>, ks1: nat, rs1: nat, cols1: Seq<FieldV>, ks2: nat, rs2: nat, cols2: Seq<FieldV>)
    requires
        page_holds(page, empty_leaf(), ks1, rs1, cols1),
        node_fits(empty_leaf(), ks2, rs2, cols2, PAGE_SIZE as nat),
    ensures
        page_holds(page, empty_leaf(), ks2, rs2, cols2),
{
    let d1 = decoded_node(page, ks1, rs1, cols1);
    assert(stored_is_leaf(page));
    assert(stored_num_cells(page) == 0);
    let d2 = decoded_node(page, ks2, rs2, cols2);
    assert(d2->Leaf_cells =~= Seq::<(ValueV, Seq<ValueV>)>::empty());
    assert(d2 =~= empty_leaf());
}

/// A table's tree stays stored when only a page past the pages it had
/// changes, and that page comes to hold an empty leaf.
proof fn lemma_tree_kept(t: &Table, before: &Pager, after: &Pager, n: int, ks: nat, rs: nat, cols: Seq<FieldV>)
    requires
        t.wf(),
        t.stored_ok(before),
        after.wf(),
        after.next() >= before.next(),
        n >= before.next(),
        page_holds(after.page(n), empty_leaf(), ks, rs, cols),
        forall|m: int| m != n ==> #[trigger] after.page(m) == before.page(m),
    ensures
        t.stored_ok(after),
{
    let tree = t.btree;
    let tc = t.cols();
    assert(cols_ok(tc, tree.row_size as nat));
    assert(node_fits(empty_leaf(), tree.key_size as nat, tree.row_size as nat, tc, PAGE_SIZE as nat));
    lemma_empty_leaf_any(after.page(n), ks, rs, cols, tree.key_size as nat, tree.row_size as nat, tc);
    assert forall|m: int| #[trigger] page_ok(after.page(m), tree.key_size as nat, tree.row_size as nat, tc) by {
        if m != n {
            assert(page_ok(before.page(m), tree.key_size as nat, tree.row_size as nat, tc));
        } else {
            assert(decoded_node(after.page(n), tree.key_size as nat, tree.row_size as nat, tc) == empty_leaf());
        }
    }
    let levels = choose|levels: Map<int, nat>|
        tree.shaped(before, levels, tc) && #[trigger] levels.dom().contains(tree.root_page as int);
    assert forall|p: int| #[trigger] levels.dom().contains(p) implies tree.level_ok(after, levels, p, tc) by {
        assert(tree.level_ok(before, levels, p, tc));
        assert(after.page(p) == before.page(p));
    }
    assert(tree.shaped(after, levels, tc));
}

/// The system table's tree has room for at least two cells in a leaf.
proof fn lemma_system_room(t: &Table)
    requires
        t.wf(),
        t.cols() == fields_of(system_table_entries()),
    ensures
        t.btree.max_cells_per_leaf == 3,
{
    lemma_system_sizes();
    assert(t.btree.cell_size == 1168);
    assert(max_cells(1168) == 3);
}

/// The row of a table's metadata fits the columns of the system table.
proof fn lemma_row_fits(row: Seq<ValueV>, name: Seq<char>, root: usize, text: Seq<char>, key: usize)
    requires
        row == seq![
            ValueV::Utf8(name),
            ValueV::Float64(whole_bits(root as nat)),
            ValueV::Utf8(text),
            ValueV::Float64(whole_bits(key as nat)),
        ],
        fits_fixed(name, MAX_TABLE_NAME_LEN as nat),
        fits_fixed(text, MAX_COLUMNS_STR_LEN as nat),
    ensures
        fits_columns(row, fields_of(system_table_entries())),
        key_fits(ValueV::Utf8(name), fields_of(system_table_entries())[0], 64),
{
    let cols = fields_of(system_table_entries());
    lemma_system_sizes();
    lemma_encoded_len(row[0], 64);
    lemma_encoded_len(row[1], 8);
    lemma_encoded_len(row[2], 1024);
    lemma_encoded_len(row[3], 8);
    assert forall|k: int| 0 <= k < cols.len() implies fits_column(#[trigger] row[k], cols[k]) by {
        lemma_encoded_len(row[k], byte_size_of(cols[k]) as nat);
    }
}

impl Database {
    /// Builds the table `builder` describes and records it: a row for it
    /// in the system table under its name, its schema and the table under
    /// its name. The builder's error, no columns, a list of columns that is
    /// too long, or a table of that name already there make it fail; the
    /// tables and schemas are then as they were.
    pub fn create_table(&mut self, builder: TableBuilder) -> (r: Result<(), Error>)
        requires
            old(self).wf(),
            2 * old(self).pager.next() + 4 < 0xffff_ffff,
            builder.error is None ==> 0 < row_size_of(
                fields_of(extended(system_entries(), column_entries(builder.columns))),
            ) && 2 * row_size_of(fields_of(extended(system_entries(), column_entries(builder.columns)))) + 4
                <= usize::MAX,
            builder.error is None ==> fits_fixed(builder.name@, MAX_TABLE_NAME_LEN as nat),
            builder.error is None ==> fits_fixed(
                stored_columns_text(column_entries(builder.columns)),
                MAX_COLUMNS_STR_LEN as nat,
            ),
        ensures
            final(self).wf(),
            old(self).pager.next() <= final(self).pager.next(),
            match builder.error {
                Some(e) => {
                    &&& r == Err::<(), Error>(e)
                    &&& final(self).tables == old(self).tables
                    &&& final(self).schemas == old(self).schemas
                },
                None => {
                    let fs = fields_of(column_entries(builder.columns));
                    if fs.len() == 0 {
                        &&& r matches Err(Error::NoColumns)
                        &&& final(self).tables == old(self).tables
                        &&& final(self).schemas == old(self).schemas
                    } else if texts_len(fs) > MAX_COLUMNS_STR_LEN {
                        &&& r matches Err(Error::ColumnsTooLong(_))
                        &&& final(self).tables == old(self).tables
                        &&& final(self).schemas == old(self).schemas
                    } else if key_position(table_entries(old(self).tables), builder.name@) is Some {
                        &&& r == Err::<(), Error>(Error::DuplicateTable(builder.name))
                        &&& final(self).tables == old(self).tables
                        &&& final(self).schemas == old(self).schemas
                    } else {
                        let es = table_entries(final(self).tables);
                        &&& r is Ok
                        &&& es.len() == table_entries(old(self).tables).len() + 1
                        &&& es.drop_last() == table_entries(old(self).tables)
                        &&& es.last().0 == builder.name@
                        &&& es.last().1.name == builder.name
                        &&& column_entries(es.last().1.columns) == extended(
                            system_entries(),
                            column_entries(builder.columns),
                        )
                        &&& es.last().1.wf()
                        &&& schema_entries(final(self).schemas) == schema_entries(old(self).schemas).push(
                            (builder.name@, Database::new_schema(&builder)),
                        )
                        &&& Database::row_recorded(old(self), final(self), &builder)
                    }
                },
            },
    {
        let ghost p0 = self.pager;
        let ghost b = builder;
        let table = match builder.build(&mut self.pager) {
            Ok(t) => t,
            Err(e) => return Err(e),
        };
        proof {
            lemma_tree_kept(
                &self.system_table,
                &p0,
                &self.pager,
                table.btree.root_page as int,
                table.btree.key_size as nat,
                table.btree.row_size as nat,
                table.cols(),
            );
        }
        if self.table_exists(table.name.as_str()) {
            return Err(Error::DuplicateTable(table.name));
        }
        let meta = TableMetadata::new(&table);
        proof {
            assert(meta.columns_text() == stored_columns_text(column_entries(b.columns)));
            lemma_system_sizes();
            lemma_system_room(&self.system_table);
        }
        let row = meta.to_row();
        let key = Value::Utf8(table.name.clone());
        proof {
            lemma_row_fits(row@, meta.name@, meta.root_page, meta.columns_text(), meta.primary_key_index);
        }
        let ghost sys0 = self.system_table;
        let ghost pb = self.pager;
        proof {
            let root = sys0.btree.root_page as int;
            let levels = choose|levels: Map<int, nat>|
                sys0.btree.shaped(&p0, levels, system_cols()) && #[trigger] levels.dom().contains(root);
            assert(sys0.btree.level_ok(&p0, levels, root, system_cols()));
            assert(pb.page(root) == p0.page(root));
            assert(row@ == Database::system_row_of(&b, p0.next()));
        }
        let _ = self.system_table.insert(&mut self.pager, &key, &row);
        let schema = user_schema(&table);
        proof {
            let ses = schema_entries(self.schemas);
            if exists|i: int| 0 <= i < ses.len() && #[trigger] ses[i].0 == b.name@ {
                let i = choose|i: int| 0 <= i < ses.len() && #[trigger] ses[i].0 == b.name@;
                assert(table_entries(self.tables)[i].0 == b.name@);
            }
            assert(key_position(ses, b.name@) is None);
            assert(schema@ == Database::new_schema(&b));
        }
        schemas_insert(&mut self.schemas, table.name.clone(), schema);
        tables_insert(&mut self.tables, table.name.clone(), table);
        Ok(())
    }
}

/// The sizes of a table with these user columns after the system ones fit
/// in a `usize`, and its rows take some bytes.
pub open spec fn sizes_fit(user: Seq<(Seq<char>, FieldV)>) -> bool {
    let cs = fields_of(extended(system_entries(), user));
    &&& cs.len() >= 1
    &&& row_size_of(cs) > 0
    &&& row_size_of(cs) + byte_size_of(cs[0]) + 4 <= usize::MAX
}

/// A row of the system table whose stored list of columns reads describes
/// a table whose sizes fit.
pub open spec fn row_loads(row: Seq<ValueV>) -> bool {
    match row[2] {
        ValueV::Utf8(text) => match parsed_fields(pieces(text)) {
            Some(fs) => sizes_fit(by_name(fs)),
            None => true,
        },
        _ => true,
    }
}

/// Two lists of entries with the same keys at the same places keep them so
/// when the same key goes into both.
proof fn lemma_same_keys_inserted<A, B>(a: Seq<(Seq<char>, A)>, b: Seq<(Seq<char>, B)>, k: Seq<char>, x: A, y: B)
    requires
        a.len() == b.len(),
        forall|i: int| 0 <= i < a.len() ==> #[trigger] a[i].0 == b[i].0,
    ensures
        inserted(a, k, x).len() == inserted(b, k, y).len(),
        forall|i: int| 0 <= i < inserted(a, k, x).len() ==> #[trigger] inserted(a, k, x)[i].0 == inserted(b, k, y)[i].0,
{
    match key_position(a, k) {
        Some(i) => {
            assert(b[i].0 == k);
            let j = key_position(b, k)->0;
            assert(a[j].0 == k);
        },
        None => {
            if exists|i: int| 0 <= i < b.len() && #[trigger] b[i].0 == k {
                let i = choose|i: int| 0 <= i < b.len() && #[trigger] b[i].0 == k;
                assert(a[i].0 == k);
            }
        },
    }
}

impl Database {
    /// The table a row of the system table describes: its name, its root
    /// page and its user columns after the system ones. A name, root page
    /// or list of columns of the wrong type gives a type mismatch; a column
    /// that does not read makes the row corrupt.
    pub fn table_of_row(row: &Record) -> (r: Result<Table, Error>)
        requires
            row@.len() >= 3,
            row_loads(row@),
        ensures
            match (row@[0], row@[1], row@[2]) {
                (ValueV::Utf8(name), ValueV::Float64(root), ValueV::Utf8(text)) => match parsed_fields(pieces(text)) {
                    Some(fs) => r matches Ok(t) && {
                        &&& t.name@ == name
                        &&& t.wf()
                        &&& column_entries(t.columns) == extended(system_entries(), by_name(fs))
                        &&& t.btree.root_page == bits_usize(root)
                    },
                    None => r matches Err(Error::CorruptedTree(_)),
                },
                (ValueV::Utf8(_), ValueV::Float64(_), v) => r == Err::<Table, Error>(
                    Error::TypeMismatch { expected: DataType::Utf8, got: type_of(v) },
                ),
                (ValueV::Utf8(_), v, _) => r == Err::<Table, Error>(
                    Error::TypeMismatch { expected: DataType::Float64, got: type_of(v) },
                ),
                (v, _, _) => r == Err::<Table, Error>(Error::TypeMismatch { expected: DataType::Utf8, got: type_of(v) }),
            },
    {
        proof {
            assert(row@[0] == row.0@[0]@);
            assert(row@[1] == row.0@[1]@);
            assert(row@[2] == row.0@[2]@);
        }
        let table_name = match &row.0[0] {
            Value::Utf8(n) => n,
            v => return Err(Error::TypeMismatch { expected: DataType::Utf8, got: v.data_type() }),
        };
        let n = match &row.0[1] {
            Value::Float64(b) => *b,
            v => return Err(Error::TypeMismatch { expected: DataType::Float64, got: v.data_type() }),
        };
        let table_page_num = number_to_usize(n);
        let stringified_columns = match &row.0[2] {
            Value::Utf8(c) => c,
            v => return Err(Error::TypeMismatch { expected: DataType::Utf8, got: v.data_type() }),
        };
        let user_columns = match parse_columns(stringified_columns.as_str()) {
            Ok(m) => m,
            Err(e) => {
                let mut msg = "Invalid column in system table: ".to_string();
                msg.append(e.as_str());
                return Err(Error::CorruptedTree(msg));
            },
        };
        Ok(Table::load(table_name.clone(), user_columns, table_page_num, false))
    }
}

/// The schema of a table's user columns, under the table's name.
fn user_schema(table: &Table) -> (s: Schema)
    ensures
        s@ == (SchemaV { fields: user_fields(table.cols()), table_name: Some(table.name@) }),
{
    let users = table.user_columns();
    let ghost uv = crate::record::ref_views(users@);
    let mut fields: Vec<Field> = Vec::new();
    let mut i: usize = 0;
    while i < users.len()
        invariant
            0 <= i <= users@.len(),
            uv == crate::record::ref_views(users@),
            field_views(fields@) == uv.take(i as int),
        decreases users@.len() - i,
    {
        let f = users[i].copy();
        let ghost f0 = fields@;
        fields.push(f);
        proof {
            assert(field_views(fields@) =~= field_views(f0).push(f@));
            assert(uv.take(i + 1) =~= uv.take(i as int).push(uv[i as int]));
        }
        i = i + 1;
    }
    proof {
        assert(uv.take(users@.len() as int) =~= uv);
    }
    new_table_schema(table.name.as_str(), fields)
}

/// The fields of the system table.
pub open spec fn system_cols() -> Seq<FieldV> {
    fields_of(system_table_entries())
}

/// The row stored in cell `cell` of a leaf page of the system table.
pub open spec fn system_row(src: Seq<u8>, cell: int) -> Seq<ValueV> {
    let off = leaf_cell_offset(cell, 64, 1104) + 64;
    decoded_record(system_cols(), src.subrange(off, off + 1104))
}

/// From cell `cell` of page `page`, the cursor over the system table comes
/// to the end within `fuel` steps, over pages it can read and rows that load.
pub open spec fn walk_ends(pager: &Pager, page: usize, cell: int, fuel: nat) -> bool
    decreases fuel,
{
    if fuel == 0 {
        false
    } else {
        let src = pager.page(page as int);
        let node = decoded_node(src, 64, 1104, system_cols());
        &&& page < usize::MAX
        &&& 0 <= cell < usize::MAX
        &&& node_readable(src, 64, 1104, system_cols())
        &&& (stored_is_leaf(src) && cell < stored_num_cells(src) ==> row_loads(system_row(src, cell)))
        &&& if cell + 1 >= node.num_cells() {
            match node {
                NodeV::Leaf { next_leaf: Some(p), .. } => walk_ends(pager, p, 0, (fuel - 1) as nat),
                _ => true,
            }
        } else {
            walk_ends(pager, page, cell + 1, (fuel - 1) as nat)
        }
    }
}

/// The leftmost leaf under `root` is reached within `f1` steps and the walk
/// over the rows from its first cell ends within `f2` steps.
pub open spec fn walk_from(pager: &Pager, root: usize, f1: nat, f2: nat) -> bool {
    match edge_leaf(pager, root as int, false, f1) {
        Some(p) => stored_num_cells(pager.page(p)) == 0 || walk_ends(pager, p as usize, 0, f2),
        None => false,
    }
}

/// The rows the cursor over the system table reads from cell `cell` of
/// page `page`, in order, within `fuel` steps.
pub open spec fn walk_rows(pager: &Pager, page: usize, cell: int, fuel: nat) -> Seq<Seq<ValueV>>
    decreases fuel,
{
    if fuel == 0 {
        Seq::empty()
    } else {
        let src = pager.page(page as int);
        let node = decoded_node(src, 64, 1104, system_cols());
        let rest = if cell + 1 >= node.num_cells() {
            match node {
                NodeV::Leaf { next_leaf: Some(p), .. } => walk_rows(pager, p, 0, (fuel - 1) as nat),
                _ => Seq::empty(),
            }
        } else {
            walk_rows(pager, page, cell + 1, (fuel - 1) as nat)
        };
        seq![system_row(src, cell)] + rest
    }
}

/// Steps enough to reach the leftmost leaf under `root` and to walk its rows.
pub open spec fn walk_fuel(pager: &Pager, root: usize) -> (nat, nat) {
    choose|f1: nat, f2: nat| #[trigger] walk_from(pager, root, f1, f2)
}

/// The rows of the system table whose root the header names, in the order
/// the cursor reads them.
pub open spec fn system_rows(pager: &Pager) -> Seq<Seq<ValueV>> {
    match header_of(pager.page(0)) {
        Some((_, _, root)) => {
            let (f1, f2) = walk_fuel(pager, root);
            match edge_leaf(pager, root as int, false, f1) {
                Some(p) => if stored_num_cells(pager.page(p)) == 0 {
                    Seq::empty()
                } else {
                    walk_rows(pager, p as usize, 0, f2)
                },
                None => Seq::empty(),
            }
        },
        None => Seq::empty(),
    }
}

/// The name a row of the system table gives its table.
pub open spec fn row_name(row: Seq<ValueV>) -> Seq<char> {
    match row[0] {
        ValueV::Utf8(n) => n,
        _ => Seq::empty(),
    }
}

/// What a row of the system table gives its table: its columns, the
/// system ones first, and its root page.
pub open spec fn row_table(row: Seq<ValueV>) -> (Seq<(Seq<char>, FieldV)>, usize) {
    match (row[1], row[2]) {
        (ValueV::Float64(root), ValueV::Utf8(text)) => match parsed_fields(pieces(text)) {
            Some(fs) => (extended(system_entries(), by_name(fs)), bits_usize(root)),
            None => (Seq::empty(), 0),
        },
        _ => (Seq::empty(), 0),
    }
}

/// The tables these rows give, in order under their names: a later row of
/// a name replaces the table of the earlier one in its place.
pub open spec fn loaded_tables(rows: Seq<Seq<ValueV>>) -> Seq<(Seq<char>, (Seq<(Seq<char>, FieldV)>, usize))>
    decreases rows.len(),
{
    if rows.len() == 0 {
        Seq::empty()
    } else {
        inserted(loaded_tables(rows.drop_last()), row_name(rows.last()), row_table(rows.last()))
    }
}

/// The tables under their names, each seen as its columns and root page.
pub open spec fn table_views(es: Seq<(Seq<char>, Table)>) -> Seq<(Seq<char>, (Seq<(Seq<char>, FieldV)>, usize))> {
    es.map_values(|e: (Seq<char>, Table)| (e.0, (column_entries(e.1.columns), e.1.btree.root_page)))
}

/// Seeing each table as its columns and root page commutes with inserting
/// under a name, when the names are distinct.
proof fn lemma_views_inserted(es: Seq<(Seq<char>, Table)>, k: Seq<char>, t: Table)
    requires
        distinct_keys(es),
    ensures
        table_views(inserted(es, k, t)) == inserted(table_views(es), k, (column_entries(t.columns), t.btree.root_page)),
{
    let vs = table_views(es);
    let tv = (column_entries(t.columns), t.btree.root_page);
    match key_position(es, k) {
        Some(i) => {
            assert(vs[i].0 == k);
            assert(key_position(vs, k) is Some);
            let j = key_position(vs, k)->0;
            assert(es[j].0 == k);
            assert(i == j);
            assert(table_views(es.update(i, (k, t))) =~= vs.update(i, (k, tv)));
        },
        None => {
            if exists|i: int| 0 <= i < vs.len() && #[trigger] vs[i].0 == k {
                let i = choose|i: int| 0 <= i < vs.len() && #[trigger] vs[i].0 == k;
                assert(es[i].0 == k);
            }
            assert(table_views(es.push((k, t))) =~= vs.push((k, tv)));
        },
    }
}

/// A row of the system table gives a table: a name, a root page as a
/// number, and a stored list of columns that reads.
pub open spec fn row_ok(row: Seq<ValueV>) -> bool {
    &&& row[0] is Utf8
    &&& row[1] is Float64
    &&& match row[2] {
        ValueV::Utf8(t) => parsed_fields(pieces(t)) is Some,
        _ => false,
    }
}

/// From cell `cell` of page `page`, each place the cursor over the system
/// table reads, within `fuel` steps, is a cell of a leaf and holds a row
/// that gives a table.
pub open spec fn walk_loads(pager: &Pager, page: usize, cell: int, fuel: nat) -> bool
    decreases fuel,
{
    if fuel == 0 {
        false
    } else {
        let src = pager.page(page as int);
        let node = decoded_node(src, 64, 1104, system_cols());
        &&& stored_is_leaf(src)
        &&& 0 <= cell < stored_num_cells(src)
        &&& row_ok(system_row(src, cell))
        &&& if cell + 1 >= node.num_cells() {
            match node {
                NodeV::Leaf { next_leaf: Some(p), .. } => walk_loads(pager, p, 0, (fuel - 1) as nat),
                _ => true,
            }
        } else {
            walk_loads(pager, page, cell + 1, (fuel - 1) as nat)
        }
    }
}

/// Whether the rows of the system table that the header names all give
/// tables; true without a header.
pub open spec fn system_loads(pager: &Pager) -> bool {
    match header_of(pager.page(0)) {
        Some((_, _, root)) => {
            let (f1, f2) = walk_fuel(pager, root);
            match edge_leaf(pager, root as int, false, f1) {
                Some(p) => stored_num_cells(pager.page(p)) == 0 || walk_loads(pager, p as usize, 0, f2),
                None => false,
            }
        },
        None => true,
    }
}

/// A pager that holds a database header can be opened: the walk over the
/// rows of its system table ends.
pub open spec fn opens(pager: &Pager) -> bool {
    match header_of(pager.page(0)) {
        Some((_, _, root)) => exists|f1: nat, f2: nat| #[trigger] walk_from(pager, root, f1, f2),
        None => true,
    }
}

/// The tree of the system table with its root at `root`.
pub open spec fn system_tree(root: usize) -> BTree {
    BTree {
        root_page: root,
        row_size: 1104,
        key_size: 64,
        cell_size: 1168,
        max_cells_per_leaf: 3,
        max_keys_per_internal: max_keys(64) as usize,
    }
}

/// Pagers with the same pages reach the same leaf.
proof fn lemma_edge_same(a: &Pager, b: &Pager, n: int, right: bool, fuel: nat)
    requires
        forall|m: int| #[trigger] a.page(m) == b.page(m),
    ensures
        edge_leaf(a, n, right, fuel) == edge_leaf(b, n, right, fuel),
    decreases fuel,
{
    assert(a.page(n) == b.page(n));
    if fuel > 0 {
        let next = if right {
            stored_pointer(a.page(n)) as int
        } else {
            le_u32_at(a.page(n), 12) as int
        };
        lemma_edge_same(a, b, next, right, (fuel - 1) as nat);
    }
}

/// Two amounts of fuel that both reach a leaf reach the same one.
proof fn lemma_edge_unique(pager: &Pager, n: int, right: bool, f1: nat, f2: nat)
    requires
        edge_leaf(pager, n, right, f1) is Some,
        edge_leaf(pager, n, right, f2) is Some,
    ensures
        edge_leaf(pager, n, right, f1) == edge_leaf(pager, n, right, f2),
    decreases f1,
{
    if f1 > 0 && f2 > 0 && 0 <= n < usize::MAX && !stored_is_leaf(pager.page(n)) {
        let next = if right {
            stored_pointer(pager.page(n)) as int
        } else {
            le_u32_at(pager.page(n), 12) as int
        };
        lemma_edge_unique(pager, next, right, (f1 - 1) as nat, (f2 - 1) as nat);
    }
}

/// A page with a database header written over its start reads, for the
/// system table, as a leaf with no cell.
proof fn lemma_header_page_ok(page: Seq<u8>, root: usize)
    requires
        page.len() == PAGE_SIZE,
    ensures
        stored_is_leaf(splice(page, 0, header_bytes(root))),
        page_ok(splice(page, 0, header_bytes(root)), 64, 1104, system_cols()),
{
    let h = splice(page, 0, header_bytes(root));
    let cols = system_cols();
    lemma_system_sizes();
    assert(h[0] == 0x52u8);
    assert(h[6] == 0u8);
    assert(h[7] == 0u8);
    assert(stored_num_cells(h) == 0);
    let node = decoded_node(h, 64, 1104, cols);
    assert(node->Leaf_cells.len() == 0);
    assert(node_fits(node, 64, 1104, cols, PAGE_SIZE as nat));
}

/// Whether the tables and the schemas are under the same names, in the
/// same order.
pub open spec fn same_names(tables: Seq<(Seq<char>, Table)>, schemas: Seq<(Seq<char>, SchemaV)>) -> bool {
    &&& schemas.len() == tables.len()
    &&& forall|i: int| 0 <= i < tables.len() ==> #[trigger] schemas[i].0 == tables[i].0
}

impl Database {
    /// Opens the database held in `pager`. When page 0 holds a header, the
    /// system table is the tree at the root it names, and each of its rows,
    /// in order, gives a table, recorded under its name with its schema.
    /// Otherwise a new system table is made and a header naming its root is
    /// written at the start of page 0; page 0 is kept for the header, so
    /// the root is never page 0.
    pub fn new(store: Pager) -> (r: Result<Database, Error>)
        requires
            store.wf(),
            store.next() < 0xffff_fffe,
            opens(&store),
        ensures
            match header_of(store.page(0)) {
                Some((_, _, root)) => {
                    &&& (r is Ok <==> system_loads(&store))
                    &&& (r matches Ok(db) ==> {
                    &&& db.system_table.btree.root_page == root
                    &&& db.system_table.cols() == system_cols()
                    &&& db.system_table.wf()
                    &&& db.pager.wf()
                    &&& db.pager.next() == store.next()
                    &&& forall|n: int| #[trigger] db.pager.page(n) == store.page(n)
                    &&& same_names(table_entries(db.tables), schema_entries(db.schemas))
                    &&& table_views(table_entries(db.tables)) == loaded_tables(system_rows(&store))
                    &&& (system_tree(root).pages_ok(&store, system_cols()) && system_tree(root).tree_shaped(
                        &store,
                        system_cols(),
                    )) ==> db.wf()
                    })
                },
                None => r matches Ok(db) && {
                    &&& table_entries(db.tables).len() == 0
                    &&& schema_entries(db.schemas).len() == 0
                    &&& db.system_table.btree.root_page == (if store.next() == 0 {
                        1
                    } else {
                        store.next()
                    })
                    &&& db.system_table.btree.root_page != 0
                    &&& db.system_table.cols() == system_cols()
                    &&& db.pager.next() == db.system_table.btree.root_page + 1
                    &&& header_of(db.pager.page(0)) == Some(
                        (CURRENT_VERSION, PAGE_SIZE, db.system_table.btree.root_page),
                    )
                    &&& (forall|n: int| #[trigger] store.page(n) == zero_page()) ==> db.wf()
                },
            },
    {
        let ghost p_in = store;
        let mut pager = store;
        let header = match pager.get_page(0) {
            Ok(page) => {
                proof {
                    assert(page.data@.len() == PAGE_SIZE);
                }
                DatabaseHeader::deserialize(&page.data)
            },
            Err(e) => return Err(e),
        };
        let ghost p1 = pager;
        proof {
            lemma_system_sizes();
        }
        match header {
            Some(header) => {
                let ghost root = header.system_table_page;
                let system_table = Table::load(
                    "_system_table".to_string(),
                    system_table_columns(),
                    header.system_table_page,
                    true,
                );
                let ghost (f1, f2) = walk_fuel(&p_in, root);
                proof {
                    lemma_edge_same(&p_in, &pager, root as int, false, f1);
                    assert(system_table.btree.key_size == 64);
                    assert(system_table.btree.row_size == 1104);
                }
                let mut tables: IndexMap<String, Table> = tables_new();
                let mut schemas: IndexMap<String, Schema> = schemas_new();
                let mut cursor = match system_table.start(&mut pager) {
                    Ok(c) => c,
                    Err(e) => return Err(e),
                };
                let ghost mut fuel: nat = f2;
                let ghost mut seen: Seq<Seq<ValueV>> = Seq::empty();
                proof {
                    assert(table_views(table_entries(tables)) =~= loaded_tables(seen));
                    let f = choose|f: nat| #[trigger] edge_leaf(&p1, root as int, false, f) == Some(cursor.page_num as int);
                    lemma_edge_unique(&p1, root as int, false, f, f1);
                    lemma_edge_same(&p_in, &p1, root as int, false, f);
                    assert(seen + Seq::<Seq<ValueV>>::empty() =~= seen);
                    assert(seen + walk_rows(&p_in, cursor.page_num, 0, f2) =~= walk_rows(&p_in, cursor.page_num, 0, f2));
                    assert(cursor.eot ==> system_loads(&store));
                    assert(!cursor.eot ==> (system_loads(&store) == walk_loads(&p_in, cursor.page_num, 0, f2)));
                }
                while !cursor.eot
                    invariant
                        pager.wf(),
                        pager.next() == p_in.next(),
                        forall|n: int| #[trigger] pager.page(n) == p_in.page(n),
                        cursor.table == &system_table,
                        system_table.wf(),
                        system_table.cols() == system_cols(),
                        system_table.btree.key_size == 64,
                        system_table.btree.row_size == 1104,
                        system_table.btree.root_page == root,
                        !cursor.eot ==> walk_ends(&p_in, cursor.page_num, cursor.cell_num as int, fuel),
                        same_names(table_entries(tables), schema_entries(schemas)),
                        distinct_keys(table_entries(tables)),
                        table_views(table_entries(tables)) == loaded_tables(seen),
                        seen + (if cursor.eot {
                            Seq::<Seq<ValueV>>::empty()
                        } else {
                            walk_rows(&p_in, cursor.page_num, cursor.cell_num as int, fuel)
                        }) == system_rows(&store),
                        p_in == store,
                        header_of(store.page(0)) is Some,
                        !cursor.eot ==> (system_loads(&store) == walk_loads(
                            &p_in,
                            cursor.page_num,
                            cursor.cell_num as int,
                            fuel,
                        )),
                        cursor.eot ==> system_loads(&store),
                    decreases fuel,
                {
                    let ghost pb = pager;
                    let row = match cursor.row(&mut pager) {
                        Ok(row) => row,
                        Err(e) => return Err(e),
                    };
                    proof {
                        assert(pb.page(cursor.page_num as int) == pager.page(cursor.page_num as int));
                        assert(pb.page(cursor.page_num as int) == p_in.page(cursor.page_num as int));
                        assert(row@ == system_row(pb.page(cursor.page_num as int), cursor.cell_num as int));
                    }
                    let table = match Database::table_of_row(&row) {
                        Ok(t) => t,
                        Err(e) => return Err(e),
                    };
                    let schema = user_schema(&table);
                    proof {
                        lemma_same_keys_inserted(table_entries(tables), schema_entries(schemas), table.name@, table, schema@);
                        lemma_views_inserted(table_entries(tables), table.name@, table);
                        lemma_inserted_distinct(table_entries(tables), table.name@, table);
                        let s0 = seen;
                        seen = seen.push(row@);
                        assert(seen.drop_last() =~= s0);
                        assert(row_name(row@) == table.name@);
                        assert(row_table(row@) == (column_entries(table.columns), table.btree.root_page));
                    }
                    schemas_insert(&mut schemas, table.name.clone(), schema);
                    tables_insert(&mut tables, table.name.clone(), table);
                    let ghost pc = pager;
                    let ghost (pg, cl) = (cursor.page_num, cursor.cell_num);
                    match cursor.advance(&mut pager) {
                        Ok(()) => {},
                        Err(e) => return Err(e),
                    }
                    proof {
                        assert(pc.page(pg as int) == p_in.page(pg as int));
                        let w = walk_rows(&p_in, pg, cl as int, fuel);
                        assert(w[0] == row@);
                        if !cursor.eot {
                            assert(w =~= seq![row@] + walk_rows(&p_in, cursor.page_num, cursor.cell_num as int, (fuel - 1) as nat));
                        } else {
                            assert(w =~= seq![row@]);
                        }
                        assert(seen + (if cursor.eot {
                            Seq::<Seq<ValueV>>::empty()
                        } else {
                            walk_rows(&p_in, cursor.page_num, cursor.cell_num as int, (fuel - 1) as nat)
                        }) =~= seen.drop_last() + w);
                        assert(row_ok(row@));
                        fuel = (fuel - 1) as nat;
                    }
                }
                Ok(Database { pager, tables, schemas, system_table })
            },
            None => {
                if pager.next_page() == 0 {
                    let _ = pager.alloc_page();
                }
                let ghost pa = pager;
                proof {
                    assert(forall|n: int| #[trigger] pa.page(n) == p1.page(n));
                }
                let system_table = match Table::from_columns(
                    "_system_table".to_string(),
                    system_table_columns(),
                    &mut pager,
                    true,
                ) {
                    Ok(t) => t,
                    Err(e) => return Err(e),
                };
                let ghost p2 = pager;
                let root = system_table.root_page();
                let new_header = DatabaseHeader::new(root);
                match pager.get_page(0) {
                    Ok(page) => {
                        proof {
                            assert(page.data@.len() == PAGE_SIZE);
                        }
                        let _ = new_header.serialize(root, &mut page.data);
                    },
                    Err(e) => return Err(e),
                }
                proof {
                    let h0 = p2.page(0);
                    p2.lemma_page_len(0);
                    crate::magic::lemma_header_roundtrip(h0, root);
                    lemma_header_page_ok(h0, root);
                    if forall|n: int| #[trigger] p_in.page(n) == zero_page() {
                        let cols = system_cols();
                        let tree = system_table.btree;
                        assert(forall|n: int| #[trigger] pa.page(n) == p_in.page(n));
                        crate::btree::lemma_memory_pages_ok(&tree, &pa, cols);
                        assert(system_table.stored_ok(&p2));
                        assert forall|n: int| #[trigger] page_ok(pager.page(n), 64, 1104, cols) by {
                            if n != 0 {
                                assert(pager.page(n) == p2.page(n));
                                assert(page_ok(p2.page(n), 64, 1104, cols));
                            }
                        }
                        assert(tree.pages_ok(&pager, cols));
                        let levels = Map::<int, nat>::empty().insert(root as int, 0);
                        if root != 0 {
                            assert(pager.page(root as int) == p2.page(root as int));
                        }
                        assert(tree.level_ok(&pager, levels, root as int, cols));
                        assert(tree.shaped(&pager, levels, cols));
                        assert(levels.dom().contains(root as int));
                    }
                }
                Ok(Database { pager, tables: tables_new(), schemas: schemas_new(), system_table })
            },
        }
    }
}

/// What a read gives back of a write in the catalog: once a table is
/// recorded under a name that no table had, a lookup of that name finds
/// the table recorded last.
pub proof fn lemma_recorded_found<T>(before: Seq<(Seq<char>, T)>, after: Seq<(Seq<char>, T)>, name: Seq<char>)
    requires
        key_position(before, name) is None,
        after.len() == before.len() + 1,
        after.drop_last() == before,
        after.last().0 == name,
    ensures
        key_position(after, name) == Some((after.len() - 1) as int),
{
    let n = after.len() - 1;
    assert(after[n].0 == name);
    assert(key_position(after, name) is Some);
    let i = key_position(after, name)->0;
    assert(0 <= i < after.len() && after[i].0 == name);
    if i < n {
        assert(before[i] == after[i]);
        assert(before[i].0 == name);
        assert(exists|k: int| 0 <= k < before.len() && #[trigger] before[k].0 == name);
    }
    assert(i == n);
}

/// What reopening gives back of a created table: when the header names a
/// system table that is one leaf whose only cell holds the row recorded for
/// a table, the tables that opening the pages loads are that one table,
/// with the columns the row stores (the system ones first) and its root.
pub proof fn lemma_single_row_reloads(
    store: &Pager,
    root: usize,
    parent: Option<usize>,
    name: Seq<char>,
    table_root: usize,
    fs: Seq<FieldV>,
)
    requires
        header_of(store.page(0)) matches Some((_, _, r)) && r == root,
        opens(store),
        root < usize::MAX,
        fs.len() >= 1,
        table_root < 0x20_0000_0000_0000,
        forall|k: int|
            0 <= k < fs.len() ==> {
                &&& !(#[trigger] fs[k]).name.contains(':')
                &&& !fs[k].name.contains(';')
                &&& crate::field::named_type(fs[k].data_type)
                &&& fs[k] == crate::field::sized_field(fs[k].name, fs[k].data_type, byte_size_of(fs[k]))
            },
        system_tree(root).holds(
            store,
            root as int,
            NodeV::Leaf {
                parent,
                cells: seq![
                    (
                        ValueV::Utf8(name),
                        seq![
                            ValueV::Utf8(name),
                            ValueV::Float64(whole_bits(table_root as nat)),
                            ValueV::Utf8(joined(fs.map_values(|f: FieldV| crate::field::field_text(f)))),
                            ValueV::Float64(whole_bits(0)),
                        ],
                    ),
                ],
                next_leaf: None,
            },
            system_cols(),
        ),
    ensures
        loaded_tables(system_rows(store)) == seq![(name, (extended(system_entries(), by_name(fs)), table_root))],
{
    let row = seq![
        ValueV::Utf8(name),
        ValueV::Float64(whole_bits(table_root as nat)),
        ValueV::Utf8(joined(fs.map_values(|f: FieldV| crate::field::field_text(f)))),
        ValueV::Float64(whole_bits(0)),
    ];
    let cells = seq![(ValueV::Utf8(name), row)];
    let node = NodeV::Leaf { parent, cells, next_leaf: None };
    let src = store.page(root as int);
    let cols = system_cols();
    lemma_system_sizes();
    assert(page_holds(src, node, 64, 1104, cols));
    assert(decoded_node(src, 64, 1104, cols) == node);
    assert(stored_is_leaf(src));
    assert(stored_num_cells(src) == 1) by {
        assert(decoded_node(src, 64, 1104, cols)->Leaf_cells.len() == 1);
    }
    let (f1, f2) = walk_fuel(store, root);
    assert(walk_from(store, root, f1, f2));
    assert(edge_leaf(store, root as int, false, f1) == Some(root as int));
    assert(walk_ends(store, root, 0, f2));
    assert(f2 > 0);
    assert(cell_fits(cells, cols, 64, 0));
    assert(cell_holds(leaf_region(src, 0, 64, 1104), cells[0], 64, cols));
    let r = leaf_region(src, 0, 64, 1104).skip(64);
    assert(r =~= src.subrange(76int, 1180int));
    crate::record::lemma_row_holds_decodes(r, row, cols);
    assert(system_row(src, 0) == row);
    assert(walk_rows(store, root, 0, (f2 - 1) as nat + 1) =~= seq![row]);
    assert(system_rows(store) == seq![row]);
    crate::table::lemma_stored_columns_roundtrip(fs, table_root);
    let rows = seq![row];
    assert(rows.drop_last() =~= Seq::<Seq<ValueV>>::empty());
    assert(row_table(row) == (extended(system_entries(), by_name(fs)), table_root));
    assert(row_name(row) == name);
    let none = Seq::<(Seq<char>, (Seq<(Seq<char>, FieldV)>, usize))>::empty();
    assert(loaded_tables(rows.drop_last()) == none);
    assert(key_position(none, name) is None);
    assert(loaded_tables(rows) =~= seq![(name, (extended(system_entries(), by_name(fs)), table_root))]);
}

} // verus!
