use vstd::prelude::*;

use indexmap::IndexMap;

use crate::field::{Field, FieldV};
use crate::schema::{Schema, SchemaV};
use crate::table::Table;

verus! {

/// The insertion-ordered map of the `indexmap` crate, opaque to proofs.
#[verifier::external_type_specification]
#[verifier::external_body]
#[verifier::reject_recursive_types(K)]
#[verifier::reject_recursive_types(V)]
#[verifier::reject_recursive_types(S)]
pub struct ExIndexMap<K, V, S>(IndexMap<K, V, S>);

/// The entries of a map of columns by name, in their order.
pub uninterp spec fn column_entries(m: IndexMap<String, Field>) -> Seq<(Seq<char>, FieldV)>;

/// No two entries have the same key.
pub open spec fn distinct_keys<T>(entries: Seq<(Seq<char>, T)>) -> bool {
    forall|i: int, j: int|
        0 <= i < entries.len() && 0 <= j < entries.len() && i != j ==> #[trigger] entries[i].0
            != #[trigger] entries[j].0
}

/// Where `key` is among the entries, if it is.
pub open spec fn key_position<T>(entries: Seq<(Seq<char>, T)>, key: Seq<char>) -> Option<int> {
    if exists|i: int| 0 <= i < entries.len() && #[trigger] entries[i].0 == key {
        Some(choose|i: int| 0 <= i < entries.len() && #[trigger] entries[i].0 == key)
    } else {
        None
    }
}

/// The entries after inserting `key` with `value`: the value replaced in
/// place when the key is there, the pair added last otherwise.
pub open spec fn inserted<T>(entries: Seq<(Seq<char>, T)>, key: Seq<char>, value: T) -> Seq<(Seq<char>, T)> {
    match key_position(entries, key) {
        Some(i) => entries.update(i, (key, value)),
        None => entries.push((key, value)),
    }
}

/// Inserting keeps keys distinct.
pub proof fn lemma_inserted_distinct<T>(entries: Seq<(Seq<char>, T)>, key: Seq<char>, value: T)
    requires
        distinct_keys(entries),
    ensures
        distinct_keys(inserted(entries, key, value)),
{
    let e2 = inserted(entries, key, value);
    match key_position(entries, key) {
        Some(i) => {
            assert forall|a: int, b: int|
                0 <= a < e2.len() && 0 <= b < e2.len() && a != b implies #[trigger] e2[a].0 != #[trigger] e2[b].0 by {
                assert(entries[i].0 == key);
            }
        },
        None => {
            assert forall|a: int, b: int|
                0 <= a < e2.len() && 0 <= b < e2.len() && a != b implies #[trigger] e2[a].0 != #[trigger] e2[b].0 by {
                if a == entries.len() as int {
                    assert(entries[b].0 != key);
                } else if b == entries.len() as int {
                    assert(entries[a].0 != key);
                }
            }
        },
    }
}

/// An empty map of columns (`IndexMap::new`).
#[verifier::external_body]
pub(crate) fn columns_new() -> (m: IndexMap<String, Field>)
    ensures
        column_entries(m) == Seq::<(Seq<char>, FieldV)>::empty(),
{
    IndexMap::new()
}

/// `IndexMap::insert`: a key already there keeps its place and takes the new
/// value, whose old value comes back; a new key goes last.
#[verifier::external_body]
pub(crate) fn columns_insert(m: &mut IndexMap<String, Field>, key: String, value: Field) -> (r: Option<Field>)
    ensures
        column_entries(*final(m)) == inserted(column_entries(*old(m)), key@, value@),
        match key_position(column_entries(*old(m)), key@) {
            Some(i) => r matches Some(v) && v@ == column_entries(*old(m))[i].1,
            None => r is None,
        },
{
    m.insert(key, value)
}

/// `IndexMap::get`: the value of the entry with the key, if there is one.
#[verifier::external_body]
pub(crate) fn columns_get<'a>(m: &'a IndexMap<String, Field>, key: &str) -> (r: Option<&'a Field>)
    ensures
        match key_position(column_entries(*m), key@) {
            Some(i) => r matches Some(v) && v@ == column_entries(*m)[i].1,
            None => r is None,
        },
{
    m.get(key)
}

/// `IndexMap::get_index`: the entry at a place in the order, if there is one.
#[verifier::external_body]
pub(crate) fn columns_get_index(m: &IndexMap<String, Field>, index: usize) -> (r: Option<(&String, &Field)>)
    ensures
        match r {
            Some((k, v)) => index < column_entries(*m).len() && k@ == column_entries(*m)[index as int].0 && v@
                == column_entries(*m)[index as int].1,
            None => index >= column_entries(*m).len(),
        },
{
    m.get_index(index)
}

/// `IndexMap::len`: the number of entries.
#[verifier::external_body]
pub(crate) fn columns_len(m: &IndexMap<String, Field>) -> (r: usize)
    ensures
        r == column_entries(*m).len(),
{
    m.len()
}

/// `IndexMap::contains_key`: whether an entry has the key.
#[verifier::external_body]
pub(crate) fn columns_contains(m: &IndexMap<String, Field>, key: &str) -> (r: bool)
    ensures
        r == (key_position(column_entries(*m), key@) is Some),
{
    m.contains_key(key)
}

/// The entries of a map of tables by name, in their order.
pub uninterp spec fn table_entries(m: IndexMap<String, Table>) -> Seq<(Seq<char>, Table)>;

/// The entries of a map of schemas by table name, in their order.
pub uninterp spec fn schema_entries(m: IndexMap<String, Schema>) -> Seq<(Seq<char>, SchemaV)>;

/// An empty map of tables (`IndexMap::new`).
#[verifier::external_body]
pub(crate) fn tables_new() -> (m: IndexMap<String, Table>)
    ensures
        table_entries(m) == Seq::<(Seq<char>, Table)>::empty(),
{
    IndexMap::new()
}

/// `IndexMap::insert` on a map of tables: a name already there keeps its
/// place and takes the new table; a new name goes last.
#[verifier::external_body]
pub(crate) fn tables_insert(m: &mut IndexMap<String, Table>, key: String, value: Table)
    ensures
        table_entries(*final(m)) == inserted(table_entries(*old(m)), key@, value),
{
    m.insert(key, value);
}

/// `IndexMap::get` on a map of tables.
#[verifier::external_body]
pub(crate) fn tables_get<'a>(m: &'a IndexMap<String, Table>, key: &str) -> (r: Option<&'a Table>)
    ensures
        match key_position(table_entries(*m), key@) {
            Some(i) => r matches Some(t) && *t == table_entries(*m)[i].1,
            None => r is None,
        },
{
    m.get(key)
}

/// `IndexMap::contains_key` on a map of tables.
#[verifier::external_body]
pub(crate) fn tables_contains(m: &IndexMap<String, Table>, key: &str) -> (r: bool)
    ensures
        r == (key_position(table_entries(*m), key@) is Some),
{
    m.contains_key(key)
}

/// An empty map of schemas (`IndexMap::new`).
#[verifier::external_body]
pub(crate) fn schemas_new() -> (m: IndexMap<String, Schema>)
    ensures
        schema_entries(m) == Seq::<(Seq<char>, SchemaV)>::empty(),
{
    IndexMap::new()
}

/// `IndexMap::insert` on a map of schemas: a name already there keeps its
/// place and takes the new schema; a new name goes last.
#[verifier::external_body]
pub(crate) fn schemas_insert(m: &mut IndexMap<String, Schema>, key: String, value: Schema)
    ensures
        schema_entries(*final(m)) == inserted(schema_entries(*old(m)), key@, value@),
{
    m.insert(key, value);
}

/// `IndexMap::get` on a map of schemas.
#[verifier::external_body]
pub(crate) fn schemas_get<'a>(m: &'a IndexMap<String, Schema>, key: &str) -> (r: Option<&'a Schema>)
    ensures
        match key_position(schema_entries(*m), key@) {
            Some(i) => r matches Some(s) && s@ == schema_entries(*m)[i].1,
            None => r is None,
        },
{
    m.get(key)
}

/// `IndexMap::get_index` on a map of schemas.
#[verifier::external_body]
pub(crate) fn schemas_get_index(m: &IndexMap<String, Schema>, index: usize) -> (r: Option<(&String, &Schema)>)
    ensures
        match r {
            Some((k, v)) => index < schema_entries(*m).len() && k@ == schema_entries(*m)[index as int].0 && v@
                == schema_entries(*m)[index as int].1,
            None => index >= schema_entries(*m).len(),
        },
{
    m.get_index(index)
}

/// `IndexMap::len` on a map of schemas.
#[verifier::external_body]
pub(crate) fn schemas_len(m: &IndexMap<String, Schema>) -> (r: usize)
    ensures
        r == schema_entries(*m).len(),
{
    m.len()
}

} // verus!
