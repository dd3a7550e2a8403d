use vstd::prelude::*;

use crate::codec::{splice, u16_bytes, write_u16};
use crate::error::Error;
use crate::field::{byte_size_of, Field, FieldExt, FieldV};
use crate::node::{
    cell_fits, cell_holds, cells_fit, decoded_node, key_fits, leaf_cell_offset, leaf_cells_hold,
    leaf_region, lemma_leaf_from_regions, node_fits, node_readable, node_writable, node_written,
    null_page, page_holds, page_of, stored_is_leaf, stored_num_cells, stored_parent, stored_pointer, Node, NodeV,
    HEADER_SIZE,
};
use crate::record::{fits_columns, lemma_written_record_local, lemma_written_row_holds, within_columns};
use crate::schema::row_size_of;
use crate::pager::{Pager, PAGE_SIZE};
use crate::record::{pairs, record_writable, ref_views, written_record, Record};
use crate::value::{comparable, decoded, encoded, needed, readable_from, value_sign, Value, ValueV};

verus! {

/// A B+tree of fixed-size cells stored in the pages of a pager.
#[derive(Debug)]
pub struct BTree {
    pub root_page: usize,
    pub row_size: usize,
    pub key_size: usize,
    pub cell_size: usize,
    pub max_cells_per_leaf: usize,
    pub max_keys_per_internal: usize,
}

pub open spec fn empty_leaf() -> NodeV {
    NodeV::Leaf { parent: None, cells: seq![], next_leaf: None }
}

/// The page after its cells from `from` on move one cell to the right and
/// the cell count grows by one.
pub open spec fn shifted(page: Seq<u8>, from: int, cell_size: int) -> Seq<u8> {
    let num = stored_num_cells(page);
    let start = HEADER_SIZE + from * cell_size;
    let end = HEADER_SIZE + num * cell_size;
    splice(
        splice(page, start + cell_size, page.subrange(start, end)),
        6,
        u16_bytes((num + 1) as u16),
    )
}

/// The page after a key and a row are written at byte `off`: the key in
/// `key_size` bytes, the row from the end of the key on.
pub open spec fn cell_written(
    page: Seq<u8>,
    off: int,
    key: ValueV,
    row: Seq<ValueV>,
    key_size: nat,
    cols: Seq<FieldV>,
) -> Seq<u8> {
    let w = splice(page, off, encoded(key, key_size));
    w.take(off + key_size) + written_record(row, cols, w.skip(off + key_size), pairs(row, cols))
}

/// The key of cell `i` of a stored leaf, read with the key column.
pub open spec fn stored_leaf_key(page: Seq<u8>, i: int, key_col: FieldV, row_size: nat) -> ValueV {
    decoded(
        page.skip(leaf_cell_offset(i, byte_size_of(key_col) as int, row_size as int)),
        key_col.data_type,
    )
}

/// Every key of a stored leaf can be read with the key column and compared with `key`.
pub open spec fn leaf_keys_searchable(page: Seq<u8>, key: ValueV, key_col: FieldV, row_size: nat) -> bool {
    &&& page.len() >= HEADER_SIZE
    &&& byte_size_of(key_col) + row_size <= usize::MAX
    &&& forall|i: int|
        0 <= i < stored_num_cells(page) ==> {
            let off = leaf_cell_offset(i, byte_size_of(key_col) as int, row_size as int);
            &&& off <= page.len()
            &&& readable_from(page.skip(off), key_col.data_type)
            &&& comparable(#[trigger] stored_leaf_key(page, i, key_col, row_size), key)
        }
}

/// Where binary search stops in `keys` for `key`: on an equal key when it
/// found one, otherwise between a smaller key and a greater one.
pub open spec fn search_result(keys: Seq<ValueV>, key: ValueV, i: int, found: bool) -> bool {
    &&& 0 <= i <= keys.len()
    &&& found ==> i < keys.len() && value_sign(keys[i], key) == 0
    &&& !found ==> (i > 0 ==> value_sign(keys[i - 1], key) < 0) && (i < keys.len() ==> value_sign(
        keys[i],
        key,
    ) > 0)
}

pub open spec fn max_cells(cell_size: nat) -> nat {
    ((PAGE_SIZE - HEADER_SIZE) as nat / cell_size) as nat
}

pub open spec fn max_keys(key_size: nat) -> nat {
    ((PAGE_SIZE - HEADER_SIZE) as nat / ((4 + key_size) as nat)) as nat
}

/// Copies `data[start..end]` to `data[start + shift..end + shift]`.
fn copy_right(data: &mut [u8], start: usize, end: usize, shift: usize)
    requires
        start <= end,
        end + shift <= old(data)@.len(),
    ensures
        final(data)@ == splice(old(data)@, start + shift, old(data)@.subrange(start as int, end as int)),
{
    let ghost d0 = data@;
    let mut i: usize = end;
    while i > start
        invariant
            start <= i <= end,
            end + shift <= d0.len(),
            data@.len() == d0.len(),
            forall|j: int|
                0 <= j < d0.len() ==> #[trigger] data@[j] == if i + shift <= j < end + shift {
                    d0[j - shift]
                } else {
                    d0[j]
                },
        decreases i,
    {
        i = i - 1;
        let b = data[i];
        data[i + shift] = b;
    }
    proof {
        assert(data@ =~= splice(d0, start + shift, d0.subrange(start as int, end as int)));
    }
}

impl BTree {
    pub open spec fn wf(&self) -> bool {
        &&& self.key_size + self.row_size > 0
        &&& self.key_size + self.row_size <= usize::MAX
        &&& self.key_size + 4 <= usize::MAX
        &&& self.cell_size == self.key_size + self.row_size
        &&& self.max_cells_per_leaf == max_cells(self.cell_size as nat)
        &&& self.max_keys_per_internal == max_keys(self.key_size as nat)
    }

    /// The node page `n` reads as.
    pub open spec fn node_at(&self, pager: &Pager, n: int, cols: Seq<FieldV>) -> NodeV {
        decoded_node(pager.page(n), self.key_size as nat, self.row_size as nat, cols)
    }

    /// Page `n` holds `node`.
    pub open spec fn holds(&self, pager: &Pager, n: int, node: NodeV, cols: Seq<FieldV>) -> bool {
        page_holds(pager.page(n), node, self.key_size as nat, self.row_size as nat, cols)
    }

    fn layout(row_size: usize, key_size: usize, root_page: usize) -> (t: BTree)
        requires
            0 < key_size + row_size <= usize::MAX,
            key_size + 4 <= usize::MAX,
        ensures
            t.wf(),
            t.root_page == root_page,
            t.row_size == row_size,
            t.key_size == key_size,
    {
        let cell_size = key_size + row_size;
        let max_cells_per_leaf = (PAGE_SIZE - HEADER_SIZE) / cell_size;
        let max_keys_per_internal = (PAGE_SIZE - HEADER_SIZE) / (4 + key_size);
        BTree {
            root_page,
            row_size,
            key_size,
            cell_size,
            max_cells_per_leaf,
            max_keys_per_internal,
        }
    }

    /// A tree whose root is a new page holding an empty leaf.
    pub fn new(row_size: usize, key_size: usize, pager: &mut Pager, cols: &[&Field]) -> (t: BTree)
        requires
            old(pager).wf(),
            old(pager).next() < usize::MAX - 1,
            0 < key_size + row_size <= usize::MAX,
            key_size + 4 <= usize::MAX,
        ensures
            t.wf(),
            t.row_size == row_size,
            t.key_size == key_size,
            t.root_page == old(pager).next(),
            final(pager).wf(),
            final(pager).next() == old(pager).next() + 1,
            final(pager).page(t.root_page as int) == node_written(
                empty_leaf(),
                old(pager).page(t.root_page as int),
                key_size as nat,
                row_size as nat,
                ref_views(cols@),
            ),
            forall|n: int| n != t.root_page ==> #[trigger] final(pager).page(n) == old(pager).page(n),
    {
        let root_page = pager.alloc_page();
        let cells: Vec<(Value, Record)> = Vec::new();
        proof {
            assert(crate::node::cell_views(cells@) =~= Seq::empty());
        }
        let empty = Node::Leaf { parent: None, cells, next_leaf: None };
        let tree = Self::layout(row_size, key_size, root_page);
        proof {
            assert(empty@ == empty_leaf());
        }
        match pager.get_page(root_page) {
            Ok(page) => {
                proof {
                    assert(page.data@.len() == PAGE_SIZE);
                }
                empty.serialize(&mut page.data, key_size, row_size, cols);
            },
            Err(_) => {},
        }
        tree
    }

    /// A tree over pages already written, with its root at `root_page`.
    pub fn load(root_page: usize, row_size: usize, key_size: usize) -> (t: BTree)
        requires
            0 < key_size + row_size <= usize::MAX,
            key_size + 4 <= usize::MAX,
        ensures
            t.wf(),
            t.root_page == root_page,
            t.row_size == row_size,
            t.key_size == key_size,
    {
        Self::layout(row_size, key_size, root_page)
    }

    /// The node page `page_num` holds.
    pub fn read_node(&self, pager: &mut Pager, page_num: usize, cols: &[&Field]) -> (r: Result<
        Node,
        Error,
    >)
        requires
            old(pager).wf(),
            page_num < usize::MAX,
            node_readable(
                old(pager).page(page_num as int),
                self.key_size as nat,
                self.row_size as nat,
                ref_views(cols@),
            ),
        ensures
            final(pager).wf(),
            final(pager).next() == old(pager).next(),
            forall|n: int| #[trigger] final(pager).page(n) == old(pager).page(n),
            r matches Ok(node) && node@ == self.node_at(old(pager), page_num as int, ref_views(cols@)),
    {
        let page = pager.get_page(page_num);
        match page {
            Ok(page) => {
                proof {
                    assert(page.data@.len() == PAGE_SIZE);
                }
                Ok(Node::deserialize(&page.data, self.key_size, self.row_size, cols))
            },
            Err(e) => Err(e),
        }
    }

    /// Reads the node of page `page_num`, hands it to `f` and gives back
    /// what `f` returns.
    pub fn with_node<R, F: FnOnce(&Node) -> Result<R, Error>>(
        &self,
        pager: &mut Pager,
        page_num: usize,
        cols: &[&Field],
        f: F,
    ) -> (r: Result<R, Error>)
        requires
            old(pager).wf(),
            page_num < usize::MAX,
            node_readable(
                old(pager).page(page_num as int),
                self.key_size as nat,
                self.row_size as nat,
                ref_views(cols@),
            ),
            forall|n: Node|
                n@ == self.node_at(old(pager), page_num as int, ref_views(cols@)) ==> #[trigger] f.requires((&n,)),
        ensures
            final(pager).wf(),
            final(pager).next() == old(pager).next(),
            forall|n: int| #[trigger] final(pager).page(n) == old(pager).page(n),
            exists|n: Node|
                n@ == self.node_at(old(pager), page_num as int, ref_views(cols@)) && #[trigger] f.ensures((&n,), r),
    {
        let node = match self.read_node(pager, page_num, cols) {
            Ok(n) => n,
            Err(e) => return Err(e),
        };
        f(&node)
    }

    /// Writes `node` to page `page_num`.
    pub fn write_node(&self, pager: &mut Pager, page_num: usize, node: &Node, cols: &[&Field]) -> (r:
        Result<(), Error>)
        requires
            old(pager).wf(),
            page_num < usize::MAX,
            node_writable(
                node@,
                self.key_size as nat,
                self.row_size as nat,
                ref_views(cols@),
                PAGE_SIZE as nat,
            ),
        ensures
            r is Ok,
            final(pager).wf(),
            final(pager).next() == old(pager).next(),
            final(pager).page(page_num as int) == node_written(
                node@,
                old(pager).page(page_num as int),
                self.key_size as nat,
                self.row_size as nat,
                ref_views(cols@),
            ),
            forall|n: int| n != page_num ==> #[trigger] final(pager).page(n) == old(pager).page(n),
    {
        match pager.get_page(page_num) {
            Ok(page) => {
                proof {
                    assert(page.data@.len() == PAGE_SIZE);
                }
                node.serialize(&mut page.data, self.key_size, self.row_size, cols);
                Ok(())
            },
            Err(e) => Err(e),
        }
    }

    /// Moves the cells of a leaf page from `from` on one cell to the right,
    /// making room at `from`, and counts one cell more.
    pub fn shift_cells_right(&self, pager: &mut Pager, page_num: usize, from: usize) -> (r: Result<
        (),
        Error,
    >)
        requires
            self.wf(),
            old(pager).wf(),
            page_num < usize::MAX,
            from <= stored_num_cells(old(pager).page(page_num as int)),
            HEADER_SIZE + (stored_num_cells(old(pager).page(page_num as int)) + 1) * self.cell_size
                <= PAGE_SIZE,
        ensures
            r is Ok,
            final(pager).wf(),
            final(pager).next() == old(pager).next(),
            final(pager).page(page_num as int) == shifted(
                old(pager).page(page_num as int),
                from as int,
                self.cell_size as int,
            ),
            forall|n: int| n != page_num ==> #[trigger] final(pager).page(n) == old(pager).page(n),
    {
        match pager.get_page(page_num) {
            Ok(page) => {
                proof {
                    assert(page.data@.len() == PAGE_SIZE);
                }
                let num_cells = Node::read_num_cells(&page.data);
                proof {
                    crate::node::lemma_offset_le(from as int, num_cells as int, self.cell_size as int);
                }
                let shift_start = HEADER_SIZE + from * self.cell_size;
                let shift_end = HEADER_SIZE + num_cells * self.cell_size;
                copy_right(&mut page.data, shift_start, shift_end, self.cell_size);
                let new_count = (num_cells + 1) as u16;
                write_u16(&mut page.data, 6, new_count);
                Ok(())
            },
            Err(e) => Err(e),
        }
    }

    /// Writes a key and a row into cell `cell_num` of a leaf page.
    pub fn write_cell(
        &self,
        pager: &mut Pager,
        page_num: usize,
        cell_num: usize,
        key: &Value,
        row: &Record,
        cols: &[&Field],
    ) -> (r: Result<(), Error>)
        requires
            self.wf(),
            old(pager).wf(),
            page_num < usize::MAX,
            HEADER_SIZE + cell_num * self.cell_size + self.key_size <= PAGE_SIZE,
            HEADER_SIZE + cell_num * self.cell_size + needed(key@, self.key_size as nat) <= PAGE_SIZE,
            record_writable(
                row@,
                ref_views(cols@),
                (PAGE_SIZE - (HEADER_SIZE + cell_num * self.cell_size + self.key_size)) as nat,
            ),
        ensures
            r is Ok,
            final(pager).wf(),
            final(pager).next() == old(pager).next(),
            final(pager).page(page_num as int) == cell_written(
                old(pager).page(page_num as int),
                HEADER_SIZE + cell_num * self.cell_size,
                key@,
                row@,
                self.key_size as nat,
                ref_views(cols@),
            ),
            forall|n: int| n != page_num ==> #[trigger] final(pager).page(n) == old(pager).page(n),
    {
        match pager.get_page(page_num) {
            Ok(page) => {
                proof {
                    assert(page.data@.len() == PAGE_SIZE);
                }
                let offset = HEADER_SIZE + cell_num * self.cell_size;
                key.serialize_at(&mut page.data, offset, self.key_size);
                row.serialize_at(cols, &mut page.data, offset + self.key_size);
                Ok(())
            },
            Err(e) => Err(e),
        }
    }
}


/// The keys of the cells of a leaf.
pub open spec fn cell_keys(cells: Seq<(ValueV, Seq<ValueV>)>) -> Seq<ValueV> {
    cells.map_values(|c: (ValueV, Seq<ValueV>)| c.0)
}

/// The keys of a stored leaf, read with the key column.
pub open spec fn stored_leaf_keys(page: Seq<u8>, key_col: FieldV, row_size: nat) -> Seq<ValueV> {
    Seq::new(stored_num_cells(page), |i: int| stored_leaf_key(page, i, key_col, row_size))
}

/// Keys in strictly increasing order.
pub open spec fn strictly_sorted(keys: Seq<ValueV>) -> bool {
    forall|i: int, j: int| 0 <= i < j < keys.len() ==> value_sign(#[trigger] keys[i], #[trigger] keys[j]) < 0
}

/// The cells after a binary search stopped at `i`: the cell there replaced
/// when the key was found, the new cell put there otherwise.
pub open spec fn placed(
    cells: Seq<(ValueV, Seq<ValueV>)>,
    i: int,
    found: bool,
    cell: (ValueV, Seq<ValueV>),
) -> Seq<(ValueV, Seq<ValueV>)> {
    if found {
        cells.update(i, cell)
    } else {
        cells.insert(i, cell)
    }
}

/// Binary search of `key` among the keys of `cells`.
fn search_cells(cells: &Vec<(Value, Record)>, key: &Value) -> (r: (usize, bool))
    requires
        forall|i: int| 0 <= i < cells@.len() ==> comparable(#[trigger] cells@[i].0@, key@),
    ensures
        search_result(cell_keys(crate::node::cell_views(cells@)), key@, r.0 as int, r.1),
{
    let ghost keys = cell_keys(crate::node::cell_views(cells@));
    let mut lo: usize = 0;
    let mut hi: usize = cells.len();
    while lo < hi
        invariant
            0 <= lo <= hi <= cells@.len(),
            keys == cell_keys(crate::node::cell_views(cells@)),
            keys.len() == cells@.len(),
            forall|i: int| 0 <= i < cells@.len() ==> comparable(#[trigger] cells@[i].0@, key@),
            lo > 0 ==> value_sign(keys[lo - 1], key@) < 0,
            hi < keys.len() ==> value_sign(keys[hi as int], key@) > 0,
        decreases hi - lo,
    {
        let mid = lo + (hi - lo) / 2;
        proof {
            assert(keys[mid as int] == cells@[mid as int].0@);
        }
        let sign = crate::value::value_order(&cells[mid].0, key);
        if sign < 0 {
            lo = mid + 1;
        } else if sign > 0 {
            hi = mid;
        } else {
            return (mid, true);
        }
    }
    (lo, false)
}

/// A page whose header and bytes differ from another's only in a range
/// `[lo, hi)` past the header keeps the leaf regions that lie outside it.
proof fn lemma_regions_outside(p0: Seq<u8>, p1: Seq<u8>, j: int, ks: nat, rs: nat, lo: int, hi: int)
    requires
        p0.len() == p1.len(),
        forall|p: int| 0 <= p < p0.len() && !(lo <= p < hi) ==> #[trigger] p1[p] == p0[p],
        0 <= j,
        leaf_cell_offset(j, ks as int, rs as int) + ks + rs <= p0.len(),
        leaf_cell_offset(j, ks as int, rs as int) + ks + rs <= lo || hi <= leaf_cell_offset(
            j,
            ks as int,
            rs as int,
        ),
    ensures
        leaf_region(p1, j, ks, rs) == leaf_region(p0, j, ks, rs),
{
    assert(leaf_region(p1, j, ks, rs) =~= leaf_region(p0, j, ks, rs));
}

/// What writing a cell does to a page: it changes only the cell's bytes,
/// which then hold the cell.
proof fn lemma_cell_written(
    page: Seq<u8>,
    i: int,
    key: ValueV,
    row: Seq<ValueV>,
    ks: nat,
    rs: nat,
    cols: Seq<FieldV>,
)
    requires
        page.len() == PAGE_SIZE,
        0 <= i,
        leaf_cell_offset(i, ks as int, rs as int) + ks + rs <= PAGE_SIZE,
        needed(key, ks) <= ks,
        fits_columns(row, cols),
        row_size_of(cols) <= rs,
    ensures
        ({
            let off = leaf_cell_offset(i, ks as int, rs as int);
            let p1 = cell_written(page, off, key, row, ks, cols);
            &&& p1.len() == page.len()
            &&& forall|p: int|
                0 <= p < page.len() && !(off <= p < off + ks + rs) ==> #[trigger] p1[p] == page[p]
            &&& cell_holds(leaf_region(p1, i, ks, rs), (key, row), ks, cols)
        }),
{
    let off = leaf_cell_offset(i, ks as int, rs as int);
    let e = encoded(key, ks);
    crate::value::lemma_encoded_len(key, ks);
    let w = splice(page, off, e);
    let a = off + ks;
    let rest = w.skip(a);
    let n = pairs(row, cols);
    assert(within_columns(row, cols, n)) by {
        assert forall|k: int| 0 <= k < n implies needed(#[trigger] row[k], byte_size_of(cols[k]) as nat)
            <= byte_size_of(cols[k]) by {
            assert(crate::record::fits_column(row[k], cols[k]));
        }
    }
    lemma_written_record_local(row, cols, rest, n, rs as int);
    let x = rest.take(rs as int);
    lemma_written_row_holds(row, cols, x);
    let p1 = cell_written(page, off, key, row, ks, cols);
    assert(p1 == w.take(a) + (written_record(row, cols, x, n) + rest.skip(rs as int)));
    assert forall|p: int| 0 <= p < page.len() && !(off <= p < off + ks + rs) implies #[trigger] p1[p]
        == page[p] by {
        if p >= a + rs {
            assert(p1[p] == rest.skip(rs as int)[p - a - rs]);
        }
    }
    let reg = leaf_region(p1, i, ks, rs);
    assert(reg.take(e.len() as int) =~= e);
    assert(reg.skip(ks as int) =~= written_record(row, cols, x, n));
}

/// What moving cells right does to a leaf page: the cells before `from`
/// and at `from` stay, those from `from` on also appear one place later,
/// and the count grows by one.
proof fn lemma_shifted(page: Seq<u8>, from: int, ks: nat, rs: nat)
    requires
        page.len() == PAGE_SIZE,
        0 <= from <= stored_num_cells(page),
        ks + rs > 0,
        HEADER_SIZE + (stored_num_cells(page) + 1) * (ks + rs) <= PAGE_SIZE,
    ensures
        ({
            let p1 = shifted(page, from, (ks + rs) as int);
            let num = stored_num_cells(page);
            &&& p1.len() == page.len()
            &&& stored_num_cells(p1) == num + 1
            &&& stored_is_leaf(p1) == stored_is_leaf(page)
            &&& stored_parent(p1) == stored_parent(page)
            &&& stored_pointer(p1) == stored_pointer(page)
            &&& forall|j: int| 0 <= j <= from ==> #[trigger] leaf_region(p1, j, ks, rs) == leaf_region(
                page,
                j,
                ks,
                rs,
            )
            &&& forall|j: int|
                from <= j < num ==> #[trigger] leaf_region(p1, j + 1, ks, rs) == leaf_region(
                    page,
                    j,
                    ks,
                    rs,
                )
        }),
{
    crate::codec::lemma_le_bytes();
    let cs = (ks + rs) as int;
    let num = stored_num_cells(page);
    crate::node::lemma_offset_le(from, num as int, cs);
    let start = HEADER_SIZE + from * cs;
    let end = HEADER_SIZE + num * cs;
    let q = splice(page, start + cs, page.subrange(start, end));
    let p1 = shifted(page, from, cs);
    assert(q.len() == page.len());
    assert(p1.len() == page.len());
    assert(p1.subrange(6, 8) =~= u16_bytes((num + 1) as u16));
    assert(num + 1 <= (num + 1) * cs) by (nonlinear_arith)
        requires
            cs >= 1,
            num >= 0,
    ;
    assert(stored_num_cells(p1) == num + 1);
    assert(p1[0] == page[0]);
    assert(p1.subrange(2, 6) =~= page.subrange(2, 6));
    assert(p1.subrange(8, 12) =~= page.subrange(8, 12));
    assert forall|j: int| 0 <= j <= from implies #[trigger] leaf_region(p1, j, ks, rs) == leaf_region(
        page,
        j,
        ks,
        rs,
    ) by {
        crate::node::lemma_offset_le(j, from, cs);
        assert(leaf_region(p1, j, ks, rs) =~= leaf_region(page, j, ks, rs));
    }
    assert forall|j: int| from <= j < num implies #[trigger] leaf_region(p1, j + 1, ks, rs)
        == leaf_region(page, j, ks, rs) by {
        crate::node::lemma_offset_le(from, j, cs);
        crate::node::lemma_offset_le(j + 1, num as int, cs);
        crate::node::lemma_offset_le(j, j, cs);
        assert(leaf_region(p1, j + 1, ks, rs) =~= leaf_region(page, j, ks, rs));
    }
}


impl BTree {
    /// Binary search of `key` among the keys of a leaf page. It stops on an
    /// equal key (`true`) or between a smaller and a greater one (`false`).
    pub fn cell_search(&self, pager: &mut Pager, page_num: usize, key: &Value, key_column: &Field) -> (r:
        Result<(usize, bool), Error>)
        requires
            old(pager).wf(),
            page_num < usize::MAX,
            stored_is_leaf(old(pager).page(page_num as int)) ==> leaf_keys_searchable(
                old(pager).page(page_num as int),
                key@,
                key_column@,
                self.row_size as nat,
            ),
        ensures
            final(pager).wf(),
            final(pager).next() == old(pager).next(),
            forall|n: int| #[trigger] final(pager).page(n) == old(pager).page(n),
            match r {
                Ok((i, found)) => stored_is_leaf(old(pager).page(page_num as int)) && search_result(
                    stored_leaf_keys(
                        old(pager).page(page_num as int),
                        key_column@,
                        self.row_size as nat,
                    ),
                    key@,
                    i as int,
                    found,
                ),
                Err(Error::WrongNodeType(_)) => !stored_is_leaf(old(pager).page(page_num as int)),
                Err(_) => false,
            },
    {
        let ghost p0 = pager.page(page_num as int);
        match pager.get_page(page_num) {
            Ok(_) => {},
            Err(e) => return Err(e),
        }
        let page = pager.page_at(page_num);
        proof {
            assert(page.data@.len() == PAGE_SIZE);
        }
        if !Node::read_is_leaf(&page.data) {
            return Err(Error::WrongNodeType("cell_search called on a non-leaf node".to_string()));
        }
        let ghost keys = stored_leaf_keys(p0, key_column@, self.row_size as nat);
        let num_cells = Node::read_num_cells(&page.data);
        let mut lo: usize = 0;
        let mut hi: usize = num_cells;
        while lo < hi
            invariant
                0 <= lo <= hi <= num_cells,
                pager.wf(),
                pager.next() == old(pager).next(),
                forall|n: int| #[trigger] pager.page(n) == old(pager).page(n),
                p0 == old(pager).page(page_num as int),
                num_cells == stored_num_cells(p0),
                page.data@ == p0,
                stored_is_leaf(p0),
                leaf_keys_searchable(p0, key@, key_column@, self.row_size as nat),
                keys == stored_leaf_keys(p0, key_column@, self.row_size as nat),
                lo > 0 ==> value_sign(keys[lo - 1], key@) < 0,
                hi < keys.len() ==> value_sign(keys[hi as int], key@) > 0,
            decreases hi - lo,
        {
            let mid = lo + (hi - lo) / 2;
            proof {
                assert(comparable(stored_leaf_key(p0, mid as int, key_column@, self.row_size as nat), key@));
            }
            let mid_key = match Node::read_key_at(&page.data, mid, key_column, self.row_size) {
                Ok(k) => k,
                Err(e) => return Err(e),
            };
            proof {
                assert(keys[mid as int] == mid_key@);
            }
            let sign = crate::value::value_order(&mid_key, key);
            if sign < 0 {
                lo = mid + 1;
            } else if sign > 0 {
                hi = mid;
            } else {
                return Ok((mid, true));
            }
        }
        Ok((lo, false))
    }

    /// Puts `key` and `row` into a leaf page at the place binary search finds:
    /// over the cell of an equal key, or as a new cell with the cells after it
    /// moved right.
    pub fn insert_into_leaf(
        &self,
        pager: &mut Pager,
        page_num: usize,
        key: &Value,
        row: &Record,
        cols: &[&Field],
    ) -> (r: Result<(), Error>)
        requires
            self.wf(),
            old(pager).wf(),
            page_num < usize::MAX,
            node_readable(
                old(pager).page(page_num as int),
                self.key_size as nat,
                self.row_size as nat,
                ref_views(cols@),
            ),
            self.node_at(old(pager), page_num as int, ref_views(cols@)) matches NodeV::Leaf {
                parent,
                cells,
                next_leaf,
            } ==> {
                &&& self.holds(
                    old(pager),
                    page_num as int,
                    NodeV::Leaf { parent, cells, next_leaf },
                    ref_views(cols@),
                )
                &&& forall|i: int| 0 <= i < cells.len() ==> comparable(#[trigger] cells[i].0, key@)
                &&& key_fits(key@, ref_views(cols@)[0], self.key_size as nat)
                &&& fits_columns(row@, ref_views(cols@))
                &&& (cells.len() < self.max_cells_per_leaf || (strictly_sorted(cell_keys(cells))
                    && exists|i: int| 0 <= i < cells.len() && value_sign(cells[i].0, key@) == 0))
            },
        ensures
            final(pager).wf(),
            final(pager).next() == old(pager).next(),
            forall|n: int| n != page_num ==> #[trigger] final(pager).page(n) == old(pager).page(n),
            match r {
                Ok(()) => match self.node_at(old(pager), page_num as int, ref_views(cols@)) {
                    NodeV::Leaf { parent, cells, next_leaf } => exists|i: int, found: bool|
                        search_result(cell_keys(cells), key@, i, found) && self.holds(
                            final(pager),
                            page_num as int,
                            NodeV::Leaf {
                                parent,
                                cells: placed(cells, i, found, (key@, row@)),
                                next_leaf,
                            },
                            ref_views(cols@),
                        ),
                    NodeV::Internal { .. } => false,
                },
                Err(Error::WrongNodeType(_)) => self.node_at(
                    old(pager),
                    page_num as int,
                    ref_views(cols@),
                ) is Internal && final(pager).page(page_num as int) == old(pager).page(
                    page_num as int,
                ),
                Err(_) => false,
            },
    {
        let ghost cols_v = ref_views(cols@);
        let ghost ks = self.key_size as nat;
        let ghost rs = self.row_size as nat;
        let ghost p0 = pager.page(page_num as int);
        let node = match self.read_node(pager, page_num, cols) {
            Ok(n) => n,
            Err(e) => return Err(e),
        };
        let cells = match &node {
            Node::Leaf { cells, .. } => cells,
            Node::Internal { .. } => {
                return Err(Error::WrongNodeType("insert_into_leaf called on non-leaf".to_string()));
            },
        };
        let ghost parent = node@.parent();
        let ghost next_leaf = node@->Leaf_next_leaf;
        let ghost cv = crate::node::cell_views(cells@);
        proof {
            assert(node@ == NodeV::Leaf { parent, cells: cv, next_leaf });
            assert forall|i: int| 0 <= i < cells@.len() implies comparable(#[trigger] cells@[i].0@, key@) by {
                assert(cv[i] == (cells@[i].0@, cells@[i].1@));
            }
        }
        let (cell_num, found) = search_cells(cells, key);
        let ghost new_cells = placed(cv, cell_num as int, found, (key@, row@));
        proof {
            assert(page_holds(p0, node@, ks, rs, cols_v));
            let keys = cell_keys(cv);
            if !found && cv.len() >= self.max_cells_per_leaf {
                let j = choose|j: int| 0 <= j < cv.len() && value_sign(cv[j].0, key@) == 0;
                assert forall|k: int| 0 <= k < keys.len() implies comparable(#[trigger] keys[k], key@) by {
                    assert(keys[k] == cv[k].0);
                }
                assert(keys[j] == cv[j].0);
                lemma_sorted_search_finds(keys, key@, cell_num as int, j);
            }
        }
        let ghost p1 = pager.page(page_num as int);
        if !found {
            proof {
                crate::node::lemma_offset_le(cell_num as int, cv.len() as int, self.cell_size as int);
                lemma_max_cells(cv.len(), self.cell_size as nat);
            }
            match self.shift_cells_right(pager, page_num, cell_num) {
                Ok(()) => {},
                Err(e) => return Err(e),
            }
        }
        let ghost p2 = pager.page(page_num as int);
        proof {
            if !found {
                lemma_max_cells(cv.len(), self.cell_size as nat);
                lemma_cell_in_page(cell_num as int, cv.len() as int + 1, self.cell_size as int);
            } else {
                lemma_cell_in_page(cell_num as int, cv.len() as int, self.cell_size as int);
            }
            crate::node::lemma_offset_le(cell_num as int, cv.len() as int, self.cell_size as int);
            crate::node::lemma_offset_le(cell_num as int, cv.len() as int + 1, self.cell_size as int);
            crate::value::lemma_encoded_len(key@, ks);
            assert(leaf_cell_offset(cell_num as int, ks as int, rs as int) == HEADER_SIZE + cell_num
                * self.cell_size);
            lemma_record_fits_writable(row@, cols_v, rs, (PAGE_SIZE - (HEADER_SIZE + cell_num
                * self.cell_size + self.key_size)) as nat);
        }
        match self.write_cell(pager, page_num, cell_num, key, row, cols) {
            Ok(()) => {},
            Err(e) => return Err(e),
        }
        proof {
            let p3 = pager.page(page_num as int);
            self.lemma_insert_holds(p0, p2, p3, parent, cv, next_leaf, cell_num as int, found, key@, row@, cols_v);
        }
        Ok(())
    }

    proof fn lemma_insert_holds(
        &self,
        p0: Seq<u8>,
        p2: Seq<u8>,
        p3: Seq<u8>,
        parent: Option<usize>,
        cells: Seq<(ValueV, Seq<ValueV>)>,
        next_leaf: Option<usize>,
        i: int,
        found: bool,
        key: ValueV,
        row: Seq<ValueV>,
        cols: Seq<FieldV>,
    )
        requires
            self.wf(),
            page_holds(p0, NodeV::Leaf { parent, cells, next_leaf }, self.key_size as nat, self.row_size as nat, cols),
            search_result(cell_keys(cells), key, i, found),
            found ==> p2 == p0,
            !found ==> p2 == shifted(p0, i, self.cell_size as int),
            !found ==> cells.len() < self.max_cells_per_leaf,
            p3 == cell_written(p2, leaf_cell_offset(i, self.key_size as int, self.row_size as int), key, row, self.key_size as nat, cols),
            key_fits(key, cols[0], self.key_size as nat),
            fits_columns(row, cols),
        ensures
            page_holds(p3, NodeV::Leaf { parent, cells: placed(cells, i, found, (key, row)), next_leaf }, self.key_size as nat, self.row_size as nat, cols),
    {
        let ks = self.key_size as nat;
        let rs = self.row_size as nat;
        let n = cells.len();
        let new_cells = placed(cells, i, found, (key, row));
        let node = NodeV::Leaf { parent, cells, next_leaf };
        if !found {
            lemma_max_cells(n, self.cell_size as nat);
        }
        assert(leaf_cells_hold(p0, cells, ks, rs, cols));
        assert(node_fits(node, ks, rs, cols, PAGE_SIZE as nat));
        let off = leaf_cell_offset(i, ks as int, rs as int);
        crate::node::lemma_offset_le(i, n as int + 1, self.cell_size as int);
        crate::node::lemma_offset_le(i, n as int, self.cell_size as int);
        if !found {
            lemma_shifted(p0, i, ks, rs);
            lemma_cell_in_page(i, n as int + 1, self.cell_size as int);
        } else {
            lemma_cell_in_page(i, n as int, self.cell_size as int);
        }
        assert(p2.len() == PAGE_SIZE);
        lemma_cell_written(p2, i, key, row, ks, rs, cols);
        let new_n = new_cells.len();
        assert(new_n == if found { n } else { n + 1 });
        crate::node::lemma_offset_le(new_n as int, new_n as int, self.cell_size as int);
        assert forall|k: int| 0 <= k < new_n implies #[trigger] cell_holds(
            leaf_region(p3, k, ks, rs),
            new_cells[k],
            ks,
            cols,
        ) by {
            if k != i {
                lemma_cell_in_page(k, new_n as int, self.cell_size as int);
                crate::node::lemma_offset_le(k, new_n as int, self.cell_size as int);
                crate::node::lemma_offset_le(k + 1, new_n as int, self.cell_size as int);
                if k < i {
                    crate::node::lemma_offset_le(k, k, self.cell_size as int);
                    crate::node::lemma_offset_le(k + 1, i, self.cell_size as int);
                } else {
                    crate::node::lemma_offset_le(i, i, self.cell_size as int);
                    crate::node::lemma_offset_le(i + 1, k, self.cell_size as int);
                }
                lemma_regions_outside(p2, p3, k, ks, rs, off, off + ks + rs);
                if found || k < i {
                    assert(leaf_region(p2, k, ks, rs) == leaf_region(p0, k, ks, rs));
                    assert(cell_holds(leaf_region(p0, k, ks, rs), cells[k], ks, cols));
                } else {
                    assert(leaf_region(p2, (k - 1) + 1, ks, rs) == leaf_region(p0, k - 1, ks, rs));
                    assert(cell_holds(leaf_region(p0, k - 1, ks, rs), cells[k - 1], ks, cols));
                }
            }
        }
        assert(cells_fit(new_cells, cols, ks)) by {
            assert forall|k: int| 0 <= k < new_n implies #[trigger] cell_fits(new_cells, cols, ks, k) by {
                if k != i {
                    if found || k < i {
                        assert(cell_fits(cells, cols, ks, k));
                    } else {
                        assert(cell_fits(cells, cols, ks, k - 1));
                    }
                }
            }
        }
        assert(p3.len() == PAGE_SIZE);
        assert(stored_is_leaf(p3) && stored_parent(p3) == parent && stored_num_cells(p3) == new_n
            && page_of(stored_pointer(p3)) == next_leaf) by {
            assert(p3.subrange(0, 12) =~= p2.subrange(0, 12));
            assert(p3[0] == p2[0]);
            assert(p3.subrange(2, 6) =~= p2.subrange(2, 6));
            assert(p3.subrange(6, 8) =~= p2.subrange(6, 8));
            assert(p3.subrange(8, 12) =~= p2.subrange(8, 12));
        }
        lemma_leaf_from_regions(p3, parent, new_cells, next_leaf, ks, rs, cols);
    }
}

/// A cell put where the search for its key stopped keeps the keys in
/// strictly increasing order.
pub proof fn lemma_placed_sorted(
    cells: Seq<(ValueV, Seq<ValueV>)>,
    i: int,
    found: bool,
    cell: (ValueV, Seq<ValueV>),
)
    requires
        strictly_sorted(cell_keys(cells)),
        forall|k: int| 0 <= k < cells.len() ==> comparable(#[trigger] cells[k].0, cell.0),
        search_result(cell_keys(cells), cell.0, i, found),
    ensures
        strictly_sorted(cell_keys(placed(cells, i, found, cell))),
{
    let keys = cell_keys(cells);
    let out = cell_keys(placed(cells, i, found, cell));
    let key = cell.0;
    if found {
        assert(out =~= keys.update(i, key));
        assert(comparable(keys[i], key));
        assert forall|p: int, q: int| 0 <= p < q < out.len() implies value_sign(#[trigger] out[p], #[trigger] out[q])
            < 0 by {
            assert(value_sign(keys[p], keys[q]) < 0);
            if p == i {
                crate::value::lemma_sign_same(keys[i], key, keys[q]);
            } else if q == i {
                crate::value::lemma_sign_same(keys[i], key, keys[p]);
            }
        }
    } else {
        assert(out =~= keys.insert(i, key));
        assert forall|p: int, q: int| 0 <= p < q < out.len() implies value_sign(#[trigger] out[p], #[trigger] out[q])
            < 0 by {
            if p == i {
                assert(out[q] == keys[q - 1]);
                assert(comparable(keys[i], key));
                crate::value::lemma_sign_flip(keys[i], key);
                if q - 1 > i {
                    assert(value_sign(keys[i], keys[q - 1]) < 0);
                    crate::value::lemma_sign_transitive(key, keys[i], keys[q - 1]);
                }
            } else if q == i {
                assert(out[p] == keys[p]);
                if p < i - 1 {
                    assert(value_sign(keys[p], keys[i - 1]) < 0);
                    crate::value::lemma_sign_transitive(keys[p], keys[i - 1], key);
                }
            } else if p < i && q > i {
                assert(out[p] == keys[p]);
                assert(out[q] == keys[q - 1]);
                if p < q - 1 {
                    assert(value_sign(keys[p], keys[q - 1]) < 0);
                }
            } else if p > i {
                assert(out[p] == keys[p - 1]);
                assert(out[q] == keys[q - 1]);
                assert(value_sign(keys[p - 1], keys[q - 1]) < 0);
            } else {
                assert(out[p] == keys[p]);
                assert(out[q] == keys[q]);
                assert(value_sign(keys[p], keys[q]) < 0);
            }
        }
    }
}

/// What a read gives back of a write: after a key and its row are put
/// where the search for the key stopped in the sorted cells of a leaf, a
/// new search for that key finds it, at that place, with that row.
pub proof fn lemma_placed_found(
    cells: Seq<(ValueV, Seq<ValueV>)>,
    key: ValueV,
    row: Seq<ValueV>,
    i: int,
    found: bool,
    j: int,
    found_again: bool,
)
    requires
        strictly_sorted(cell_keys(cells)),
        forall|k: int| 0 <= k < cells.len() ==> comparable(#[trigger] cells[k].0, key),
        search_result(cell_keys(cells), key, i, found),
        search_result(cell_keys(placed(cells, i, found, (key, row))), key, j, found_again),
    ensures
        found_again,
        j == i,
        placed(cells, i, found, (key, row))[j] == (key, row),
{
    let out = placed(cells, i, found, (key, row));
    let keys = cell_keys(out);
    lemma_placed_sorted(cells, i, found, (key, row));
    assert(keys[i] == key);
    crate::value::lemma_sign_refl(key);
    assert forall|k: int| 0 <= k < keys.len() implies comparable(#[trigger] keys[k], key) by {
        if found {
            if k != i {
                assert(keys[k] == cells[k].0);
            }
        } else {
            if k < i {
                assert(keys[k] == cells[k].0);
            } else if k > i {
                assert(keys[k] == cells[k - 1].0);
            }
        }
    }
    if !found_again {
        lemma_sorted_search_finds(keys, key, j, i);
    }
    if j < i {
        assert(value_sign(keys[j], keys[i]) < 0);
    } else if j > i {
        assert(value_sign(keys[i], keys[j]) < 0);
        crate::value::lemma_sign_same(keys[j], key, keys[j]);
        crate::value::lemma_sign_refl(keys[j]);
    }
}

/// What a read gives after a delete: once the cell found for a key is taken
/// out of the sorted cells of a leaf, a new search for that key finds none.
pub proof fn lemma_removed_not_found(
    cells: Seq<(ValueV, Seq<ValueV>)>,
    key: ValueV,
    i: int,
    j: int,
    found_again: bool,
)
    requires
        strictly_sorted(cell_keys(cells)),
        forall|k: int| 0 <= k < cells.len() ==> comparable(#[trigger] cells[k].0, key),
        search_result(cell_keys(cells), key, i, true),
        search_result(cell_keys(cells.remove(i)), key, j, found_again),
    ensures
        !found_again,
{
    let keys = cell_keys(cells);
    let out = cell_keys(cells.remove(i));
    assert(out =~= keys.remove(i));
    if found_again {
        let k = if j < i {
            j
        } else {
            j + 1
        };
        assert(out[j] == keys[k]);
        assert(comparable(keys[i], key));
        assert(comparable(keys[k], key));
        crate::value::lemma_sign_same(keys[i], key, keys[k]);
        if k < i {
            assert(value_sign(keys[k], keys[i]) < 0);
        } else {
            assert(value_sign(keys[i], keys[k]) < 0);
            crate::value::lemma_sign_flip(keys[k], key);
        }
    }
}

/// In strictly increasing keys, a search that stops between a smaller and a
/// greater key means no key equals the searched one.
pub(crate) proof fn lemma_sorted_search_finds(keys: Seq<ValueV>, key: ValueV, i: int, j: int)
    requires
        strictly_sorted(keys),
        forall|k: int| 0 <= k < keys.len() ==> comparable(#[trigger] keys[k], key),
        search_result(keys, key, i, false),
        0 <= j < keys.len(),
    ensures
        value_sign(keys[j], key) != 0,
{
    if value_sign(keys[j], key) == 0 {
        if j < i {
            if j < i - 1 {
                assert(value_sign(keys[j], keys[i - 1]) < 0);
                crate::value::lemma_sign_transitive(keys[j], keys[i - 1], key);
            }
        } else {
            if j > i {
                assert(value_sign(keys[i], keys[j]) < 0);
                crate::value::lemma_sign_transitive_gt(keys[i], keys[j], key);
            }
        }
    }
}

/// Cell `i` of `n` lies within the first `n` cells.
proof fn lemma_cell_in_page(i: int, n: int, cs: int)
    requires
        0 <= i < n,
        0 <= cs,
    ensures
        HEADER_SIZE + i * cs + cs <= HEADER_SIZE + n * cs,
        i * cs >= 0,
{
    crate::node::lemma_offset_le(i + 1, n, cs);
    crate::node::lemma_offset_le(i, i, cs);
}

pub(crate) proof fn lemma_max_cells(n: nat, cs: nat)
    requires
        cs > 0,
        n < max_cells(cs),
    ensures
        HEADER_SIZE + (n + 1) * cs <= PAGE_SIZE,
        n + 1 <= 0xffff,
{
    let m = max_cells(cs);
    assert(m * cs <= PAGE_SIZE - HEADER_SIZE) by (nonlinear_arith)
        requires
            cs > 0,
            m == ((PAGE_SIZE - HEADER_SIZE) as nat / cs) as nat,
    ;
    assert((n + 1) * cs <= m * cs) by (nonlinear_arith)
        requires
            n + 1 <= m,
            cs > 0,
    ;
    assert(m <= PAGE_SIZE) by (nonlinear_arith)
        requires
            cs > 0,
            m == ((PAGE_SIZE - HEADER_SIZE) as nat / cs) as nat,
    ;
}

/// A row that fits its columns can be written where at least `row_size` bytes remain.
proof fn lemma_record_fits_writable(row: Seq<ValueV>, cols: Seq<FieldV>, rs: nat, len: nat)
    requires
        fits_columns(row, cols),
        row_size_of(cols) <= rs,
        rs <= len,
    ensures
        record_writable(row, cols, len),
{
    assert forall|k: int| 0 <= k < pairs(row, cols) implies crate::record::column_offset(cols, k)
        + needed(#[trigger] row[k], byte_size_of(cols[k]) as nat) <= len by {
        crate::record::lemma_column_end(cols, k);
        assert(crate::record::fits_column(row[k], cols[k]));
    }
}


// ---------------------------------------------------------------------------
// Every page holds a node.
/// A page holds the node it reads as.
pub open spec fn page_ok(page: Seq<u8>, ks: nat, rs: nat, cols: Seq<FieldV>) -> bool {
    page_holds(page, decoded_node(page, ks, rs, cols), ks, rs, cols)
}

/// The columns suit the tree: there is a key column and the row fits in `row_size`.
pub open spec fn cols_ok(cols: Seq<FieldV>, rs: nat) -> bool {
    cols.len() >= 1 && row_size_of(cols) <= rs
}

impl NodeV {
    pub open spec fn with_parent(self, p: Option<usize>) -> NodeV {
        match self {
            NodeV::Internal { keys, children, .. } => NodeV::Internal { parent: p, keys, children },
            NodeV::Leaf { cells, next_leaf, .. } => NodeV::Leaf { parent: p, cells, next_leaf },
        }
    }
}

impl BTree {
    /// Every page of the pager holds the node it reads as.
    pub open spec fn pages_ok(&self, pager: &Pager, cols: Seq<FieldV>) -> bool {
        forall|n: int| #[trigger] page_ok(pager.page(n), self.key_size as nat, self.row_size as nat, cols)
    }
}

/// A page of zeros holds an internal node with no key and one child.
pub proof fn lemma_zero_page_ok(ks: nat, rs: nat, cols: Seq<FieldV>)
    requires
        cols_ok(cols, rs),
    ensures
        page_ok(crate::pager::zero_page(), ks, rs, cols),
{
    let z = crate::pager::zero_page();
    let node = decoded_node(z, ks, rs, cols);
    assert(stored_num_cells(z) == 0);
    assert(!stored_is_leaf(z));
    assert(node->Internal_keys =~= Seq::<ValueV>::empty());
    assert(node->Internal_children.len() == 1);
    assert(node_fits(node, ks, rs, cols, PAGE_SIZE as nat));
}

/// A pager with no page holds a node in each page.
pub proof fn lemma_memory_pages_ok(tree: &BTree, pager: &Pager, cols: Seq<FieldV>)
    requires
        cols_ok(cols, tree.row_size as nat),
        forall|n: int| #[trigger] pager.page(n) == crate::pager::zero_page(),
    ensures
        tree.pages_ok(pager, cols),
{
    lemma_zero_page_ok(tree.key_size as nat, tree.row_size as nat, cols);
    assert forall|n: int| #[trigger] page_ok(pager.page(n), tree.key_size as nat, tree.row_size as nat, cols) by {
        assert(pager.page(n) == crate::pager::zero_page());
    }
}

/// Binary search of `key` in `keys`.
pub(crate) fn search_keys(keys: &Vec<Value>, key: &Value) -> (r: (usize, bool))
    requires
        forall|i: int| 0 <= i < keys@.len() ==> comparable(#[trigger] keys@[i]@, key@),
    ensures
        search_result(crate::node::key_views(keys@), key@, r.0 as int, r.1),
{
    let ghost kv = crate::node::key_views(keys@);
    let mut lo: usize = 0;
    let mut hi: usize = keys.len();
    while lo < hi
        invariant
            0 <= lo <= hi <= keys@.len(),
            kv == crate::node::key_views(keys@),
            kv.len() == keys@.len(),
            forall|i: int| 0 <= i < keys@.len() ==> comparable(#[trigger] keys@[i]@, key@),
            lo > 0 ==> value_sign(kv[lo - 1], key@) < 0,
            hi < kv.len() ==> value_sign(kv[hi as int], key@) > 0,
        decreases hi - lo,
    {
        let mid = lo + (hi - lo) / 2;
        proof {
            assert(kv[mid as int] == keys@[mid as int]@);
        }
        let sign = crate::value::value_order(&keys[mid], key);
        if sign < 0 {
            lo = mid + 1;
        } else if sign > 0 {
            hi = mid;
        } else {
            return (mid, true);
        }
    }
    (lo, false)
}

/// Where a separator key goes among the keys of an internal node: after an
/// equal key, or between a smaller and a greater one.
pub open spec fn separator_place(keys: Seq<ValueV>, key: ValueV, idx: int) -> bool {
    exists|i: int, found: bool|
        search_result(keys, key, i, found) && idx == if found {
            i + 1
        } else {
            i
        }
}

impl BTree {
    /// Sets the parent of the node on page `page_num`.
    pub(crate) fn set_parent(&self, pager: &mut Pager, page_num: usize, parent_page: usize, cols: &[&Field]) -> (r:
        Result<(), Error>)
        requires
            self.wf(),
            old(pager).wf(),
            page_num < usize::MAX,
            parent_page < 0xffff_ffff,
            page_ok(old(pager).page(page_num as int), self.key_size as nat, self.row_size as nat, ref_views(cols@)),
        ensures
            r is Ok,
            final(pager).wf(),
            final(pager).next() == old(pager).next(),
            self.holds(
                final(pager),
                page_num as int,
                self.node_at(old(pager), page_num as int, ref_views(cols@)).with_parent(Some(parent_page)),
                ref_views(cols@),
            ),
            forall|n: int| n != page_num ==> #[trigger] final(pager).page(n) == old(pager).page(n),
    {
        let ghost cv = ref_views(cols@);
        let ghost old_node = self.node_at(pager, page_num as int, cv);
        let node = match self.read_node(pager, page_num, cols) {
            Ok(n) => n,
            Err(e) => return Err(e),
        };
        let node = match node {
            Node::Internal { keys, children, .. } => Node::Internal {
                parent: Some(parent_page),
                keys,
                children,
            },
            Node::Leaf { cells, next_leaf, .. } => Node::Leaf {
                parent: Some(parent_page),
                cells,
                next_leaf,
            },
        };
        proof {
            assert(node@ == old_node.with_parent(Some(parent_page)));
            assert(node_fits(node@, self.key_size as nat, self.row_size as nat, cv, PAGE_SIZE as nat));
            crate::node::lemma_fits_writable(node@, self.key_size as nat, self.row_size as nat, cv, PAGE_SIZE as nat);
        }
        let ghost p0 = pager.page(page_num as int);
        proof {
            pager.lemma_page_len(page_num as int);
        }
        let r = self.write_node(pager, page_num, &node, cols);
        proof {
            crate::node::lemma_written_holds(node@, p0, self.key_size as nat, self.row_size as nat, cv);
        }
        r
    }
}


pub(crate) proof fn lemma_max_keys(n: nat, ks: nat)
    requires
        n < max_keys(ks),
    ensures
        crate::node::internal_cell_offset((n + 1) as int, ks as int) <= PAGE_SIZE,
        n + 1 <= 0xffff,
{
    let m = max_keys(ks);
    let c = (4 + ks) as nat;
    assert(m * c <= PAGE_SIZE - HEADER_SIZE) by (nonlinear_arith)
        requires
            c > 0,
            m == ((PAGE_SIZE - HEADER_SIZE) as nat / c) as nat,
    ;
    assert((n + 1) * c <= m * c) by (nonlinear_arith)
        requires
            n + 1 <= m,
            c > 0,
    ;
    assert(m <= PAGE_SIZE) by (nonlinear_arith)
        requires
            c > 0,
            m == ((PAGE_SIZE - HEADER_SIZE) as nat / c) as nat,
    ;
}

/// The node written over a page, when it fits, is what the page then holds,
/// and every page still holds a node.
pub(crate) proof fn lemma_write_keeps_ok(
    tree: &BTree,
    before: &Pager,
    after: &Pager,
    n: int,
    node: NodeV,
    cols: Seq<FieldV>,
)
    requires
        tree.pages_ok(before, cols),
        node_fits(node, tree.key_size as nat, tree.row_size as nat, cols, PAGE_SIZE as nat),
        after.page(n) == node_written(node, before.page(n), tree.key_size as nat, tree.row_size as nat, cols),
        forall|m: int| m != n ==> #[trigger] after.page(m) == before.page(m),
    ensures
        tree.holds(after, n, node, cols),
        tree.pages_ok(after, cols),
{
    before.lemma_page_len(n);
    crate::node::lemma_written_holds(node, before.page(n), tree.key_size as nat, tree.row_size as nat, cols);
    assert forall|m: int| #[trigger] page_ok(after.page(m), tree.key_size as nat, tree.row_size as nat, cols) by {
        if m != n {
            assert(page_ok(before.page(m), tree.key_size as nat, tree.row_size as nat, cols));
        }
    }
}

/// A page that holds a node holds the node it reads as.
pub(crate) proof fn lemma_holds_ok(tree: &BTree, before: &Pager, after: &Pager, n: int, node: NodeV, cols: Seq<FieldV>)
    requires
        tree.pages_ok(before, cols),
        tree.holds(after, n, node, cols),
        forall|m: int| m != n ==> #[trigger] after.page(m) == before.page(m),
    ensures
        tree.pages_ok(after, cols),
{
    assert forall|m: int| #[trigger] page_ok(after.page(m), tree.key_size as nat, tree.row_size as nat, cols) by {
        if m != n {
            assert(page_ok(before.page(m), tree.key_size as nat, tree.row_size as nat, cols));
        }
    }
}

impl BTree {
    /// Puts a separator key and the child to its right into an internal page.
    pub fn insert_into_internal(
        &self,
        pager: &mut Pager,
        page_num: usize,
        split_key: &Value,
        new_child: usize,
        cols: &[&Field],
    ) -> (r: Result<(), Error>)
        requires
            self.wf(),
            old(pager).wf(),
            page_num < usize::MAX,
            page_ok(old(pager).page(page_num as int), self.key_size as nat, self.row_size as nat, ref_views(cols@)),
            self.node_at(old(pager), page_num as int, ref_views(cols@)) matches NodeV::Internal {
                keys,
                ..
            } ==> {
                &&& forall|i: int| 0 <= i < keys.len() ==> comparable(#[trigger] keys[i], split_key@)
                &&& key_fits(split_key@, ref_views(cols@)[0], self.key_size as nat)
                &&& new_child < null_page()
                &&& keys.len() < self.max_keys_per_internal
            },
        ensures
            final(pager).wf(),
            final(pager).next() == old(pager).next(),
            forall|n: int| n != page_num ==> #[trigger] final(pager).page(n) == old(pager).page(n),
            match r {
                Ok(()) => match self.node_at(old(pager), page_num as int, ref_views(cols@)) {
                    NodeV::Internal { parent, keys, children } => exists|idx: int|
                        separator_place(keys, split_key@, idx) && self.holds(
                            final(pager),
                            page_num as int,
                            NodeV::Internal {
                                parent,
                                keys: keys.insert(idx, split_key@),
                                children: children.insert(idx + 1, new_child),
                            },
                            ref_views(cols@),
                        ),
                    NodeV::Leaf { .. } => false,
                },
                Err(Error::WrongNodeType(_)) => self.node_at(
                    old(pager),
                    page_num as int,
                    ref_views(cols@),
                ) is Leaf && final(pager).page(page_num as int) == old(pager).page(page_num as int),
                Err(_) => false,
            },
    {
        let ghost cv = ref_views(cols@);
        let ghost ks = self.key_size as nat;
        let ghost rs = self.row_size as nat;
        let ghost p0 = pager.page(page_num as int);
        let node = match self.read_node(pager, page_num, cols) {
            Ok(n) => n,
            Err(e) => return Err(e),
        };
        let (parent, mut keys, mut children) = match node {
            Node::Internal { parent, keys, children } => (parent, keys, children),
            Node::Leaf { .. } => {
                return Err(Error::WrongNodeType("insert_into_internal called on non-internal".to_string()));
            },
        };
        let ghost kv = crate::node::key_views(keys@);
        let ghost ch = children@;
        proof {
            assert(page_holds(p0, NodeV::Internal { parent, keys: kv, children: ch }, ks, rs, cv));
            assert forall|i: int| 0 <= i < keys@.len() implies comparable(#[trigger] keys@[i]@, split_key@) by {
                assert(kv[i] == keys@[i]@);
            }
        }
        let (i, found) = search_keys(&keys, split_key);
        let idx = if found {
            i + 1
        } else {
            i
        };
        keys.insert(idx, split_key.copy());
        children.insert(idx + 1, new_child);
        let new_node = Node::Internal { parent, keys, children };
        let ghost nn = NodeV::Internal {
            parent,
            keys: kv.insert(idx as int, split_key@),
            children: ch.insert(idx + 1, new_child),
        };
        proof {
            assert(crate::node::key_views(new_node->Internal_keys@) =~= kv.insert(idx as int, split_key@));
            assert(new_node@ == nn);
            lemma_max_keys(kv.len(), ks);
            assert(crate::node::keys_fit(kv, cv[0], ks));
            assert(crate::node::keys_fit(kv.insert(idx as int, split_key@), cv[0], ks)) by {
                assert forall|k: int| 0 <= k < kv.len() + 1 implies key_fits(
                    #[trigger] kv.insert(idx as int, split_key@)[k],
                    cv[0],
                    ks,
                ) by {
                    if k < idx {
                        assert(key_fits(kv[k], cv[0], ks));
                    } else if k > idx {
                        assert(key_fits(kv[k - 1], cv[0], ks));
                    }
                }
            }
            assert forall|k: int| 0 <= k < ch.len() + 1 implies #[trigger] ch.insert(idx + 1, new_child)[k]
                < null_page() by {
                if k < idx + 1 {
                    assert(ch[k] < null_page());
                } else if k > idx + 1 {
                    assert(ch[k - 1] < null_page());
                }
            }
            assert(node_fits(nn, ks, rs, cv, PAGE_SIZE as nat));
            crate::node::lemma_fits_writable(nn, ks, rs, cv, PAGE_SIZE as nat);
            assert(separator_place(kv, split_key@, idx as int));
        }
        let r = self.write_node(pager, page_num, &new_node, cols);
        proof {
            crate::node::lemma_written_holds(nn, p0, ks, rs, cv);
        }
        r
    }

    /// Moves the upper half of a full leaf to a new page and links the two.
    /// Gives the first key of the new page and its number.
    pub fn split_leaf(&self, pager: &mut Pager, page_num: usize, cols: &[&Field]) -> (r: Result<
        (Value, usize),
        Error,
    >)
        requires
            self.wf(),
            old(pager).wf(),
            page_num < usize::MAX,
            old(pager).next() < 0xffff_ffff,
            page_num != old(pager).next(),
            page_ok(old(pager).page(page_num as int), self.key_size as nat, self.row_size as nat, ref_views(cols@)),
            self.node_at(old(pager), page_num as int, ref_views(cols@)) matches NodeV::Leaf { cells, .. }
                ==> cells.len() >= 1,
        ensures
            final(pager).wf(),
            match r {
                Ok((split_key, new_page)) => match self.node_at(old(pager), page_num as int, ref_views(cols@)) {
                    NodeV::Leaf { parent, cells, next_leaf } => {
                        let mid = cells.len() / 2;
                        &&& new_page == old(pager).next()
                        &&& final(pager).next() == old(pager).next() + 1
                        &&& split_key@ == cells[mid as int].0
                        &&& self.holds(
                            final(pager),
                            page_num as int,
                            NodeV::Leaf { parent, cells: cells.take(mid as int), next_leaf: Some(new_page) },
                            ref_views(cols@),
                        )
                        &&& self.holds(
                            final(pager),
                            new_page as int,
                            NodeV::Leaf { parent, cells: cells.skip(mid as int), next_leaf },
                            ref_views(cols@),
                        )
                        &&& forall|n: int|
                            n != page_num && n != new_page ==> #[trigger] final(pager).page(n) == old(
                                pager,
                            ).page(n)
                    },
                    NodeV::Internal { .. } => false,
                },
                Err(Error::WrongNodeType(_)) => self.node_at(
                    old(pager),
                    page_num as int,
                    ref_views(cols@),
                ) is Internal && final(pager).next() == old(pager).next() && forall|n: int|
                    #[trigger] final(pager).page(n) == old(pager).page(n),
                Err(_) => false,
            },
    {
        let ghost cv = ref_views(cols@);
        let ghost ks = self.key_size as nat;
        let ghost rs = self.row_size as nat;
        let ghost p0 = pager.page(page_num as int);
        let node = match self.read_node(pager, page_num, cols) {
            Ok(n) => n,
            Err(e) => return Err(e),
        };
        let (parent, mut cells, next_leaf) = match node {
            Node::Leaf { parent, cells, next_leaf } => (parent, cells, next_leaf),
            Node::Internal { .. } => {
                return Err(Error::WrongNodeType("split_leaf called on non-leaf".to_string()));
            },
        };
        let ghost cw = crate::node::cell_views(cells@);
        proof {
            assert(page_holds(p0, NodeV::Leaf { parent, cells: cw, next_leaf }, ks, rs, cv));
        }
        let mid = cells.len() / 2;
        let right_cells = cells.split_off(mid);
        let split_key = right_cells[0].0.copy();
        let new_page = pager.alloc_page();
        let left = Node::Leaf { parent, cells, next_leaf: Some(new_page) };
        let right = Node::Leaf { parent, cells: right_cells, next_leaf };
        let ghost lv = NodeV::Leaf { parent, cells: cw.take(mid as int), next_leaf: Some(new_page) };
        let ghost rv = NodeV::Leaf { parent, cells: cw.skip(mid as int), next_leaf };
        proof {
            assert(left@ =~= lv) by {
                assert(crate::node::cell_views(left->Leaf_cells@) =~= cw.take(mid as int));
            }
            assert(right@ =~= rv) by {
                assert(crate::node::cell_views(right->Leaf_cells@) =~= cw.skip(mid as int));
            }
            assert(split_key@ == cw[mid as int].0);
            assert(crate::node::cells_fit(cw, cv, ks));
            assert(node_fits(lv, ks, rs, cv, PAGE_SIZE as nat)) by {
                crate::node::lemma_offset_le(mid as int, cw.len() as int, self.cell_size as int);
                assert forall|k: int| 0 <= k < mid implies #[trigger] cell_fits(cw.take(mid as int), cv, ks, k) by {
                    assert(cell_fits(cw, cv, ks, k));
                }
            }
            assert(node_fits(rv, ks, rs, cv, PAGE_SIZE as nat)) by {
                crate::node::lemma_offset_le((cw.len() - mid) as int, cw.len() as int, self.cell_size as int);
                assert forall|k: int| 0 <= k < cw.len() - mid implies #[trigger] cell_fits(cw.skip(mid as int), cv, ks, k) by {
                    assert(cell_fits(cw, cv, ks, k + mid));
                }
            }
            crate::node::lemma_fits_writable(lv, ks, rs, cv, PAGE_SIZE as nat);
            crate::node::lemma_fits_writable(rv, ks, rs, cv, PAGE_SIZE as nat);
        }
        let ghost q0 = pager.page(page_num as int);
        match self.write_node(pager, page_num, &left, cols) {
            Ok(()) => {},
            Err(e) => return Err(e),
        }
        let ghost q1 = pager.page(new_page as int);
        proof {
            pager.lemma_page_len(new_page as int);
        }
        match self.write_node(pager, new_page, &right, cols) {
            Ok(()) => {},
            Err(e) => return Err(e),
        }
        proof {
            crate::node::lemma_written_holds(lv, q0, ks, rs, cv);
            crate::node::lemma_written_holds(rv, q1, ks, rs, cv);
        }
        Ok((split_key, new_page))
    }
}


/// The page numbers of `pages` up to `i` contain `c`.
pub open spec fn among(pages: Seq<usize>, i: int, c: int) -> bool {
    exists|k: int| 0 <= k < i && pages[k] as int == c
}

impl BTree {
    /// Sets the parent of each page of `pages` to `parent_page`: each holds
    /// the node it held with that parent; the other pages are unchanged.
    fn set_parents(&self, pager: &mut Pager, pages: &Vec<usize>, parent_page: usize, cols: &[&Field]) -> (r:
        Result<(), Error>)
        requires
            self.wf(),
            old(pager).wf(),
            self.pages_ok(old(pager), ref_views(cols@)),
            parent_page < 0xffff_ffff,
            forall|k: int| 0 <= k < pages@.len() ==> #[trigger] pages@[k] < usize::MAX,
        ensures
            r is Ok,
            final(pager).wf(),
            final(pager).next() == old(pager).next(),
            self.pages_ok(final(pager), ref_views(cols@)),
            forall|c: int|
                among(pages@, pages@.len() as int, c) ==> self.holds(
                    final(pager),
                    c,
                    #[trigger] self.node_at(old(pager), c, ref_views(cols@)).with_parent(Some(parent_page)),
                    ref_views(cols@),
                ),
            forall|c: int|
                !among(pages@, pages@.len() as int, c) ==> #[trigger] final(pager).page(c) == old(
                    pager,
                ).page(c),
    {
        let ghost cv = ref_views(cols@);
        let ghost start = *pager;
        let mut i: usize = 0;
        while i < pages.len()
            invariant
                0 <= i <= pages@.len(),
                self.wf(),
                pager.wf(),
                pager.next() == start.next(),
                start == *old(pager),
                cv == ref_views(cols@),
                parent_page < 0xffff_ffff,
                forall|k: int| 0 <= k < pages@.len() ==> #[trigger] pages@[k] < usize::MAX,
                self.pages_ok(pager, cv),
                forall|c: int|
                    among(pages@, i as int, c) ==> self.holds(
                        pager,
                        c,
                        #[trigger] self.node_at(&start, c, cv).with_parent(Some(parent_page)),
                        cv,
                    ),
                forall|c: int| !among(pages@, i as int, c) ==> #[trigger] pager.page(c) == start.page(c),
            decreases pages@.len() - i,
        {
            let c = pages[i];
            let ghost before = *pager;
            proof {
                assert(page_ok(pager.page(c as int), self.key_size as nat, self.row_size as nat, cv));
            }
            match self.set_parent(pager, c, parent_page, cols) {
                Ok(()) => {},
                Err(e) => return Err(e),
            }
            proof {
                let target = self.node_at(&start, c as int, cv).with_parent(Some(parent_page));
                if among(pages@, i as int, c as int) {
                    assert(self.holds(&before, c as int, target, cv));
                    assert(self.node_at(&before, c as int, cv) == target);
                } else {
                    assert(before.page(c as int) == start.page(c as int));
                }
                assert(self.holds(pager, c as int, target, cv));
                lemma_holds_ok(self, &before, pager, c as int, target, cv);
                assert forall|d: int| among(pages@, i + 1, d) implies self.holds(
                    pager,
                    d,
                    #[trigger] self.node_at(&start, d, cv).with_parent(Some(parent_page)),
                    cv,
                ) by {
                    if d != c {
                        let k = choose|k: int| 0 <= k < i + 1 && pages@[k] as int == d;
                        assert(among(pages@, i as int, d));
                    }
                }
                assert forall|d: int| !among(pages@, i + 1, d) implies #[trigger] pager.page(d)
                    == start.page(d) by {
                    assert(pages@[i as int] as int == c);
                    if among(pages@, i as int, d) {
                        let k = choose|k: int| 0 <= k < i && pages@[k] as int == d;
                        assert(among(pages@, i + 1, d));
                    }
                }
            }
            i = i + 1;
        }
        Ok(())
    }
}


/// The left half of an internal node split at `mid`: the keys before `mid`.
pub open spec fn left_half(parent: Option<usize>, keys: Seq<ValueV>, children: Seq<usize>, mid: int) -> NodeV {
    NodeV::Internal { parent, keys: keys.take(mid), children: children.take(mid + 1) }
}

/// The right half of an internal node split at `mid`: the keys after `mid`.
pub open spec fn right_half(parent: Option<usize>, keys: Seq<ValueV>, children: Seq<usize>, mid: int) -> NodeV {
    NodeV::Internal { parent, keys: keys.skip(mid + 1), children: children.skip(mid + 1) }
}

/// Both halves of an internal node that fits in a page fit in a page.
proof fn lemma_halves_fit(
    parent: Option<usize>,
    kv: Seq<ValueV>,
    ch: Seq<usize>,
    mid: int,
    ks: nat,
    rs: nat,
    cv: Seq<FieldV>,
)
    requires
        node_fits(NodeV::Internal { parent, keys: kv, children: ch }, ks, rs, cv, PAGE_SIZE as nat),
        0 <= mid < kv.len(),
    ensures
        node_fits(left_half(parent, kv, ch, mid), ks, rs, cv, PAGE_SIZE as nat),
        node_fits(right_half(parent, kv, ch, mid), ks, rs, cv, PAGE_SIZE as nat),
        node_writable(left_half(parent, kv, ch, mid), ks, rs, cv, PAGE_SIZE as nat),
        node_writable(right_half(parent, kv, ch, mid), ks, rs, cv, PAGE_SIZE as nat),
{
    let lv = left_half(parent, kv, ch, mid);
    let rv = right_half(parent, kv, ch, mid);
    assert(crate::node::keys_fit(kv, cv[0], ks));
    assert(node_fits(lv, ks, rs, cv, PAGE_SIZE as nat)) by {
        crate::node::lemma_offset_le(mid, kv.len() as int, (4 + ks) as int);
        assert forall|k: int| 0 <= k < mid implies #[trigger] key_fits(kv.take(mid)[k], cv[0], ks) by {
            assert(key_fits(kv[k], cv[0], ks));
        }
        assert forall|k: int| 0 <= k < mid + 1 implies #[trigger] ch.take(mid + 1)[k] < null_page() by {
            assert(ch[k] < null_page());
        }
    }
    assert(node_fits(rv, ks, rs, cv, PAGE_SIZE as nat)) by {
        crate::node::lemma_offset_le((kv.len() - mid - 1) as int, kv.len() as int, (4 + ks) as int);
        assert forall|k: int| 0 <= k < kv.len() - mid - 1 implies #[trigger] key_fits(kv.skip(mid + 1)[k], cv[0], ks) by {
            assert(key_fits(kv[k + mid + 1], cv[0], ks));
        }
        assert forall|k: int| 0 <= k < ch.len() - mid - 1 implies #[trigger] ch.skip(mid + 1)[k] < null_page() by {
            assert(ch[k + mid + 1] < null_page());
        }
    }
    crate::node::lemma_fits_writable(lv, ks, rs, cv, PAGE_SIZE as nat);
    crate::node::lemma_fits_writable(rv, ks, rs, cv, PAGE_SIZE as nat);
}

impl BTree {
    /// The node page `c` holds once page `page_num` holds `left` and page
    /// `new_page` holds `right`, the other pages unchanged.
    pub open spec fn split_node_at(
        &self,
        pager: &Pager,
        c: int,
        page_num: int,
        new_page: int,
        left: NodeV,
        right: NodeV,
        cols: Seq<FieldV>,
    ) -> NodeV {
        if c == page_num {
            left
        } else if c == new_page {
            right
        } else {
            self.node_at(pager, c, cols)
        }
    }

    /// Writes the two halves of the internal page `page_num`, split at its
    /// middle key, to `page_num` and to a new page. Gives the middle key, the
    /// new page and the children that moved to it.
    fn divide_internal(&self, pager: &mut Pager, page_num: usize, cols: &[&Field]) -> (r: Result<
        (Value, usize, Vec<usize>),
        Error,
    >)
        requires
            self.wf(),
            old(pager).wf(),
            page_num < usize::MAX,
            old(pager).next() < 0xffff_ffff,
            page_num != old(pager).next(),
            self.pages_ok(old(pager), ref_views(cols@)),
            self.node_at(old(pager), page_num as int, ref_views(cols@)) matches NodeV::Internal { keys, .. }
                ==> keys.len() >= 1,
        ensures
            final(pager).wf(),
            self.pages_ok(final(pager), ref_views(cols@)),
            match r {
                Ok((split_key, new_page, moved)) => match self.node_at(old(pager), page_num as int, ref_views(cols@)) {
                    NodeV::Internal { parent, keys, children } => {
                        let mid = (keys.len() / 2) as int;
                        &&& new_page == old(pager).next()
                        &&& final(pager).next() == old(pager).next() + 1
                        &&& split_key@ == keys[mid]
                        &&& moved@ == children.skip(mid + 1)
                        &&& self.holds(final(pager), page_num as int, left_half(parent, keys, children, mid), ref_views(cols@))
                        &&& self.holds(final(pager), new_page as int, right_half(parent, keys, children, mid), ref_views(cols@))
                        &&& forall|c: int|
                            c != page_num && c != new_page ==> #[trigger] final(pager).page(c) == old(pager).page(c)
                    },
                    NodeV::Leaf { .. } => false,
                },
                Err(Error::WrongNodeType(_)) => self.node_at(
                    old(pager),
                    page_num as int,
                    ref_views(cols@),
                ) is Leaf && final(pager).next() == old(pager).next() && forall|n: int|
                    #[trigger] final(pager).page(n) == old(pager).page(n),
                Err(_) => false,
            },
    {
        let ghost cv = ref_views(cols@);
        let ghost ks = self.key_size as nat;
        let ghost rs = self.row_size as nat;
        let ghost start = *pager;
        proof {
            assert(page_ok(pager.page(page_num as int), ks, rs, cv));
        }
        let node = match self.read_node(pager, page_num, cols) {
            Ok(n) => n,
            Err(e) => return Err(e),
        };
        let (parent, mut keys, mut children) = match node {
            Node::Internal { parent, keys, children } => (parent, keys, children),
            Node::Leaf { .. } => {
                return Err(Error::WrongNodeType("split_internal called on non-internal".to_string()));
            },
        };
        let ghost kv = crate::node::key_views(keys@);
        let ghost ch = children@;
        proof {
            assert(page_holds(start.page(page_num as int), NodeV::Internal { parent, keys: kv, children: ch }, ks, rs, cv));
        }
        let mid = keys.len() / 2;
        let split_key = keys[mid].copy();
        let right_keys = keys.split_off(mid + 1);
        let right_children = children.split_off(mid + 1);
        keys.pop();
        let new_page = pager.alloc_page();
        let ghost lv = left_half(parent, kv, ch, mid as int);
        let ghost rv = right_half(parent, kv, ch, mid as int);
        let mut moved: Vec<usize> = Vec::new();
        let mut k: usize = 0;
        while k < right_children.len()
            invariant
                k <= right_children@.len(),
                moved@ == right_children@.take(k as int),
            decreases right_children@.len() - k,
        {
            moved.push(right_children[k]);
            k = k + 1;
            proof {
                assert(moved@ =~= right_children@.take(k as int));
            }
        }
        let left = Node::Internal { parent, keys, children };
        let right = Node::Internal { parent, keys: right_keys, children: right_children };
        proof {
            assert(moved@ =~= ch.skip(mid + 1));
            assert(left@ =~= lv) by {
                assert(crate::node::key_views(left->Internal_keys@) =~= kv.take(mid as int));
                assert(left->Internal_children@ =~= ch.take(mid + 1));
            }
            assert(right@ =~= rv) by {
                assert(crate::node::key_views(right->Internal_keys@) =~= kv.skip(mid + 1));
            }
            assert(split_key@ == kv[mid as int]);
            lemma_halves_fit(parent, kv, ch, mid as int, ks, rs, cv);
        }
        let ghost s0 = *pager;
        match self.write_node(pager, page_num, &left, cols) {
            Ok(()) => {},
            Err(e) => return Err(e),
        }
        proof {
            lemma_write_keeps_ok(self, &s0, pager, page_num as int, lv, cv);
        }
        let ghost s1 = *pager;
        match self.write_node(pager, new_page, &right, cols) {
            Ok(()) => {},
            Err(e) => return Err(e),
        }
        proof {
            lemma_write_keeps_ok(self, &s1, pager, new_page as int, rv, cv);
        }
        Ok((split_key, new_page, moved))
    }

    /// Moves the keys above the middle key of a full internal page, with their
    /// children, to a new page, and makes the new page the parent of those
    /// children. Gives the middle key, which leaves both pages, and the new page.
    pub fn split_internal(&self, pager: &mut Pager, page_num: usize, cols: &[&Field]) -> (r: Result<
        (Value, usize),
        Error,
    >)
        requires
            self.wf(),
            old(pager).wf(),
            page_num < usize::MAX,
            old(pager).next() < 0xffff_ffff,
            page_num != old(pager).next(),
            self.pages_ok(old(pager), ref_views(cols@)),
            self.node_at(old(pager), page_num as int, ref_views(cols@)) matches NodeV::Internal { keys, .. }
                ==> keys.len() >= 1,
        ensures
            final(pager).wf(),
            self.pages_ok(final(pager), ref_views(cols@)),
            match r {
                Ok((split_key, new_page)) => match self.node_at(old(pager), page_num as int, ref_views(cols@)) {
                    NodeV::Internal { parent, keys, children } => {
                        let mid = (keys.len() / 2) as int;
                        let moved = children.skip(mid + 1);
                        let left = left_half(parent, keys, children, mid);
                        let right = right_half(parent, keys, children, mid);
                        &&& new_page == old(pager).next()
                        &&& final(pager).next() == old(pager).next() + 1
                        &&& split_key@ == keys[mid]
                        &&& forall|c: int|
                            among(moved, moved.len() as int, c) ==> self.holds(
                                final(pager),
                                c,
                                #[trigger] self.split_node_at(
                                    old(pager),
                                    c,
                                    page_num as int,
                                    new_page as int,
                                    left,
                                    right,
                                    ref_views(cols@),
                                ).with_parent(Some(new_page)),
                                ref_views(cols@),
                            )
                        &&& !among(moved, moved.len() as int, page_num as int) ==> self.holds(
                            final(pager),
                            page_num as int,
                            left,
                            ref_views(cols@),
                        )
                        &&& !among(moved, moved.len() as int, new_page as int) ==> self.holds(
                            final(pager),
                            new_page as int,
                            right,
                            ref_views(cols@),
                        )
                        &&& forall|c: int|
                            !among(moved, moved.len() as int, c) && c != page_num && c != new_page
                                ==> #[trigger] final(pager).page(c) == old(pager).page(c)
                    },
                    NodeV::Leaf { .. } => false,
                },
                Err(Error::WrongNodeType(_)) => self.node_at(
                    old(pager),
                    page_num as int,
                    ref_views(cols@),
                ) is Leaf && final(pager).next() == old(pager).next() && forall|n: int|
                    #[trigger] final(pager).page(n) == old(pager).page(n),
                Err(_) => false,
            },
    {
        let ghost cv = ref_views(cols@);
        let ghost start = *pager;
        let (split_key, new_page, moved) = match self.divide_internal(pager, page_num, cols) {
            Ok(t) => t,
            Err(e) => return Err(e),
        };
        let ghost s2 = *pager;
        let ghost n0 = self.node_at(&start, page_num as int, cv);
        let ghost lv = left_half(n0->Internal_parent, n0->Internal_keys, n0->Internal_children, (n0->Internal_keys.len() / 2) as int);
        let ghost rv = right_half(n0->Internal_parent, n0->Internal_keys, n0->Internal_children, (n0->Internal_keys.len() / 2) as int);
        proof {
            assert(n0 is Internal);
            let mid = (n0->Internal_keys.len() / 2) as int;
            assert(moved@ == n0->Internal_children.skip(mid + 1));
            assert(page_ok(start.page(page_num as int), self.key_size as nat, self.row_size as nat, cv));
            assert(node_fits(n0, self.key_size as nat, self.row_size as nat, cv, PAGE_SIZE as nat));
            assert forall|k: int| 0 <= k < moved@.len() implies #[trigger] moved@[k] < usize::MAX by {
                assert(n0->Internal_children[k + mid + 1] < null_page());
            }
        }
        match self.set_parents(pager, &moved, new_page, cols) {
            Ok(()) => {},
            Err(e) => return Err(e),
        }
        proof {
            assert forall|c: int| #[trigger] self.split_node_at(&start, c, page_num as int, new_page as int, lv, rv, cv)
                == self.node_at(&s2, c, cv) by {
                if c != page_num && c != new_page {
                    assert(s2.page(c) == start.page(c));
                }
            }
        }
        Ok((split_key, new_page))
    }
}

} // verus!
