use vstd::prelude::*;

use crate::error::Error;
use crate::field::byte_size_of;
use crate::node::{node_readable, node_writable, node_written, stored_is_leaf, stored_num_cells, Node, NodeV};
use crate::pager::{Pager, PAGE_SIZE};
use crate::record::{decoded_record, ref_views, Record};
use crate::table::Table;
use crate::value::Value;

verus! {

/// A place in a table: a cell of a leaf page, or the end of the table.
#[derive(Debug)]
pub struct Cursor<'a> {
    pub table: &'a Table,
    pub eot: bool,
    pub page_num: usize,
    pub cell_num: usize,
}

impl<'a> Cursor<'a> {
    /// The page the cursor is on can be read as a node of its table.
    pub open spec fn readable(&self, pager: &Pager) -> bool {
        &&& pager.wf()
        &&& self.page_num < usize::MAX
        &&& node_readable(
            pager.page(self.page_num as int),
            self.table.btree.key_size as nat,
            self.table.btree.row_size as nat,
            self.table.cols(),
        )
    }

    /// Moves to the next cell: past the last cell of a leaf, to the first
    /// cell of the next leaf, or to the end of the table after the last leaf.
    pub fn advance(&mut self, pager: &mut Pager) -> (r: Result<(), Error>)
        requires
            old(self).readable(old(pager)),
            old(self).cell_num < usize::MAX,
        ensures
            r is Ok,
            final(pager).wf(),
            final(pager).next() == old(pager).next(),
            forall|n: int| #[trigger] final(pager).page(n) == old(pager).page(n),
            final(self).table == old(self).table,
            final(self).moved_from(old(pager), old(self).page_num, old(self).cell_num + 1, old(self).eot),
    {
        self.cell_num = self.cell_num + 1;
        self.refresh(pager)
    }

    /// Where a cursor at cell `cell_num` of page `page_num` goes when it
    /// settles: to the first cell of the next leaf when past the last cell,
    /// at the end of the table when there is no next leaf.
    pub open spec fn moved_from(&self, pager: &Pager, page_num: usize, cell_num: int, eot: bool) -> bool {
        let node = self.table.btree.node_at(pager, page_num as int, self.table.cols());
        if cell_num >= node.num_cells() {
            match node {
                NodeV::Leaf { next_leaf: Some(p), .. } => self.page_num == p && self.cell_num == 0
                    && self.eot == eot,
                _ => self.page_num == page_num && self.cell_num == cell_num && self.eot,
            }
        } else {
            self.page_num == page_num && self.cell_num == cell_num && self.eot == eot
        }
    }

    /// Settles the cursor: past the last cell of its leaf it goes to the
    /// next leaf, or to the end of the table.
    pub fn refresh(&mut self, pager: &mut Pager) -> (r: Result<(), Error>)
        requires
            old(self).readable(old(pager)),
        ensures
            r is Ok,
            final(pager).wf(),
            final(pager).next() == old(pager).next(),
            forall|n: int| #[trigger] final(pager).page(n) == old(pager).page(n),
            final(self).table == old(self).table,
            final(self).moved_from(old(pager), old(self).page_num, old(self).cell_num as int, old(self).eot),
    {
        let node = match self.read_node(pager) {
            Ok(n) => n,
            Err(e) => return Err(e),
        };
        if self.cell_num >= node.num_cells() {
            match node.next_leaf() {
                Some(next_page) => {
                    self.page_num = next_page;
                    self.cell_num = 0;
                },
                None => {
                    self.eot = true;
                },
            }
        }
        Ok(())
    }

    /// The node of the cursor's page.
    pub fn read_node(&self, pager: &mut Pager) -> (r: Result<Node, Error>)
        requires
            self.readable(old(pager)),
        ensures
            final(pager).wf(),
            final(pager).next() == old(pager).next(),
            forall|n: int| #[trigger] final(pager).page(n) == old(pager).page(n),
            r matches Ok(node) && node@ == self.table.btree.node_at(old(pager), self.page_num as int, self.table.cols()),
    {
        self.table.read_node(pager, self.page_num)
    }

    /// Reads the node of the cursor's page, hands it to `f` and gives back
    /// what `f` returns.
    pub fn with_node<R, F: FnOnce(&Node) -> Result<R, Error>>(&self, pager: &mut Pager, f: F) -> (r: Result<R, Error>)
        requires
            self.readable(old(pager)),
            forall|n: Node|
                n@ == self.table.btree.node_at(old(pager), self.page_num as int, self.table.cols()) ==> #[trigger] f.requires(
                    (&n,),
                ),
        ensures
            final(pager).wf(),
            final(pager).next() == old(pager).next(),
            forall|n: int| #[trigger] final(pager).page(n) == old(pager).page(n),
            exists|n: Node|
                n@ == self.table.btree.node_at(old(pager), self.page_num as int, self.table.cols())
                    && #[trigger] f.ensures((&n,), r),
    {
        self.table.with_node(pager, self.page_num, f)
    }

    /// Writes `node` to the cursor's page.
    pub fn write_node(&self, pager: &mut Pager, node: &Node) -> (r: Result<(), Error>)
        requires
            old(pager).wf(),
            self.page_num < usize::MAX,
            node_writable(
                node@,
                self.table.btree.key_size as nat,
                self.table.btree.row_size as nat,
                self.table.cols(),
                PAGE_SIZE as nat,
            ),
        ensures
            r is Ok,
            final(pager).wf(),
            final(pager).next() == old(pager).next(),
            final(pager).page(self.page_num as int) == node_written(
                node@,
                old(pager).page(self.page_num as int),
                self.table.btree.key_size as nat,
                self.table.btree.row_size as nat,
                self.table.cols(),
            ),
            forall|n: int| n != self.page_num ==> #[trigger] final(pager).page(n) == old(pager).page(n),
    {
        self.table.write_node(pager, self.page_num, node)
    }

    /// The row of the cursor's cell.
    pub fn row(&self, pager: &mut Pager) -> (r: Result<Record, Error>)
        requires
            self.readable(old(pager)),
            self.table.wf(),
        ensures
            final(pager).wf(),
            final(pager).next() == old(pager).next(),
            forall|n: int| #[trigger] final(pager).page(n) == old(pager).page(n),
            match r {
                Ok(row) => {
                    let page = old(pager).page(self.page_num as int);
                    let ks = self.table.btree.key_size as int;
                    let rs = self.table.btree.row_size as int;
                    let off = crate::node::leaf_cell_offset(self.cell_num as int, ks, rs) + ks;
                    &&& stored_is_leaf(page)
                    &&& self.cell_num < stored_num_cells(page)
                    &&& row@ == decoded_record(self.table.cols(), page.subrange(off, off + rs))
                },
                Err(Error::WrongNodeType(_)) => !stored_is_leaf(old(pager).page(self.page_num as int)),
                Err(Error::OutOfBounds { .. }) => stored_is_leaf(old(pager).page(self.page_num as int))
                    && self.cell_num >= stored_num_cells(old(pager).page(self.page_num as int)),
                Err(_) => false,
            },
    {
        let ghost p0 = pager.page(self.page_num as int);
        match pager.get_page(self.page_num) {
            Ok(_) => {},
            Err(e) => return Err(e),
        }
        let page = pager.page_at(self.page_num);
        let key_column = self.table.key_column();
        let cols = self.table.columns();
        proof {
            assert(page.data@ == p0);
            assert(byte_size_of(key_column@) == self.table.btree.key_size);
            if stored_is_leaf(p0) && self.cell_num < stored_num_cells(p0) {
                assert(crate::node::leaf_cell_readable(
                    p0,
                    self.cell_num as int,
                    self.table.btree.key_size as nat,
                    self.table.btree.row_size as nat,
                    self.table.cols(),
                ));
            }
        }
        Node::read_row_at(&page.data, self.cell_num, key_column, cols, self.table.btree.row_size)
    }
}

} // verus!
