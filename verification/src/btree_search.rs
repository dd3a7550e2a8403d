use vstd::prelude::*;

use crate::btree::{page_ok, BTree};
use crate::btree_insert::children_at;
use crate::error::Error;
use crate::field::{byte_size_of, Field, FieldV};
use crate::node::{node_fits, stored_is_leaf, stored_num_cells, Node, NodeV};
use crate::pager::{Pager, PAGE_SIZE};
use crate::value::{comparable, decoded, value_leq, value_sign, DataType, Value, ValueV};

verus! {

/// `key` can be compared with every value read with type `dt`.
pub open spec fn searchable_with(key: ValueV, dt: DataType) -> bool {
    ||| key is Null
    ||| match dt {
        DataType::Float64 => key is Float64,
        DataType::Utf8 => key is Utf8,
        DataType::FixedSizeBinary(_) => key is Utf8,
        DataType::Boolean => key is Boolean,
        DataType::Binary => key is Binary,
        _ => true,
    }
}

pub proof fn lemma_searchable(key: ValueV, dt: DataType, src: Seq<u8>)
    requires
        searchable_with(key, dt),
    ensures
        comparable(decoded(src, dt), key),
{
}

/// The child a search for `key` goes down to, looking from key `i` on:
/// the one before the first key greater than `key`, the last child when no
/// key is greater.
pub open spec fn child_index(keys: Seq<ValueV>, key: ValueV, i: int) -> int
    decreases keys.len() - i,
{
    if i < 0 || i >= keys.len() {
        keys.len() as int
    } else if !value_leq(keys[i], key) {
        i
    } else {
        child_index(keys, key, i + 1)
    }
}

/// The child a search goes down to is that of the first key greater than the
/// key searched for: every key before it orders at most as the key, and the
/// key at it, when there is one, orders above the key; the last child when
/// no key is greater.
pub proof fn lemma_child_index(keys: Seq<ValueV>, key: ValueV, i: int)
    requires
        0 <= i <= keys.len(),
    ensures
        i <= child_index(keys, key, i) <= keys.len(),
        forall|j: int| i <= j < child_index(keys, key, i) ==> value_sign(#[trigger] keys[j], key) <= 0,
        child_index(keys, key, i) < keys.len() ==> value_sign(keys[child_index(keys, key, i)], key) > 0,
    decreases keys.len() - i,
{
    if i < keys.len() && value_leq(keys[i], key) {
        lemma_child_index(keys, key, i + 1);
    }
}

/// When no key from `i` to `j` is greater than `key`, the child found from
/// `i` on is the one found from `j` on.
proof fn lemma_first_skip(keys: Seq<ValueV>, key: ValueV, i: int, j: int)
    requires
        0 <= i <= j,
        forall|k: int| i <= k < j && k < keys.len() ==> value_leq(#[trigger] keys[k], key),
    ensures
        child_index(keys, key, i) == child_index(keys, key, j),
    decreases j - i,
{
    if i < j && i < keys.len() {
        lemma_first_skip(keys, key, i + 1, j);
    }
}

/// Reading a page with only the key column gives the same kind of node,
/// with the same keys and children.
pub proof fn lemma_key_col_node(src: Seq<u8>, ks: nat, rs: nat, cols: Seq<FieldV>)
    requires
        cols.len() >= 1,
    ensures
        (crate::node::decoded_node(src, ks, rs, cols) is Leaf) == (crate::node::decoded_node(
            src,
            ks,
            rs,
            seq![cols[0]],
        ) is Leaf),
        crate::node::decoded_node(src, ks, rs, cols) is Internal ==> crate::node::decoded_node(src, ks, rs, cols)
            == crate::node::decoded_node(src, ks, rs, seq![cols[0]]),
{
    let a = crate::node::decoded_node(src, ks, rs, cols);
    let b = crate::node::decoded_node(src, ks, rs, seq![cols[0]]);
    if !stored_is_leaf(src) {
        assert(a->Internal_keys =~= b->Internal_keys);
        assert(a->Internal_children =~= b->Internal_children);
    }
}

/// Pagers with the same pages lead a search to the same leaf.
pub proof fn lemma_reached_same(
    tree: &BTree,
    p1: &Pager,
    p2: &Pager,
    n: int,
    key: ValueV,
    key_col: FieldV,
    fuel: nat,
)
    requires
        forall|m: int| #[trigger] p1.page(m) == p2.page(m),
    ensures
        tree.leaf_reached(p1, n, key, key_col, fuel) == tree.leaf_reached(p2, n, key, key_col, fuel),
    decreases fuel,
{
    assert(tree.node_at(p1, n, seq![key_col]) == tree.node_at(p2, n, seq![key_col]));
    match tree.node_at(p1, n, seq![key_col]) {
        NodeV::Internal { keys, children, .. } => {
            let i = child_index(keys, key, 0);
            if fuel > 0 && i < children.len() {
                lemma_reached_same(tree, p1, p2, children[i] as int, key, key_col, (fuel - 1) as nat);
            }
        },
        NodeV::Leaf { .. } => {},
    }
}

impl BTree {
    /// The leaf a search for `key` reaches from page `n`: down through the
    /// child before the first key greater than `key`, or the last child when
    /// no key is greater; none after `fuel` steps down.
    pub open spec fn leaf_reached(&self, pager: &Pager, n: int, key: ValueV, key_col: FieldV, fuel: nat) -> Option<
        int,
    >
        decreases fuel,
    {
        match self.node_at(pager, n, seq![key_col]) {
            NodeV::Leaf { .. } => Some(n),
            NodeV::Internal { keys, children, .. } => if fuel == 0 || child_index(keys, key, 0) >= children.len() {
                None
            } else {
                self.leaf_reached(pager, children[child_index(keys, key, 0)] as int, key, key_col, (fuel - 1) as nat)
            },
        }
    }

    /// The leaf a search for `key` reaches from the page `page_num` of a
    /// tree of levels.
    fn descend(
        &self,
        pager: &mut Pager,
        page_num: usize,
        key: &Value,
        key_column: &Field,
        Ghost(cols): Ghost<Seq<FieldV>>,
        Ghost(levels): Ghost<Map<int, nat>>,
    ) -> (r: Result<usize, Error>)
        requires
            self.wf(),
            old(pager).wf(),
            self.pages_ok(old(pager), cols),
            self.shaped(old(pager), levels, cols),
            levels.dom().contains(page_num as int),
            cols.len() >= 1,
            cols[0] == key_column@,
            byte_size_of(key_column@) == self.key_size,
            searchable_with(key@, key_column@.data_type),
        ensures
            final(pager).wf(),
            final(pager).next() == old(pager).next(),
            forall|n: int| #[trigger] final(pager).page(n) == old(pager).page(n),
            r matches Ok(p) && self.leaf_reached(old(pager), page_num as int, key@, key_column@, levels[page_num as int])
                == Some(p as int),
        decreases levels[page_num as int],
    {
        let ghost ks = self.key_size as nat;
        let ghost rs = self.row_size as nat;
        let ghost p0 = pager.page(page_num as int);
        let ghost h = levels[page_num as int];
        proof {
            assert(self.level_ok(pager, levels, page_num as int, cols));
            assert(page_ok(p0, ks, rs, cols));
        }
        match pager.get_page(page_num) {
            Ok(_) => {},
            Err(e) => return Err(e),
        }
        let ghost s1 = *pager;
        let page = pager.page_at(page_num);
        proof {
            assert(page.data@ == p0);
            assert(page.data@.len() == PAGE_SIZE);
        }
        if Node::read_is_leaf(&page.data) {
            proof {
                lemma_key_col_node(p0, ks, rs, cols);
            }
            return Ok(page_num);
        }
        let ghost n0 = self.node_at(old(pager), page_num as int, cols);
        let ghost keys = n0->Internal_keys;
        let ghost children = n0->Internal_children;
        proof {
            assert(node_fits(n0, ks, rs, cols, PAGE_SIZE as nat));
            lemma_key_col_node(p0, ks, rs, cols);
            assert(seq![cols[0]] == seq![key_column@]);
        }
        let m = Node::read_num_cells(&page.data);
        proof {
            assert(children.len() == keys.len() + 1);
        }
        let mut i: usize = 0;
        while i < m
            invariant
                0 <= i <= m,
                m == stored_num_cells(p0),
                children.len() == keys.len() + 1,
                forall|k: int| 0 <= k < children.len() ==> #[trigger] children[k] < crate::node::null_page(),
                ks == self.key_size,
                rs == self.row_size,
                pager.wf(),
                pager.next() == old(pager).next(),
                forall|n: int| #[trigger] pager.page(n) == old(pager).page(n),
                p0 == old(pager).page(page_num as int),
                self.pages_ok(old(pager), cols),
                self.shaped(old(pager), levels, cols),
                levels.dom().contains(page_num as int),
                h == levels[page_num as int],
                children == n0->Internal_children,
                n0 == self.node_at(old(pager), page_num as int, cols),
                n0 == self.node_at(old(pager), page_num as int, seq![key_column@]),
                keys.len() == stored_num_cells(p0),
                page.data@ == p0,
                !stored_is_leaf(p0),
                page_ok(p0, ks, rs, cols),
                n0 == crate::node::decoded_node(p0, ks, rs, cols),
                keys == n0->Internal_keys,
                cols.len() >= 1,
                cols[0] == key_column@,
                byte_size_of(key_column@) == self.key_size,
                self.wf(),
                searchable_with(key@, key_column@.data_type),
                forall|k: int| 0 <= k < i ==> value_leq(#[trigger] keys[k], key@),
            decreases m - i,
        {
            proof {
                if i < stored_num_cells(p0) {
                    assert(crate::node::internal_cell_readable(p0, i as int, ks, cols));
                    assert(crate::node::internal_cell_offset(i as int, ks as int) + 4 == crate::node::stored_key_offset(p0, i as int, byte_size_of(key_column@) as int, self.row_size as int));
                }
            }
            let node_key = match Node::read_key_at(&page.data, i, key_column, self.row_size) {
                Ok(k) => k,
                Err(e) => {
                    proof {
                        lemma_first_skip(keys, key@, 0, i as int);
                    }
                    return Err(e);
                },
            };
            proof {
                assert(node_key@ == keys[i as int]);
                lemma_searchable(key@, key_column@.data_type, p0.skip(crate::node::internal_cell_offset(i as int, ks as int) + 4));
            }
            if !node_key.leq(key) {
                proof {
                    assert(children[i as int] < crate::node::null_page());
                }
                let child = match Node::read_child_at(&page.data, i, key_column) {
                    Ok(c) => c,
                    Err(e) => return Err(e),
                };
                proof {
                    lemma_first_skip(keys, key@, 0, i as int);
                    assert(child == children[i as int]);
                    assert(children_at(levels, children, h - 1));
                    assert(levels.dom().contains(child as int));
                }
                let ghost s2 = *pager;
                let r = self.descend(pager, child, key, key_column, Ghost(cols), Ghost(levels));
                proof {
                    lemma_reached_same(self, &s2, old(pager), child as int, key@, key_column@, levels[child as int]);
                }
                return r;
            }
            i = i + 1;
        }
        proof {
            assert(children[m as int] == crate::node::stored_pointer(p0) as usize);
            assert(children[m as int] < crate::node::null_page());
        }
        let child = match Node::read_child_at(&page.data, m, key_column) {
            Ok(c) => c,
            Err(e) => return Err(e),
        };
        proof {
            lemma_first_skip(keys, key@, 0, m as int);
            assert(child == children[m as int]);
            assert(children_at(levels, children, h - 1));
            assert(levels.dom().contains(child as int));
        }
        let ghost s2 = *pager;
        let r = self.descend(pager, child, key, key_column, Ghost(cols), Ghost(levels));
        proof {
            lemma_reached_same(self, &s2, old(pager), child as int, key@, key_column@, levels[child as int]);
        }
        r
    }

    /// The leaf page a search for `key` reaches from page `page_num`: down
    /// through the child before the first key greater than `key`, or the
    /// last child when no key is greater.
    pub fn leaf_search(&self, pager: &mut Pager, page_num: usize, key: &Value, key_column: &Field) -> (r: Result<
        usize,
        Error,
    >)
        requires
            self.wf(),
            old(pager).wf(),
            byte_size_of(key_column@) == self.key_size,
            searchable_with(key@, key_column@.data_type),
            exists|cols: Seq<FieldV>, levels: Map<int, nat>|
                cols.len() >= 1 && cols[0] == key_column@ && #[trigger] self.pages_ok(old(pager), cols)
                    && #[trigger] self.shaped(old(pager), levels, cols) && levels.dom().contains(page_num as int),
        ensures
            final(pager).wf(),
            final(pager).next() == old(pager).next(),
            forall|n: int| #[trigger] final(pager).page(n) == old(pager).page(n),
            r matches Ok(p) && self.leaf_reached(old(pager), page_num as int, key@, key_column@, old(pager).next() as nat)
                == Some(p as int),
    {
        let ghost w = choose|cols: Seq<FieldV>, levels: Map<int, nat>|
            cols.len() >= 1 && cols[0] == key_column@ && #[trigger] self.pages_ok(old(pager), cols)
                && #[trigger] self.shaped(old(pager), levels, cols) && levels.dom().contains(page_num as int);
        proof {
            assert(self.level_ok(old(pager), w.1, page_num as int, w.0));
            lemma_reached_fuel(self, old(pager), w.1, w.0, page_num as int, key@, old(pager).next() as nat);
        }
        self.descend(pager, page_num, key, key_column, Ghost(w.0), Ghost(w.1))
    }
}

/// In a tree of levels, any fuel at least the page's level reaches the same leaf.
pub proof fn lemma_reached_fuel(
    tree: &BTree,
    pager: &Pager,
    levels: Map<int, nat>,
    cols: Seq<FieldV>,
    n: int,
    key: ValueV,
    fuel: nat,
)
    requires
        tree.shaped(pager, levels, cols),
        levels.dom().contains(n),
        fuel >= levels[n],
        cols.len() >= 1,
    ensures
        tree.leaf_reached(pager, n, key, cols[0], fuel) == tree.leaf_reached(pager, n, key, cols[0], levels[n]),
    decreases levels[n],
{
    assert(tree.level_ok(pager, levels, n, cols));
    lemma_key_col_node(pager.page(n), tree.key_size as nat, tree.row_size as nat, cols);
    match tree.node_at(pager, n, cols) {
        NodeV::Internal { keys, children, .. } => {
            let i = child_index(keys, key, 0);
            if i < children.len() {
                lemma_first_in(keys, key, 0);
                assert(children_at(levels, children, levels[n] - 1));
                assert(levels.dom().contains(children[i] as int));
                lemma_reached_fuel(tree, pager, levels, cols, children[i] as int, key, (fuel - 1) as nat);
                lemma_reached_fuel(tree, pager, levels, cols, children[i] as int, key, (levels[n] - 1) as nat);
            }
        },
        NodeV::Leaf { .. } => {},
    }
}

/// The child found from key `i` on is at `i` or after, and at most the
/// number of keys.
pub proof fn lemma_first_in(keys: Seq<ValueV>, key: ValueV, i: int)
    requires
        0 <= i,
    ensures
        i <= child_index(keys, key, i) <= keys.len() || i > keys.len(),
        0 <= child_index(keys, key, i) <= keys.len(),
    decreases keys.len() - i,
{
    if 0 <= i < keys.len() && value_leq(keys[i], key) {
        lemma_first_in(keys, key, i + 1);
    }
}

/// A search ends on a leaf page.
pub proof fn lemma_reached_is_leaf(
    tree: &BTree,
    pager: &Pager,
    n: int,
    key: ValueV,
    cols: Seq<FieldV>,
    fuel: nat,
)
    requires
        cols.len() >= 1,
    ensures
        tree.leaf_reached(pager, n, key, cols[0], fuel) matches Some(p) ==> stored_is_leaf(pager.page(p)),
    decreases fuel,
{
    match tree.node_at(pager, n, seq![cols[0]]) {
        NodeV::Internal { keys, children, .. } => {
            let i = child_index(keys, key, 0);
            if fuel > 0 && i < children.len() {
                lemma_reached_is_leaf(tree, pager, children[i] as int, key, cols, (fuel - 1) as nat);
            }
        },
        NodeV::Leaf { .. } => {},
    }
}

/// In a tree of levels a search ends on a page of the tree.
pub proof fn lemma_reached_in_tree(
    tree: &BTree,
    pager: &Pager,
    levels: Map<int, nat>,
    cols: Seq<FieldV>,
    n: int,
    key: ValueV,
    fuel: nat,
)
    requires
        tree.shaped(pager, levels, cols),
        levels.dom().contains(n),
        cols.len() >= 1,
    ensures
        tree.leaf_reached(pager, n, key, cols[0], fuel) matches Some(p) ==> levels.dom().contains(p) && 0 <= p
            < pager.next(),
    decreases fuel,
{
    assert(tree.level_ok(pager, levels, n, cols));
    lemma_key_col_node(pager.page(n), tree.key_size as nat, tree.row_size as nat, cols);
    match tree.node_at(pager, n, cols) {
        NodeV::Internal { keys, children, .. } => {
            let i = child_index(keys, key, 0);
            if fuel > 0 && i < children.len() {
                lemma_first_in(keys, key, 0);
                assert(children_at(levels, children, levels[n] - 1));
                assert(levels.dom().contains(children[i] as int));
                lemma_reached_in_tree(tree, pager, levels, cols, children[i] as int, key, (fuel - 1) as nat);
            }
        },
        NodeV::Leaf { .. } => {},
    }
}

} // verus!
