use vstd::prelude::*;

use crate::btree::{
    among, cell_keys, lemma_holds_ok, page_ok, placed, search_result, separator_place, BTree,
};
use crate::error::Error;
use crate::field::{Field, FieldV};
use crate::node::{cells_fit, key_fits, node_fits, Node, NodeV};
use crate::pager::{Pager, PAGE_SIZE};
use crate::record::{fits_columns, ref_views, Record};
use crate::value::{comparable, value_leq, value_sign, Value, ValueV};

verus! {

/// Two values that read back through the same key column can be compared.
pub proof fn lemma_keys_comparable(a: ValueV, b: ValueV, key_col: FieldV, ks: nat)
    requires
        key_fits(a, key_col, ks),
        key_fits(b, key_col, ks),
    ensures
        comparable(a, b),
{
}

/// Levels only grow: every page keeps its level and the pages that gain one
/// are pages from `next` on.
pub open spec fn grown(levels: Map<int, nat>, more: Map<int, nat>, next: int) -> bool {
    &&& forall|p: int| #[trigger] levels.dom().contains(p) ==> more.dom().contains(p) && more[p] == levels[p]
    &&& forall|p: int| #[trigger] more.dom().contains(p) && !levels.dom().contains(p) ==> p >= next
}

/// Every page of `children` has level `l`.
pub open spec fn children_at(levels: Map<int, nat>, children: Seq<usize>, l: int) -> bool {
    forall|k: int|
        0 <= k < children.len() ==> levels.dom().contains(#[trigger] children[k] as int) && levels[children[k] as int]
            == l
}

/// Levels of children survive growing the levels, taking part of the
/// children, and adding a child of the same level.
pub proof fn lemma_children_at(levels: Map<int, nat>, more: Map<int, nat>, next: int, ch: Seq<usize>, l: int)
    requires
        children_at(levels, ch, l),
        grown(levels, more, next),
    ensures
        children_at(more, ch, l),
        forall|n: int| 0 <= n <= ch.len() ==> children_at(more, #[trigger] ch.take(n), l),
        forall|n: int| 0 <= n <= ch.len() ==> children_at(more, #[trigger] ch.skip(n), l),
{
    assert forall|k: int| 0 <= k < ch.len() implies more.dom().contains(#[trigger] ch[k] as int) && more[ch[k] as int] == l by {
        assert(levels.dom().contains(ch[k] as int));
    }
    assert forall|n: int| 0 <= n <= ch.len() implies children_at(more, #[trigger] ch.take(n), l) by {
        assert forall|k: int| 0 <= k < ch.take(n).len() implies more.dom().contains(#[trigger] ch.take(n)[k] as int)
            && more[ch.take(n)[k] as int] == l by {
            assert(ch.take(n)[k] == ch[k]);
        }
    }
    assert forall|n: int| 0 <= n <= ch.len() implies children_at(more, #[trigger] ch.skip(n), l) by {
        assert forall|k: int| 0 <= k < ch.skip(n).len() implies more.dom().contains(#[trigger] ch.skip(n)[k] as int)
            && more[ch.skip(n)[k] as int] == l by {
            assert(ch.skip(n)[k] == ch[k + n]);
        }
    }
}

/// A child of the same level can join the children.
pub proof fn lemma_children_insert(levels: Map<int, nat>, ch: Seq<usize>, i: int, c: usize, l: int)
    requires
        children_at(levels, ch, l),
        levels.dom().contains(c as int),
        levels[c as int] == l,
        0 <= i <= ch.len(),
    ensures
        children_at(levels, ch.insert(i, c), l),
{
    assert forall|k: int| 0 <= k < ch.len() + 1 implies levels.dom().contains(#[trigger] ch.insert(i, c)[k] as int)
        && levels[ch.insert(i, c)[k] as int] == l by {
        if k < i {
            assert(ch.insert(i, c)[k] == ch[k]);
        } else if k > i {
            assert(ch.insert(i, c)[k] == ch[k - 1]);
        }
    }
}

/// Giving a level to a page that is no child keeps the children's levels.
pub proof fn lemma_children_new_page(levels: Map<int, nat>, ch: Seq<usize>, q: int, x: nat, l: int)
    requires
        children_at(levels, ch, l),
        forall|k: int| 0 <= k < ch.len() ==> #[trigger] ch[k] as int != q,
    ensures
        children_at(levels.insert(q, x), ch, l),
{
    assert forall|k: int| 0 <= k < ch.len() implies levels.insert(q, x).dom().contains(#[trigger] ch[k] as int)
        && levels.insert(q, x)[ch[k] as int] == l by {
        assert(ch[k] as int != q);
    }
}

impl BTree {
    /// Page `p` sits at its level: an allocated page, a leaf at level 0 or an
    /// internal page whose children are all one level lower.
    pub open spec fn level_ok(&self, pager: &Pager, levels: Map<int, nat>, p: int, cols: Seq<FieldV>) -> bool {
        &&& 0 <= p < pager.next()
        &&& levels[p] < pager.next()
        &&& match self.node_at(pager, p, cols) {
            NodeV::Leaf { .. } => levels[p] == 0,
            NodeV::Internal { children, .. } => levels[p] > 0 && children_at(levels, children, levels[p] - 1),
        }
    }

    /// Every page that has a level sits at it.
    pub open spec fn shaped(&self, pager: &Pager, levels: Map<int, nat>, cols: Seq<FieldV>) -> bool {
        forall|p: int| #[trigger] levels.dom().contains(p) ==> self.level_ok(pager, levels, p, cols)
    }

    /// The pages under the root form a tree of levels.
    pub open spec fn tree_shaped(&self, pager: &Pager, cols: Seq<FieldV>) -> bool {
        exists|levels: Map<int, nat>|
            self.shaped(pager, levels, cols) && #[trigger] levels.dom().contains(self.root_page as int)
    }

    /// From `before` to `after` only pages from `next` on and pages of
    /// level at most `h` changed.
    pub open spec fn changed_below(
        &self,
        before: &Pager,
        after: &Pager,
        levels: Map<int, nat>,
        h: nat,
    ) -> bool {
        forall|p: int|
            0 <= p < before.next() && !(levels.dom().contains(p) && levels[p] <= h) ==> #[trigger] after.page(
                p,
            ) == before.page(p)
    }
}

/// The shape survives changes that keep every page outside `changed` and
/// leave the pages of `changed` at their levels.
pub proof fn lemma_shaped_step(
    tree: &BTree,
    before: &Pager,
    after: &Pager,
    levels: Map<int, nat>,
    more: Map<int, nat>,
    changed: Set<int>,
    cols: Seq<FieldV>,
)
    requires
        tree.shaped(before, levels, cols),
        grown(levels, more, before.next() as int),
        after.next() >= before.next(),
        forall|p: int|
            #[trigger] more.dom().contains(p) && !changed.contains(p) ==> levels.dom().contains(p)
                && after.page(p) == before.page(p),
        forall|p: int| more.dom().contains(p) && #[trigger] changed.contains(p) ==> tree.level_ok(after, more, p, cols),
    ensures
        tree.shaped(after, more, cols),
{
    assert forall|p: int| #[trigger] more.dom().contains(p) implies tree.level_ok(after, more, p, cols) by {
        if !changed.contains(p) {
            assert(levels.dom().contains(p));
            assert(tree.level_ok(before, levels, p, cols));
            assert(tree.node_at(after, p, cols) == tree.node_at(before, p, cols));
        }
    }
}

/// A page whose node changes only its parent stays at its level.
pub proof fn lemma_parent_keeps_level(
    tree: &BTree,
    before: &Pager,
    after: &Pager,
    levels: Map<int, nat>,
    p: int,
    parent: Option<usize>,
    cols: Seq<FieldV>,
)
    requires
        tree.level_ok(before, levels, p, cols),
        after.next() >= before.next(),
        tree.node_at(after, p, cols) == tree.node_at(before, p, cols).with_parent(parent),
    ensures
        tree.level_ok(after, levels, p, cols),
{
}

impl BTree {
    /// Splits a full leaf page and puts `key` and `row` into the half where
    /// the key goes: the left one when the key is at most the first key of
    /// the right one. Gives that key and the new page.
    pub fn split_leaf_and_insert(
        &self,
        pager: &mut Pager,
        page_num: usize,
        key: &Value,
        row: &Record,
        cols: &[&Field],
    ) -> (r: Result<(Value, usize), Error>)
        requires
            self.wf(),
            old(pager).wf(),
            page_num < usize::MAX,
            old(pager).next() < 0xffff_ffff,
            page_num != old(pager).next(),
            self.pages_ok(old(pager), ref_views(cols@)),
            self.max_cells_per_leaf >= 2,
            key_fits(key@, ref_views(cols@)[0], self.key_size as nat),
            fits_columns(row@, ref_views(cols@)),
            self.node_at(old(pager), page_num as int, ref_views(cols@)) matches NodeV::Leaf { cells, .. }
                ==> 1 <= cells.len() <= self.max_cells_per_leaf,
        ensures
            final(pager).wf(),
            self.pages_ok(final(pager), ref_views(cols@)),
            match r {
                Ok((split_key, new_page)) => match self.node_at(old(pager), page_num as int, ref_views(cols@)) {
                    NodeV::Leaf { parent, cells, next_leaf } => {
                        let mid = (cells.len() / 2) as int;
                        let left = cells.take(mid);
                        let right = cells.skip(mid);
                        &&& new_page == old(pager).next()
                        &&& final(pager).next() == old(pager).next() + 1
                        &&& split_key@ == cells[mid].0
                        &&& forall|n: int|
                            n != page_num && n != new_page ==> #[trigger] final(pager).page(n) == old(
                                pager,
                            ).page(n)
                        &&& if value_leq(key@, split_key@) {
                            &&& exists|i: int, found: bool|
                                search_result(cell_keys(left), key@, i, found) && self.holds(
                                    final(pager),
                                    page_num as int,
                                    NodeV::Leaf {
                                        parent,
                                        cells: placed(left, i, found, (key@, row@)),
                                        next_leaf: Some(new_page),
                                    },
                                    ref_views(cols@),
                                )
                            &&& self.holds(
                                final(pager),
                                new_page as int,
                                NodeV::Leaf { parent, cells: right, next_leaf },
                                ref_views(cols@),
                            )
                        } else {
                            &&& self.holds(
                                final(pager),
                                page_num as int,
                                NodeV::Leaf { parent, cells: left, next_leaf: Some(new_page) },
                                ref_views(cols@),
                            )
                            &&& exists|i: int, found: bool|
                                search_result(cell_keys(right), key@, i, found) && self.holds(
                                    final(pager),
                                    new_page as int,
                                    NodeV::Leaf {
                                        parent,
                                        cells: placed(right, i, found, (key@, row@)),
                                        next_leaf,
                                    },
                                    ref_views(cols@),
                                )
                        }
                    },
                    NodeV::Internal { .. } => false,
                },
                Err(Error::WrongNodeType(_)) => self.node_at(
                    old(pager),
                    page_num as int,
                    ref_views(cols@),
                ) is Internal && final(pager).next() == old(pager).next() && forall|n: int|
                    #[trigger] final(pager).page(n) == old(pager).page(n),
                Err(_) => false,
            },
    {
        let ghost cv = ref_views(cols@);
        let ghost ks = self.key_size as nat;
        let ghost rs = self.row_size as nat;
        let ghost start = *pager;
        proof {
            assert(page_ok(start.page(page_num as int), ks, rs, cv));
        }
        let (split_key, new_page) = match self.split_leaf(pager, page_num, cols) {
            Ok(t) => t,
            Err(e) => return Err(e),
        };
        let ghost n0 = self.node_at(&start, page_num as int, cv);
        let ghost cells = n0->Leaf_cells;
        let ghost mid = (cells.len() / 2) as int;
        let ghost s1 = *pager;
        proof {
            assert(node_fits(n0, ks, rs, cv, PAGE_SIZE as nat));
            assert(cells_fit(cells, cv, ks));
            assert(crate::node::cell_fits(cells, cv, ks, mid));
            lemma_keys_comparable(key@, split_key@, cv[0], ks);
            assert forall|m: int| #[trigger] page_ok(s1.page(m), ks, rs, cv) by {
                if m != page_num && m != new_page {
                    assert(page_ok(start.page(m), ks, rs, cv));
                }
            }
        }
        if key.leq(&split_key) {
            let ghost half = cells.take(mid);
            proof {
                assert forall|i: int| 0 <= i < half.len() implies comparable(#[trigger] half[i].0, key@) by {
                    assert(crate::node::cell_fits(cells, cv, ks, i));
                    lemma_keys_comparable(half[i].0, key@, cv[0], ks);
                }
            }
            match self.insert_into_leaf(pager, page_num, key, row, cols) {
                Ok(()) => {},
                Err(e) => return Err(e),
            }
            proof {
                let i = choose|i: int, found: bool| search_result(cell_keys(half), key@, i, found) && self.holds(
                    pager,
                    page_num as int,
                    NodeV::Leaf {
                        parent: n0->Leaf_parent,
                        cells: placed(half, i, found, (key@, row@)),
                        next_leaf: Some(new_page),
                    },
                    cv,
                );
                lemma_holds_ok(
                    self,
                    &s1,
                    pager,
                    page_num as int,
                    NodeV::Leaf {
                        parent: n0->Leaf_parent,
                        cells: placed(half, i.0, i.1, (key@, row@)),
                        next_leaf: Some(new_page),
                    },
                    cv,
                );
            }
        } else {
            let ghost half = cells.skip(mid);
            proof {
                assert forall|i: int| 0 <= i < half.len() implies comparable(#[trigger] half[i].0, key@) by {
                    assert(crate::node::cell_fits(cells, cv, ks, i + mid));
                    lemma_keys_comparable(half[i].0, key@, cv[0], ks);
                }
                assert(page_ok(s1.page(new_page as int), ks, rs, cv));
            }
            match self.insert_into_leaf(pager, new_page, key, row, cols) {
                Ok(()) => {},
                Err(e) => return Err(e),
            }
            proof {
                let i = choose|i: int, found: bool| search_result(cell_keys(half), key@, i, found) && self.holds(
                    pager,
                    new_page as int,
                    NodeV::Leaf {
                        parent: n0->Leaf_parent,
                        cells: placed(half, i, found, (key@, row@)),
                        next_leaf: n0->Leaf_next_leaf,
                    },
                    cv,
                );
                lemma_holds_ok(
                    self,
                    &s1,
                    pager,
                    new_page as int,
                    NodeV::Leaf {
                        parent: n0->Leaf_parent,
                        cells: placed(half, i.0, i.1, (key@, row@)),
                        next_leaf: n0->Leaf_next_leaf,
                    },
                    cv,
                );
            }
        }
        Ok((split_key, new_page))
    }
}

impl BTree {
    /// What splitting the full internal page `page_num` and putting in the
    /// separator `key` with its right child `new_child` gives: the page keeps
    /// the keys before the middle one `split_key`, the new page `new_page` the
    /// keys after it, each with its children and the new pair on its side;
    /// the children that moved name the new page as parent.
    pub open spec fn internal_split_done(
        &self,
        before: &Pager,
        after: &Pager,
        page_num: int,
        key: ValueV,
        new_child: usize,
        split_key: ValueV,
        new_page: usize,
        cols: Seq<FieldV>,
    ) -> bool {
        match self.node_at(before, page_num, cols) {
            NodeV::Internal { parent, keys, children } => {
                let mid = (keys.len() / 2) as int;
                let moved = children.skip(mid + 1);
                let lk = keys.take(mid);
                let lc = children.take(mid + 1);
                let rk = keys.skip(mid + 1);
                let rc = children.skip(mid + 1);
                &&& new_page == before.next()
                &&& after.next() == before.next() + 1
                &&& split_key == keys[mid]
                &&& forall|c: int|
                    among(moved, moved.len() as int, c) ==> self.holds(
                        after,
                        c,
                        #[trigger] self.node_at(before, c, cols).with_parent(
                            Some(new_page),
                        ),
                        cols,
                    )
                &&& forall|c: int|
                    !among(moved, moved.len() as int, c) && c != page_num && c != new_page
                        ==> #[trigger] after.page(c) == before.page(c)
                &&& if value_leq(key, split_key) {
                    &&& exists|idx: int|
                        separator_place(lk, key, idx) && self.holds(
                            after,
                            page_num,
                            NodeV::Internal {
                                parent,
                                keys: lk.insert(idx, key),
                                children: lc.insert(idx + 1, new_child),
                            },
                            cols,
                        )
                    &&& self.holds(
                        after,
                        new_page as int,
                        NodeV::Internal { parent, keys: rk, children: rc },
                        cols,
                    )
                } else {
                    &&& self.holds(
                        after,
                        page_num,
                        NodeV::Internal { parent, keys: lk, children: lc },
                        cols,
                    )
                    &&& exists|idx: int|
                        separator_place(rk, key, idx) && self.holds(
                            after,
                            new_page as int,
                            NodeV::Internal {
                                parent,
                                keys: rk.insert(idx, key),
                                children: rc.insert(idx + 1, new_child),
                            },
                            cols,
                        )
                }
            },
            NodeV::Leaf { .. } => false,
        }
    }
}

impl BTree {
    /// Splits a full internal page and puts the separator `key` with the
    /// child `new_child` to its right into the half where the key goes: the
    /// left one when the key is at most the middle key, which leaves both
    /// halves. Gives the middle key and the new page.
    pub fn split_internal_and_insert(
        &self,
        pager: &mut Pager,
        page_num: usize,
        key: &Value,
        new_child: usize,
        cols: &[&Field],
    ) -> (r: Result<(Value, usize), Error>)
        requires
            self.wf(),
            old(pager).wf(),
            page_num < usize::MAX,
            old(pager).next() < 0xffff_ffff,
            page_num != old(pager).next(),
            self.pages_ok(old(pager), ref_views(cols@)),
            key_fits(key@, ref_views(cols@)[0], self.key_size as nat),
            new_child < crate::node::null_page(),
            self.node_at(old(pager), page_num as int, ref_views(cols@)) matches NodeV::Internal {
                keys,
                children,
                ..
            } ==> {
                &&& 1 <= keys.len() <= self.max_keys_per_internal
                &&& forall|k: int|
                    0 <= k < children.len() ==> #[trigger] children[k] != page_num && children[k] < old(
                        pager,
                    ).next()
            },
        ensures
            final(pager).wf(),
            self.pages_ok(final(pager), ref_views(cols@)),
            match r {
                Ok((split_key, new_page)) => self.internal_split_done(
                    old(pager),
                    final(pager),
                    page_num as int,
                    key@,
                    new_child,
                    split_key@,
                    new_page,
                    ref_views(cols@),
                ),
                Err(Error::WrongNodeType(_)) => self.node_at(
                    old(pager),
                    page_num as int,
                    ref_views(cols@),
                ) is Leaf && final(pager).next() == old(pager).next() && forall|n: int|
                    #[trigger] final(pager).page(n) == old(pager).page(n),
                Err(_) => false,
            },
    {
        let ghost cv = ref_views(cols@);
        let ghost ks = self.key_size as nat;
        let ghost rs = self.row_size as nat;
        let ghost start = *pager;
        proof {
            assert(page_ok(start.page(page_num as int), ks, rs, cv));
        }
        let (split_key, new_page) = match self.split_internal(pager, page_num, cols) {
            Ok(t) => t,
            Err(e) => return Err(e),
        };
        let ghost n0 = self.node_at(&start, page_num as int, cv);
        let ghost keys = n0->Internal_keys;
        let ghost children = n0->Internal_children;
        let ghost mid = (keys.len() / 2) as int;
        let ghost moved = children.skip(mid + 1);
        let ghost s1 = *pager;
        proof {
            assert(node_fits(n0, ks, rs, cv, PAGE_SIZE as nat));
            assert(key_fits(keys[mid], cv[0], ks));
            lemma_keys_comparable(key@, split_key@, cv[0], ks);
            assert(!among(moved, moved.len() as int, page_num as int)) by {
                if among(moved, moved.len() as int, page_num as int) {
                    let k = choose|k: int| 0 <= k < moved.len() && moved[k] as int == page_num as int;
                    assert(children[k + mid + 1] != page_num);
                }
            }
            assert(!among(moved, moved.len() as int, new_page as int)) by {
                if among(moved, moved.len() as int, new_page as int) {
                    let k = choose|k: int| 0 <= k < moved.len() && moved[k] as int == new_page as int;
                    assert(children[k + mid + 1] < start.next());
                }
            }
        }
        if key.leq(&split_key) {
            let ghost half = keys.take(mid);
            proof {
                assert forall|i: int| 0 <= i < half.len() implies comparable(#[trigger] half[i], key@) by {
                    assert(key_fits(keys[i], cv[0], ks));
                    lemma_keys_comparable(half[i], key@, cv[0], ks);
                }
            }
            match self.insert_into_internal(pager, page_num, key, new_child, cols) {
                Ok(()) => {},
                Err(e) => return Err(e),
            }
            proof {
                let idx = choose|idx: int| separator_place(half, key@, idx) && self.holds(
                    pager,
                    page_num as int,
                    NodeV::Internal {
                        parent: n0->Internal_parent,
                        keys: half.insert(idx, key@),
                        children: children.take(mid + 1).insert(idx + 1, new_child),
                    },
                    cv,
                );
                lemma_holds_ok(
                    self,
                    &s1,
                    pager,
                    page_num as int,
                    NodeV::Internal {
                        parent: n0->Internal_parent,
                        keys: half.insert(idx, key@),
                        children: children.take(mid + 1).insert(idx + 1, new_child),
                    },
                    cv,
                );
            }
        } else {
            let ghost half = keys.skip(mid + 1);
            proof {
                assert forall|i: int| 0 <= i < half.len() implies comparable(#[trigger] half[i], key@) by {
                    assert(key_fits(keys[i + mid + 1], cv[0], ks));
                    lemma_keys_comparable(half[i], key@, cv[0], ks);
                }
            }
            match self.insert_into_internal(pager, new_page, key, new_child, cols) {
                Ok(()) => {},
                Err(e) => return Err(e),
            }
            proof {
                let idx = choose|idx: int| separator_place(half, key@, idx) && self.holds(
                    pager,
                    new_page as int,
                    NodeV::Internal {
                        parent: n0->Internal_parent,
                        keys: half.insert(idx, key@),
                        children: moved.insert(idx + 1, new_child),
                    },
                    cv,
                );
                lemma_holds_ok(
                    self,
                    &s1,
                    pager,
                    new_page as int,
                    NodeV::Internal {
                        parent: n0->Internal_parent,
                        keys: half.insert(idx, key@),
                        children: moved.insert(idx + 1, new_child),
                    },
                    cv,
                );
            }
        }
        proof {
            let lv = crate::btree::left_half(n0->Internal_parent, keys, children, mid);
            let rv = crate::btree::right_half(n0->Internal_parent, keys, children, mid);
            assert forall|c: int| among(moved, moved.len() as int, c) implies self.holds(
                pager,
                c,
                #[trigger] self.node_at(&start, c, cv).with_parent(Some(new_page)),
                cv,
            ) by {
                assert(c != page_num && c != new_page);
                assert(self.split_node_at(&start, c, page_num as int, new_page as int, lv, rv, cv) == self.node_at(&start, c, cv));
                assert(self.holds(&s1, c, self.split_node_at(&start, c, page_num as int, new_page as int, lv, rv, cv).with_parent(Some(new_page)), cv));
                assert(pager.page(c) == s1.page(c));
            }
            assert forall|c: int| !among(moved, moved.len() as int, c) && c != page_num && c != new_page implies #[trigger] pager.page(c)
                == start.page(c) by {
                assert(s1.page(c) == start.page(c));
            }
        }
        Ok((split_key, new_page))
    }
}

impl BTree {
    /// Makes a new root page over two pages: an internal node with the
    /// separator `split_key` between them, and each of them its child.
    pub fn create_new_root(
        &mut self,
        pager: &mut Pager,
        split_key: &Value,
        left_child: usize,
        right_child: usize,
        cols: &[&Field],
    ) -> (r: Result<(), Error>)
        requires
            old(self).wf(),
            old(self).max_keys_per_internal >= 1,
            old(pager).wf(),
            old(pager).next() < 0xffff_ffff,
            old(self).pages_ok(old(pager), ref_views(cols@)),
            key_fits(split_key@, ref_views(cols@)[0], old(self).key_size as nat),
            left_child < old(pager).next(),
            right_child < old(pager).next(),
        ensures
            r is Ok,
            final(self).root_page == old(pager).next(),
            *final(self) == (BTree { root_page: final(self).root_page, ..*old(self) }),
            final(pager).wf(),
            final(pager).next() == old(pager).next() + 1,
            final(self).pages_ok(final(pager), ref_views(cols@)),
            final(self).holds(
                final(pager),
                old(pager).next() as int,
                NodeV::Internal {
                    parent: None,
                    keys: seq![split_key@],
                    children: seq![left_child, right_child],
                },
                ref_views(cols@),
            ),
            final(self).holds(
                final(pager),
                left_child as int,
                old(self).node_at(old(pager), left_child as int, ref_views(cols@)).with_parent(
                    Some(old(pager).next()),
                ),
                ref_views(cols@),
            ),
            final(self).holds(
                final(pager),
                right_child as int,
                old(self).node_at(old(pager), right_child as int, ref_views(cols@)).with_parent(
                    Some(old(pager).next()),
                ),
                ref_views(cols@),
            ),
            forall|n: int|
                n != old(pager).next() && n != left_child && n != right_child
                    ==> #[trigger] final(pager).page(n) == old(pager).page(n),
    {
        let ghost cv = ref_views(cols@);
        let ghost ks = self.key_size as nat;
        let ghost rs = self.row_size as nat;
        let ghost start = *pager;
        let new_root_page = pager.alloc_page();
        let mut keys: Vec<Value> = Vec::new();
        keys.push(split_key.copy());
        let mut children: Vec<usize> = Vec::new();
        children.push(left_child);
        children.push(right_child);
        let new_root = Node::Internal { parent: None, keys, children };
        let ghost root_v = NodeV::Internal {
            parent: None,
            keys: seq![split_key@],
            children: seq![left_child, right_child],
        };
        proof {
            assert(crate::node::key_views(new_root->Internal_keys@) =~= seq![split_key@]);
            assert(new_root->Internal_children@ =~= seq![left_child, right_child]);
            assert(new_root@ == root_v);
            assert(page_ok(start.page(left_child as int), ks, rs, cv));
            crate::btree::lemma_max_keys(0, ks);
            assert(crate::node::keys_fit(seq![split_key@], cv[0], ks));
            assert(node_fits(root_v, ks, rs, cv, PAGE_SIZE as nat));
            crate::node::lemma_fits_writable(root_v, ks, rs, cv, PAGE_SIZE as nat);
        }
        let ghost s0 = *pager;
        match self.write_node(pager, new_root_page, &new_root, cols) {
            Ok(()) => {},
            Err(e) => return Err(e),
        }
        proof {
            crate::btree::lemma_write_keeps_ok(self, &s0, pager, new_root_page as int, root_v, cv);
        }
        self.root_page = new_root_page;
        let ghost s1 = *pager;
        proof {
            assert(page_ok(s1.page(left_child as int), ks, rs, cv));
        }
        match self.set_parent(pager, left_child, new_root_page, cols) {
            Ok(()) => {},
            Err(e) => return Err(e),
        }
        let ghost s2 = *pager;
        proof {
            crate::btree::lemma_holds_ok(
                self,
                &s1,
                &s2,
                left_child as int,
                self.node_at(&s1, left_child as int, cv).with_parent(Some(new_root_page)),
                cv,
            );
            assert(page_ok(s2.page(right_child as int), ks, rs, cv));
        }
        match self.set_parent(pager, right_child, new_root_page, cols) {
            Ok(()) => {},
            Err(e) => return Err(e),
        }
        proof {
            crate::btree::lemma_holds_ok(
                self,
                &s2,
                pager,
                right_child as int,
                self.node_at(&s2, right_child as int, cv).with_parent(Some(new_root_page)),
                cv,
            );
            if left_child == right_child {
                assert(self.node_at(&s2, left_child as int, cv) == self.node_at(&start, left_child as int, cv).with_parent(Some(new_root_page)));
            } else {
                assert(pager.page(left_child as int) == s2.page(left_child as int));
                assert(s2.page(right_child as int) == s1.page(right_child as int));
            }
            assert(pager.page(new_root_page as int) == s1.page(new_root_page as int));
        }
        Ok(())
    }
}

/// A page holds at most as many cells as fit after its header.
proof fn lemma_within_cells(n: nat, cs: nat)
    requires
        cs > 0,
        crate::node::HEADER_SIZE + n * cs <= PAGE_SIZE,
    ensures
        n <= crate::btree::max_cells(cs),
{
    assert(n <= (4084 as nat) / cs) by (nonlinear_arith)
        requires
            cs > 0,
            n * cs <= 4084,
    ;
}

/// A page holds at most as many keys as fit after its header.
proof fn lemma_within_keys(n: nat, ks: nat)
    requires
        crate::node::HEADER_SIZE + n * (4 + ks) <= PAGE_SIZE,
    ensures
        n <= crate::btree::max_keys(ks),
{
    let c = (4 + ks) as nat;
    assert(n <= (4084 as nat) / c) by (nonlinear_arith)
        requires
            c > 0,
            n * c <= 4084,
    ;
}

/// A page keeps its level when a page above all pages gets one.
proof fn lemma_level_insert(
    tree: &BTree,
    before: &Pager,
    after: &Pager,
    more: Map<int, nat>,
    q: int,
    l: nat,
    p: int,
    cols: Seq<FieldV>,
)
    requires
        tree.shaped(before, more, cols),
        q >= before.next(),
        p != q,
        tree.level_ok(after, more, p, cols),
    ensures
        tree.level_ok(after, more.insert(q, l), p, cols),
{
    match tree.node_at(after, p, cols) {
        NodeV::Internal { children, .. } => {
            assert forall|k: int| 0 <= k < children.len() implies #[trigger] children[k] as int != q by {
                assert(more.dom().contains(children[k] as int));
                assert(tree.level_ok(before, more, children[k] as int, cols));
            }
            lemma_children_new_page(more, children, q, l, more[p] - 1);
        },
        NodeV::Leaf { .. } => {},
    }
}

impl BTree {
    /// After a child split and the page above split in turn, the shape holds
    /// with the new page at the page's level, and only pages at that level
    /// or below, or new ones, changed.
    proof fn lemma_split_shape(
        &self,
        s0: &Pager,
        s1: &Pager,
        s2: &Pager,
        levels: Map<int, nat>,
        more: Map<int, nat>,
        page_num: int,
        key: ValueV,
        new_sibling: usize,
        k2: ValueV,
        q2: usize,
        cv: Seq<FieldV>,
    )
        requires
            self.shaped(s0, levels, cv),
            levels.dom().contains(page_num),
            levels[page_num] > 0,
            self.node_at(s0, page_num, cv) is Internal,
            self.node_at(s0, page_num, cv)->Internal_keys.len() >= 1,
            page_ok(s0.page(page_num), self.key_size as nat, self.row_size as nat, cv),
            s1.page(page_num) == s0.page(page_num),
            grown(levels, more, s0.next() as int),
            self.shaped(s1, more, cv),
            more.dom().contains(new_sibling as int),
            more[new_sibling as int] == levels[page_num] - 1,
            s0.next() <= new_sibling < s1.next(),
            s0.next() <= s1.next(),
            self.changed_below(s0, s1, levels, (levels[page_num] - 1) as nat),
            self.internal_split_done(s1, s2, page_num, key, new_sibling, k2, q2, cv),
        ensures
            self.changed_below(s0, s2, levels, levels[page_num]),
            grown(levels, more.insert(q2 as int, levels[page_num]), s0.next() as int),
            self.shaped(s2, more.insert(q2 as int, levels[page_num]), cv),
            key_fits(k2, cv[0], self.key_size as nat),
            s0.next() <= q2 < s2.next(),
    {
        let ks = self.key_size as nat;
        let rs = self.row_size as nat;
        let h = levels[page_num];
        let n0 = self.node_at(s0, page_num, cv);
        assert(self.node_at(s1, page_num, cv) == n0);
        let kv = n0->Internal_keys;
        let ch = n0->Internal_children;
        let par = n0->Internal_parent;
        let mid = (kv.len() / 2) as int;
        let moved = ch.skip(mid + 1);
        let more2 = more.insert(q2 as int, h);
        let changed = Set::new(|p: int| p == page_num || p == q2 as int || among(moved, moved.len() as int, p));
        assert(self.level_ok(s0, levels, page_num, cv));
        assert(node_fits(n0, ks, rs, cv, PAGE_SIZE as nat));
        assert(key_fits(kv[mid], cv[0], ks));
        lemma_children_at(levels, more, s0.next() as int, ch, h - 1);
        assert forall|k: int| 0 <= k < ch.len() implies #[trigger] ch[k] as int != q2 as int by {
            assert(levels.dom().contains(ch[k] as int));
            assert(self.level_ok(s0, levels, ch[k] as int, cv));
        }
        lemma_children_new_page(more, ch, q2 as int, h, h - 1);
        assert(grown(more, more2, s1.next() as int));
        lemma_children_at(more2, more2, s1.next() as int, ch, h - 1);
        assert(more2.dom().contains(new_sibling as int) && more2[new_sibling as int] == h - 1);
        assert forall|p: int| more2.dom().contains(p) && #[trigger] changed.contains(p) implies self.level_ok(
            s2,
            more2,
            p,
            cv,
        ) by {
            if p == page_num {
                if value_leq(key, k2) {
                    let idx = choose|idx: int| #[trigger] separator_place(kv.take(mid), key, idx) && self.holds(
                        s2,
                        page_num,
                        NodeV::Internal {
                            parent: par,
                            keys: kv.take(mid).insert(idx, key),
                            children: ch.take(mid + 1).insert(idx + 1, new_sibling),
                        },
                        cv,
                    );
                    let w = choose|i: int, found: bool|
                        #[trigger] search_result(kv.take(mid), key, i, found) && idx == if found {
                            i + 1
                        } else {
                            i
                        };
                    assert(0 <= idx <= mid);
                    lemma_children_insert(more2, ch.take(mid + 1), idx + 1, new_sibling, h - 1);
                }
            } else if p == q2 as int {
                if !value_leq(key, k2) {
                    let idx = choose|idx: int| #[trigger] separator_place(kv.skip(mid + 1), key, idx) && self.holds(
                        s2,
                        q2 as int,
                        NodeV::Internal {
                            parent: par,
                            keys: kv.skip(mid + 1).insert(idx, key),
                            children: ch.skip(mid + 1).insert(idx + 1, new_sibling),
                        },
                        cv,
                    );
                    let w = choose|i: int, found: bool|
                        #[trigger] search_result(kv.skip(mid + 1), key, i, found) && idx == if found {
                            i + 1
                        } else {
                            i
                        };
                    assert(0 <= idx <= kv.len() - mid - 1);
                    lemma_children_insert(more2, ch.skip(mid + 1), idx + 1, new_sibling, h - 1);
                }
            } else {
                let k = choose|k: int| 0 <= k < moved.len() && moved[k] as int == p;
                assert(moved[k] == ch[k + mid + 1]);
                assert(more.dom().contains(p));
                assert(self.level_ok(s1, more, p, cv));
                lemma_parent_keeps_level(self, s1, s2, more, p, Some(q2), cv);
                lemma_level_insert(self, s1, s2, more, q2 as int, h, p, cv);
            }
        }
        lemma_shaped_step(self, s1, s2, more, more2, changed, cv);
        assert forall|p: int|
            0 <= p < s0.next() && !(levels.dom().contains(p) && levels[p] <= h) implies #[trigger] s2.page(p)
            == s0.page(p) by {
            assert(s1.page(p) == s0.page(p));
            if among(moved, moved.len() as int, p) {
                let k = choose|k: int| 0 <= k < moved.len() && moved[k] as int == p;
                assert(moved[k] == ch[k + mid + 1]);
                assert(levels.dom().contains(p));
            }
        }
    }
}

/// A cell size that leaves room for two cells leaves room for a key.
proof fn lemma_room_for_key(ks: nat, rs: nat)
    requires
        ks + rs > 0,
        crate::btree::max_cells((ks + rs) as nat) >= 2,
    ensures
        crate::btree::max_keys(ks) >= 1,
{
    let cs = (ks + rs) as nat;
    assert(2 * cs <= 4084) by (nonlinear_arith)
        requires
            cs > 0,
            (4084 as nat) / cs >= 2,
    ;
    assert((4084 as nat) / ((4 + ks) as nat) >= 1) by (nonlinear_arith)
        requires
            4 + ks <= 4084,
    ;
}

impl BTree {
    /// Page `p` holds a leaf with the cell of `key` and `row`.
    pub open spec fn stores(&self, pager: &Pager, p: int, key: ValueV, row: Seq<ValueV>, cols: Seq<FieldV>) -> bool {
        self.node_at(pager, p, cols) matches NodeV::Leaf { cells, .. } && cells.contains((key, row))
    }
}

impl BTree {
    /// Every cell that a leaf page of `before` holds, but those of a key equal
    /// to `key`, a leaf page of `after` holds.
    pub open spec fn cells_kept(&self, before: &Pager, after: &Pager, key: ValueV, cols: Seq<FieldV>) -> bool {
        forall|p: int, k: ValueV, v: Seq<ValueV>|
            0 <= p < before.next() && #[trigger] self.stores(before, p, k, v, cols) && value_sign(k, key) != 0
                ==> exists|p2: int| 0 <= p2 < after.next() && #[trigger] self.stores(after, p2, k, v, cols)
    }
}

/// Placing a cell where a search for its key stopped keeps every cell of
/// another key.
pub proof fn lemma_placed_keeps(
    cells: Seq<(ValueV, Seq<ValueV>)>,
    i: int,
    found: bool,
    cell: (ValueV, Seq<ValueV>),
    c: (ValueV, Seq<ValueV>),
)
    requires
        search_result(cell_keys(cells), cell.0, i, found),
        cells.contains(c),
        value_sign(c.0, cell.0) != 0,
    ensures
        placed(cells, i, found, cell).contains(c),
{
    let j = choose|j: int| 0 <= j < cells.len() && cells[j] == c;
    let r = placed(cells, i, found, cell);
    if found {
        assert(cell_keys(cells)[i] == cells[i].0);
        assert(j != i);
        assert(r[j] == c);
    } else if j < i {
        assert(r[j] == c);
    } else {
        assert(r[j + 1] == c);
    }
}

/// A cell of a leaf's cells is in the half before `mid` or in the one from it.
pub proof fn lemma_halves_contain(cells: Seq<(ValueV, Seq<ValueV>)>, mid: int, c: (ValueV, Seq<ValueV>))
    requires
        0 <= mid <= cells.len(),
        cells.contains(c),
    ensures
        cells.take(mid).contains(c) || cells.skip(mid).contains(c),
{
    let j = choose|j: int| 0 <= j < cells.len() && cells[j] == c;
    if j < mid {
        assert(cells.take(mid)[j] == c);
    } else {
        assert(cells.skip(mid)[j - mid] == c);
    }
}

/// The cell placed where a search stopped is among the cells after.
pub proof fn lemma_placed_contains(
    cells: Seq<(ValueV, Seq<ValueV>)>,
    i: int,
    found: bool,
    cell: (ValueV, Seq<ValueV>),
)
    requires
        search_result(cell_keys(cells), cell.0, i, found),
    ensures
        placed(cells, i, found, cell).contains(cell),
{
    assert(placed(cells, i, found, cell)[i] == cell);
}

impl BTree {
    /// What inserting `key` and `row` below page `page_num` (at its level in
    /// `levels`) gives: every page still holds a node, at most one new page
    /// per level, changes only at that level and below, the shape kept with
    /// any new page at its level, a new page at the same level when the page
    /// split, and a leaf with room simply taking the cell.
    pub open spec fn insert_done(
        &self,
        before: &Pager,
        after: &Pager,
        levels: Map<int, nat>,
        page_num: int,
        key: ValueV,
        row: Seq<ValueV>,
        cols: Seq<FieldV>,
        r: Result<Option<(Value, usize)>, Error>,
    ) -> bool {
        &&& r is Ok
        &&& after.wf()
        &&& self.pages_ok(after, cols)
        &&& before.next() <= after.next() <= before.next() + levels[page_num] + 1
        &&& exists|p: int| 0 <= p < after.next() && #[trigger] self.stores(after, p, key, row, cols)
        &&& self.cells_kept(before, after, key, cols)
        &&& self.changed_below(before, after, levels, levels[page_num])
        &&& exists|more: Map<int, nat>|
            #[trigger] grown(levels, more, before.next() as int) && self.shaped(after, more, cols) && (r matches Ok(
                Some((k, q)),
            ) ==> {
                &&& more.dom().contains(q as int)
                &&& more[q as int] == levels[page_num]
                &&& before.next() <= q < after.next()
                &&& key_fits(k@, cols[0], self.key_size as nat)
            })
        &&& match self.node_at(before, page_num, cols) {
            NodeV::Leaf { parent, cells, next_leaf } => cells.len() < self.max_cells_per_leaf ==> {
                &&& r matches Ok(None)
                &&& after.next() == before.next()
                &&& exists|i: int, found: bool|
                    search_result(cell_keys(cells), key, i, found) && self.holds(
                        after,
                        page_num,
                        NodeV::Leaf { parent, cells: placed(cells, i, found, (key, row)), next_leaf },
                        cols,
                    )
            },
            NodeV::Internal { .. } => true,
        }
    }

    /// Inserts into the leaf page `page_num` of `n_cells` cells: in place
    /// when there is room, otherwise by splitting it.
    fn insert_at_leaf(
        &self,
        pager: &mut Pager,
        page_num: usize,
        n_cells: usize,
        key: &Value,
        row: &Record,
        cols: &[&Field],
        Ghost(levels): Ghost<Map<int, nat>>,
    ) -> (r: Result<Option<(Value, usize)>, Error>)
        requires
            self.wf(),
            old(pager).wf(),
            self.max_cells_per_leaf >= 2,
            self.pages_ok(old(pager), ref_views(cols@)),
            self.shaped(old(pager), levels, ref_views(cols@)),
            levels.dom().contains(page_num as int),
            old(pager).next() + levels[page_num as int] + 1 < 0xffff_ffff,
            key_fits(key@, ref_views(cols@)[0], self.key_size as nat),
            fits_columns(row@, ref_views(cols@)),
            self.node_at(old(pager), page_num as int, ref_views(cols@)) matches NodeV::Leaf { cells, .. }
                && cells.len() == n_cells,
        ensures
            self.insert_done(
                old(pager),
                final(pager),
                levels,
                page_num as int,
                key@,
                row@,
                ref_views(cols@),
                r,
            ),
    {
        let ghost cv = ref_views(cols@);
        let ghost ks = self.key_size as nat;
        let ghost rs = self.row_size as nat;
        let ghost s0 = *pager;
        let ghost n0 = self.node_at(&s0, page_num as int, cv);
        let ghost cw = n0->Leaf_cells;
        proof {
            assert(self.level_ok(&s0, levels, page_num as int, cv));
            assert(page_ok(s0.page(page_num as int), ks, rs, cv));
            assert(node_fits(n0, ks, rs, cv, PAGE_SIZE as nat));
            lemma_within_cells(cw.len(), self.cell_size as nat);
            assert(self.holds(&s0, page_num as int, n0, cv));
            assert forall|j: int| 0 <= j < cw.len() implies comparable(#[trigger] cw[j].0, key@) by {
                assert(crate::node::cell_fits(cw, cv, ks, j));
                lemma_keys_comparable(cw[j].0, key@, cv[0], ks);
            }
        }
        if n_cells < self.max_cells_per_leaf {
            match self.insert_into_leaf(pager, page_num, key, row, cols) {
                Ok(()) => {},
                Err(e) => return Err(e),
            }
            proof {
                let w = choose|i: int, found: bool| search_result(cell_keys(cw), key@, i, found) && self.holds(
                    pager,
                    page_num as int,
                    NodeV::Leaf {
                        parent: n0->Leaf_parent,
                        cells: placed(cw, i, found, (key@, row@)),
                        next_leaf: n0->Leaf_next_leaf,
                    },
                    cv,
                );
                let nn = NodeV::Leaf {
                    parent: n0->Leaf_parent,
                    cells: placed(cw, w.0, w.1, (key@, row@)),
                    next_leaf: n0->Leaf_next_leaf,
                };
                lemma_holds_ok(self, &s0, pager, page_num as int, nn, cv);
                assert(self.level_ok(pager, levels, page_num as int, cv));
                lemma_shaped_step(self, &s0, pager, levels, levels, set![page_num as int], cv);
                assert(grown(levels, levels, s0.next() as int));
                lemma_placed_contains(cw, w.0, w.1, (key@, row@));
                assert(self.stores(pager, page_num as int, key@, row@, cv));
                assert forall|p: int, k: ValueV, v: Seq<ValueV>|
                    0 <= p < s0.next() && #[trigger] self.stores(&s0, p, k, v, cv) && value_sign(k, key@) != 0
                        implies exists|p2: int| 0 <= p2 < pager.next() && #[trigger] self.stores(pager, p2, k, v, cv) by {
                    if p == page_num as int {
                        lemma_placed_keeps(cw, w.0, w.1, (key@, row@), (k, v));
                        assert(self.stores(pager, p, k, v, cv));
                    } else {
                        assert(pager.page(p) == s0.page(p));
                        assert(self.stores(pager, p, k, v, cv));
                    }
                }
            }
            Ok(None)
        } else {
            let (sk, q) = match self.split_leaf_and_insert(pager, page_num, key, row, cols) {
                Ok(t) => t,
                Err(e) => return Err(e),
            };
            proof {
                let more = levels.insert(q as int, 0);
                assert(crate::node::cell_fits(cw, cv, ks, (cw.len() / 2) as int));
                assert(self.level_ok(pager, more, page_num as int, cv));
                assert(self.level_ok(pager, more, q as int, cv));
                lemma_shaped_step(self, &s0, pager, levels, more, set![page_num as int, q as int], cv);
                assert(grown(levels, more, s0.next() as int));
                let mid = (cw.len() / 2) as int;
                let pw = if value_leq(key@, sk@) {
                    choose|i: int, found: bool|
                        search_result(cell_keys(cw.take(mid)), key@, i, found) && self.holds(
                            pager,
                            page_num as int,
                            NodeV::Leaf {
                                parent: n0->Leaf_parent,
                                cells: placed(cw.take(mid), i, found, (key@, row@)),
                                next_leaf: Some(q),
                            },
                            cv,
                        )
                } else {
                    choose|i: int, found: bool|
                        search_result(cell_keys(cw.skip(mid)), key@, i, found) && self.holds(
                            pager,
                            q as int,
                            NodeV::Leaf {
                                parent: n0->Leaf_parent,
                                cells: placed(cw.skip(mid), i, found, (key@, row@)),
                                next_leaf: n0->Leaf_next_leaf,
                            },
                            cv,
                        )
                };
                assert forall|p: int, k: ValueV, v: Seq<ValueV>|
                    0 <= p < s0.next() && #[trigger] self.stores(&s0, p, k, v, cv) && value_sign(k, key@) != 0
                        implies exists|p2: int| 0 <= p2 < pager.next() && #[trigger] self.stores(pager, p2, k, v, cv) by {
                    if p == page_num as int {
                        lemma_halves_contain(cw, mid, (k, v));
                        if value_leq(key@, sk@) {
                            if cw.take(mid).contains((k, v)) {
                                lemma_placed_keeps(cw.take(mid), pw.0, pw.1, (key@, row@), (k, v));
                                assert(self.stores(pager, page_num as int, k, v, cv));
                            } else {
                                assert(self.stores(pager, q as int, k, v, cv));
                            }
                        } else {
                            if cw.take(mid).contains((k, v)) {
                                assert(self.stores(pager, page_num as int, k, v, cv));
                            } else {
                                lemma_placed_keeps(cw.skip(mid), pw.0, pw.1, (key@, row@), (k, v));
                                assert(self.stores(pager, q as int, k, v, cv));
                            }
                        }
                    } else {
                        assert(p != q);
                        assert(pager.page(p) == s0.page(p));
                        assert(self.stores(pager, p, k, v, cv));
                    }
                }
                if value_leq(key@, sk@) {
                    let w = choose|i: int, found: bool|
                        search_result(cell_keys(cw.take(mid)), key@, i, found) && self.holds(
                            pager,
                            page_num as int,
                            NodeV::Leaf {
                                parent: n0->Leaf_parent,
                                cells: placed(cw.take(mid), i, found, (key@, row@)),
                                next_leaf: Some(q),
                            },
                            cv,
                        );
                    lemma_placed_contains(cw.take(mid), w.0, w.1, (key@, row@));
                    assert(self.stores(pager, page_num as int, key@, row@, cv));
                } else {
                    let w = choose|i: int, found: bool|
                        search_result(cell_keys(cw.skip(mid)), key@, i, found) && self.holds(
                            pager,
                            q as int,
                            NodeV::Leaf {
                                parent: n0->Leaf_parent,
                                cells: placed(cw.skip(mid), i, found, (key@, row@)),
                                next_leaf: n0->Leaf_next_leaf,
                            },
                            cv,
                        );
                    lemma_placed_contains(cw.skip(mid), w.0, w.1, (key@, row@));
                    assert(self.stores(pager, q as int, key@, row@, cv));
                }
            }
            Ok(Some((sk, q)))
        }
    }

    /// Takes into the internal page `page_num` (of `n_keys` keys, unchanged
    /// since `s0`) the separator and the new page a child's split gave: in
    /// place when there is room, otherwise by splitting the page.
    fn absorb_split(
        &self,
        pager: &mut Pager,
        page_num: usize,
        n_keys: usize,
        split_key: &Value,
        new_sibling: usize,
        cols: &[&Field],
        Ghost(levels): Ghost<Map<int, nat>>,
        Ghost(more): Ghost<Map<int, nat>>,
        Ghost(s0): Ghost<Pager>,
    ) -> (r: Result<Option<(Value, usize)>, Error>)
        requires
            self.wf(),
            old(pager).wf(),
            self.max_keys_per_internal >= 1,
            self.pages_ok(old(pager), ref_views(cols@)),
            self.shaped(&s0, levels, ref_views(cols@)),
            levels.dom().contains(page_num as int),
            levels[page_num as int] > 0,
            self.node_at(&s0, page_num as int, ref_views(cols@)) matches NodeV::Internal { keys, .. } && keys.len()
                == n_keys,
            old(pager).page(page_num as int) == s0.page(page_num as int),
            grown(levels, more, s0.next() as int),
            self.shaped(old(pager), more, ref_views(cols@)),
            more.dom().contains(new_sibling as int),
            more[new_sibling as int] == levels[page_num as int] - 1,
            s0.next() <= new_sibling < old(pager).next(),
            s0.next() <= old(pager).next() <= s0.next() + levels[page_num as int],
            s0.next() + levels[page_num as int] + 1 < 0xffff_ffff,
            key_fits(split_key@, ref_views(cols@)[0], self.key_size as nat),
            self.changed_below(&s0, old(pager), levels, (levels[page_num as int] - 1) as nat),
        ensures
            r is Ok,
            final(pager).wf(),
            self.pages_ok(final(pager), ref_views(cols@)),
            old(pager).next() <= final(pager).next() <= old(pager).next() + 1,
            self.changed_below(&s0, final(pager), levels, levels[page_num as int]),
            if n_keys < self.max_keys_per_internal {
                &&& r matches Ok(None)
                &&& final(pager).next() == old(pager).next()
                &&& forall|n: int| n != page_num ==> #[trigger] final(pager).page(n) == old(pager).page(n)
                &&& match self.node_at(old(pager), page_num as int, ref_views(cols@)) {
                    NodeV::Internal { parent, keys, children } => exists|idx: int|
                        separator_place(keys, split_key@, idx) && self.holds(
                            final(pager),
                            page_num as int,
                            NodeV::Internal {
                                parent,
                                keys: keys.insert(idx, split_key@),
                                children: children.insert(idx + 1, new_sibling),
                            },
                            ref_views(cols@),
                        ),
                    NodeV::Leaf { .. } => false,
                }
            } else {
                r matches Ok(Some((k, q))) && self.internal_split_done(
                    old(pager),
                    final(pager),
                    page_num as int,
                    split_key@,
                    new_sibling,
                    k@,
                    q,
                    ref_views(cols@),
                )
            },
            exists|more2: Map<int, nat>|
                #[trigger] grown(levels, more2, s0.next() as int) && self.shaped(final(pager), more2, ref_views(cols@))
                    && (r matches Ok(Some((k, q))) ==> {
                    &&& more2.dom().contains(q as int)
                    &&& more2[q as int] == levels[page_num as int]
                    &&& s0.next() <= q < final(pager).next()
                    &&& key_fits(k@, ref_views(cols@)[0], self.key_size as nat)
                }),
    {
        let ghost cv = ref_views(cols@);
        let ghost ks = self.key_size as nat;
        let ghost rs = self.row_size as nat;
        let ghost s1 = *pager;
        let ghost h = levels[page_num as int];
        let ghost n0 = self.node_at(&s0, page_num as int, cv);
        let ghost kv = n0->Internal_keys;
        let ghost ch = n0->Internal_children;
        proof {
            assert(self.level_ok(&s0, levels, page_num as int, cv));
            assert(page_ok(s0.page(page_num as int), ks, rs, cv));
            assert(node_fits(n0, ks, rs, cv, PAGE_SIZE as nat));
            assert forall|j: int| 0 <= j < kv.len() implies comparable(#[trigger] kv[j], split_key@) by {
                assert(key_fits(kv[j], cv[0], ks));
                lemma_keys_comparable(kv[j], split_key@, cv[0], ks);
            }
            lemma_within_keys(kv.len(), ks);
            lemma_children_at(levels, more, s0.next() as int, ch, h - 1);
            assert forall|k: int| 0 <= k < ch.len() implies #[trigger] ch[k] != page_num && ch[k] < s0.next() by {
                assert(levels.dom().contains(ch[k] as int));
                assert(self.level_ok(&s0, levels, ch[k] as int, cv));
            }
        }
        if n_keys < self.max_keys_per_internal {
            match self.insert_into_internal(pager, page_num, split_key, new_sibling, cols) {
                Ok(()) => {},
                Err(e) => return Err(e),
            }
            proof {
                let idx = choose|idx: int| #[trigger] separator_place(kv, split_key@, idx) && self.holds(
                    pager,
                    page_num as int,
                    NodeV::Internal {
                        parent: n0->Internal_parent,
                        keys: kv.insert(idx, split_key@),
                        children: ch.insert(idx + 1, new_sibling),
                    },
                    cv,
                );
                let nn = NodeV::Internal {
                    parent: n0->Internal_parent,
                    keys: kv.insert(idx, split_key@),
                    children: ch.insert(idx + 1, new_sibling),
                };
                lemma_holds_ok(self, &s1, pager, page_num as int, nn, cv);
                assert(self.level_ok(pager, more, page_num as int, cv)) by {
                    lemma_children_insert(more, ch, idx + 1, new_sibling, h - 1);
                }
                lemma_shaped_step(self, &s1, pager, more, more, set![page_num as int], cv);
                assert forall|p: int|
                    0 <= p < s0.next() && !(levels.dom().contains(p) && levels[p] <= h) implies #[trigger] pager.page(p)
                    == s0.page(p) by {
                    assert(s1.page(p) == s0.page(p));
                }
            }
            Ok(None)
        } else {
            let (k2, q2) = match self.split_internal_and_insert(pager, page_num, split_key, new_sibling, cols) {
                Ok(t) => t,
                Err(e) => return Err(e),
            };
            proof {
                self.lemma_split_shape(&s0, &s1, pager, levels, more, page_num as int, split_key@, new_sibling, k2@, q2, cv);
            }
            Ok(Some((k2, q2)))
        }
    }

    /// Inserts `key` and `row` below page `page_num`, whose level in
    /// `levels` bounds the recursion. Gives the separator and the new page
    /// when the page split.
    fn insert_down(
        &self,
        pager: &mut Pager,
        page_num: usize,
        key: &Value,
        row: &Record,
        cols: &[&Field],
        Ghost(levels): Ghost<Map<int, nat>>,
    ) -> (r: Result<Option<(Value, usize)>, Error>)
        requires
            self.wf(),
            old(pager).wf(),
            self.max_cells_per_leaf >= 2,
            self.pages_ok(old(pager), ref_views(cols@)),
            self.shaped(old(pager), levels, ref_views(cols@)),
            levels.dom().contains(page_num as int),
            old(pager).next() + levels[page_num as int] + 1 < 0xffff_ffff,
            key_fits(key@, ref_views(cols@)[0], self.key_size as nat),
            fits_columns(row@, ref_views(cols@)),
        ensures
            self.insert_done(
                old(pager),
                final(pager),
                levels,
                page_num as int,
                key@,
                row@,
                ref_views(cols@),
                r,
            ),
        decreases levels[page_num as int],
    {
        let ghost cv = ref_views(cols@);
        let ghost ks = self.key_size as nat;
        let ghost rs = self.row_size as nat;
        let ghost s0 = *pager;
        let ghost h = levels[page_num as int];
        proof {
            assert(self.level_ok(&s0, levels, page_num as int, cv));
            assert(page_ok(s0.page(page_num as int), ks, rs, cv));
            lemma_room_for_key(ks, rs);
        }
        let node = match self.read_node(pager, page_num, cols) {
            Ok(n) => n,
            Err(e) => return Err(e),
        };
        let ghost n0 = node@;
        let ghost s0r = *pager;
        proof {
            assert(node_fits(n0, ks, rs, cv, PAGE_SIZE as nat));
        }
        match node {
            Node::Internal { keys, children, .. } => {
                let ghost kv = crate::node::key_views(keys@);
                proof {
                    assert forall|i: int| 0 <= i < keys@.len() implies comparable(#[trigger] keys@[i]@, key@) by {
                        assert(kv[i] == keys@[i]@);
                        assert(key_fits(kv[i], cv[0], ks));
                        lemma_keys_comparable(kv[i], key@, cv[0], ks);
                    }
                }
                let (i, found) = crate::btree::search_keys(&keys, key);
                let child_idx = if found {
                    i + 1
                } else {
                    i
                };
                let child = children[child_idx];
                proof {
                    assert(levels.dom().contains(child as int));
                    assert(levels[child as int] == h - 1);
                }
                let sub = self.insert_down(pager, child, key, row, cols, Ghost(levels));
                let ghost s1 = *pager;
                proof {
                    assert(s1.page(page_num as int) == s0.page(page_num as int));
                    assert forall|p: int, k: ValueV, v: Seq<ValueV>|
                        0 <= p < s0.next() && #[trigger] self.stores(&s0, p, k, v, cv) && value_sign(k, key@) != 0
                            implies exists|p2: int| 0 <= p2 < s1.next() && #[trigger] self.stores(&s1, p2, k, v, cv) by {
                        assert(s0r.page(p) == s0.page(p));
                        assert(self.stores(&s0r, p, k, v, cv));
                    }
                }
                match sub {
                    Ok(Some((split_key, new_sibling))) => {
                        let ghost more = choose|more: Map<int, nat>|
                            #[trigger] grown(levels, more, s0.next() as int) && self.shaped(&s1, more, cv) && (sub matches Ok(
                                Some((k, q)),
                            ) ==> {
                                &&& more.dom().contains(q as int)
                                &&& more[q as int] == levels[child as int]
                                &&& s0.next() <= q < s1.next()
                                &&& key_fits(k@, cv[0], ks)
                            });
                        let r = self.absorb_split(
                            pager,
                            page_num,
                            keys.len(),
                            &split_key,
                            new_sibling,
                            cols,
                            Ghost(levels),
                            Ghost(more),
                            Ghost(s0),
                        );
                        proof {
                            let sp = choose|sp: int| 0 <= sp < s1.next() && #[trigger] self.stores(&s1, sp, key@, row@, cv);
                            assert(self.node_at(&s1, page_num as int, cv) is Internal);
                            assert(sp != page_num);
                            if keys.len() < self.max_keys_per_internal {
                                assert(pager.page(sp) == s1.page(sp));
                            } else {
                                let (k2, q2) = r->Ok_0->0;
                                let moved = self.node_at(&s1, page_num as int, cv)->Internal_children.skip(
                                    (self.node_at(&s1, page_num as int, cv)->Internal_keys.len() / 2) as int + 1,
                                );
                                if among(moved, moved.len() as int, sp) {
                                    assert(self.holds(
                                        pager,
                                        sp,
                                        self.node_at(&s1, sp, cv).with_parent(Some(q2)),
                                        cv,
                                    ));
                                } else {
                                    assert(pager.page(sp) == s1.page(sp));
                                }
                            }
                            assert(self.stores(pager, sp, key@, row@, cv));
                            assert forall|p: int, k: ValueV, v: Seq<ValueV>|
                                0 <= p < s0.next() && #[trigger] self.stores(&s0, p, k, v, cv) && value_sign(k, key@)
                                    != 0 implies exists|p2: int| 0 <= p2 < pager.next() && #[trigger] self.stores(
                                pager,
                                p2,
                                k,
                                v,
                                cv,
                            ) by {
                                assert(self.cells_kept(&s0, &s1, key@, cv));
                                assert(exists|p1: int| 0 <= p1 < s1.next() && #[trigger] self.stores(&s1, p1, k, v, cv));
                                let p1 = choose|p1: int| 0 <= p1 < s1.next() && #[trigger] self.stores(&s1, p1, k, v, cv);
                                assert(self.node_at(&s1, page_num as int, cv) is Internal);
                                assert(p1 != page_num);
                                if keys.len() < self.max_keys_per_internal {
                                    assert(pager.page(p1) == s1.page(p1));
                                } else {
                                    let (k2, q2) = r->Ok_0->0;
                                    let moved = self.node_at(&s1, page_num as int, cv)->Internal_children.skip(
                                        (self.node_at(&s1, page_num as int, cv)->Internal_keys.len() / 2) as int + 1,
                                    );
                                    if among(moved, moved.len() as int, p1) {
                                        assert(self.holds(
                                            pager,
                                            p1,
                                            self.node_at(&s1, p1, cv).with_parent(Some(q2)),
                                            cv,
                                        ));
                                    } else {
                                        assert(pager.page(p1) == s1.page(p1));
                                    }
                                }
                                assert(self.stores(pager, p1, k, v, cv));
                            }
                        }
                        r
                    },
                    Ok(None) => Ok(None),
                    Err(e) => Err(e),
                }
            },
            Node::Leaf { cells, .. } => {
                let r = self.insert_at_leaf(pager, page_num, cells.len(), key, row, cols, Ghost(levels));
                proof {
                    assert forall|p: int, k: ValueV, v: Seq<ValueV>|
                        0 <= p < s0.next() && #[trigger] self.stores(&s0, p, k, v, cv) && value_sign(k, key@) != 0
                            implies exists|p2: int| 0 <= p2 < pager.next() && #[trigger] self.stores(pager, p2, k, v, cv) by {
                        assert(s0r.page(p) == s0.page(p));
                        assert(self.stores(&s0r, p, k, v, cv));
                    }
                }
                r
            },
        }
    }
}

impl BTree {
    /// Inserts `key` and `values` below page `page_num`. Gives the separator
    /// and the new page when the page split.
    pub fn insert_recursive(
        &self,
        pager: &mut Pager,
        page_num: usize,
        key: &Value,
        values: &Record,
        cols: &[&Field],
    ) -> (r: Result<Option<(Value, usize)>, Error>)
        requires
            self.wf(),
            old(pager).wf(),
            self.max_cells_per_leaf >= 2,
            self.pages_ok(old(pager), ref_views(cols@)),
            exists|levels: Map<int, nat>|
                #[trigger] self.shaped(old(pager), levels, ref_views(cols@)) && levels.dom().contains(page_num as int)
                    && old(pager).next() + levels[page_num as int] + 1 < 0xffff_ffff,
            key_fits(key@, ref_views(cols@)[0], self.key_size as nat),
            fits_columns(values@, ref_views(cols@)),
        ensures
            exists|levels: Map<int, nat>|
                #[trigger] self.shaped(old(pager), levels, ref_views(cols@)) && levels.dom().contains(page_num as int)
                    && self.insert_done(
                    old(pager),
                    final(pager),
                    levels,
                    page_num as int,
                    key@,
                    values@,
                    ref_views(cols@),
                    r,
                ),
    {
        let ghost cv = ref_views(cols@);
        let ghost levels = choose|levels: Map<int, nat>|
            #[trigger] self.shaped(old(pager), levels, cv) && levels.dom().contains(page_num as int) && old(pager).next()
                + levels[page_num as int] + 1 < 0xffff_ffff;
        proof {
            assert(self.level_ok(old(pager), levels, page_num as int, cv));
        }
        self.insert_down(pager, page_num, key, values, cols, Ghost(levels))
    }

    /// Inserts `key` and `row` into the tree, over the row of an equal key if
    /// there is one. When the root splits, a new root above the two halves
    /// takes its place. Afterwards a leaf page holds the cell of `key` and
    /// `row`, and every cell that a leaf page held before, but those of a key
    /// equal to `key`, a leaf page still holds.
    pub fn insert(&mut self, pager: &mut Pager, key: &Value, row: &Record, cols: &[&Field]) -> (r: Result<
        (),
        Error,
    >)
        requires
            old(self).wf(),
            old(self).max_cells_per_leaf >= 2,
            old(pager).wf(),
            old(self).pages_ok(old(pager), ref_views(cols@)),
            old(self).tree_shaped(old(pager), ref_views(cols@)),
            2 * old(pager).next() + 2 < 0xffff_ffff,
            key_fits(key@, ref_views(cols@)[0], old(self).key_size as nat),
            fits_columns(row@, ref_views(cols@)),
        ensures
            r is Ok,
            *final(self) == (BTree { root_page: final(self).root_page, ..*old(self) }),
            final(pager).wf(),
            final(self).pages_ok(final(pager), ref_views(cols@)),
            final(self).tree_shaped(final(pager), ref_views(cols@)),
            old(pager).next() <= final(pager).next() <= 2 * old(pager).next() + 1,
            final(self).root_page == old(self).root_page || final(self).root_page >= old(pager).next(),
            exists|p: int|
                0 <= p < final(pager).next() && #[trigger] final(self).stores(
                    final(pager),
                    p,
                    key@,
                    row@,
                    ref_views(cols@),
                ),
            final(self).cells_kept(old(pager), final(pager), key@, ref_views(cols@)),
            match old(self).node_at(old(pager), old(self).root_page as int, ref_views(cols@)) {
                NodeV::Leaf { parent, cells, next_leaf } => cells.len() < old(self).max_cells_per_leaf ==> {
                    &&& final(self).root_page == old(self).root_page
                    &&& final(pager).next() == old(pager).next()
                    &&& exists|i: int, found: bool|
                        search_result(cell_keys(cells), key@, i, found) && final(self).holds(
                            final(pager),
                            old(self).root_page as int,
                            NodeV::Leaf { parent, cells: placed(cells, i, found, (key@, row@)), next_leaf },
                            ref_views(cols@),
                        )
                },
                NodeV::Internal { .. } => true,
            },
    {
        let ghost cv = ref_views(cols@);
        let ghost ks = self.key_size as nat;
        let ghost rs = self.row_size as nat;
        let ghost s0 = *pager;
        let old_root = self.root_page;
        let ghost levels = choose|levels: Map<int, nat>|
            self.shaped(&s0, levels, cv) && #[trigger] levels.dom().contains(old_root as int);
        proof {
            assert(self.level_ok(&s0, levels, old_root as int, cv));
            assert(self.shaped(&s0, levels, cv) && levels.dom().contains(old_root as int) && s0.next()
                + levels[old_root as int] + 1 < 0xffff_ffff);
        }
        let sub = self.insert_recursive(pager, old_root, key, row, cols);
        let ghost s1 = *pager;
        let ghost lv = choose|lv: Map<int, nat>|
            #[trigger] self.shaped(&s0, lv, cv) && lv.dom().contains(old_root as int) && self.insert_done(
                &s0,
                &s1,
                lv,
                old_root as int,
                key@,
                row@,
                cv,
                sub,
            );
        let ghost more = choose|more: Map<int, nat>|
            #[trigger] grown(lv, more, s0.next() as int) && self.shaped(&s1, more, cv) && (sub matches Ok(
                Some((k, q)),
            ) ==> {
                &&& more.dom().contains(q as int)
                &&& more[q as int] == lv[old_root as int]
                &&& s0.next() <= q < s1.next()
                &&& key_fits(k@, cv[0], ks)
            });
        proof {
            assert(self.level_ok(&s0, lv, old_root as int, cv));
            assert(more.dom().contains(old_root as int));
        }
        match sub {
            Ok(Some((split_key, new_sibling))) => {
                proof {
                    lemma_room_for_key(ks, rs);
                }
                let ghost h = lv[old_root as int];
                match self.create_new_root(pager, &split_key, old_root, new_sibling, cols) {
                    Ok(()) => {},
                    Err(e) => return Err(e),
                }
                proof {
                    let nr = s1.next() as int;
                    let more3 = more.insert(nr, h + 1);
                    let changed = set![nr, old_root as int, new_sibling as int];
                    assert(self.level_ok(&s1, more, old_root as int, cv));
                    assert(self.level_ok(&s1, more, new_sibling as int, cv));
                    lemma_parent_keeps_level(self, &s1, pager, more, old_root as int, Some(s1.next()), cv);
                    lemma_parent_keeps_level(self, &s1, pager, more, new_sibling as int, Some(s1.next()), cv);
                    lemma_level_insert(self, &s1, pager, more, nr, h + 1, old_root as int, cv);
                    lemma_level_insert(self, &s1, pager, more, nr, h + 1, new_sibling as int, cv);
                    assert(children_at(more3, seq![old_root, new_sibling], h as int)) by {
                        assert(seq![old_root, new_sibling][0] == old_root);
                        assert(seq![old_root, new_sibling][1] == new_sibling);
                    }
                    assert(self.level_ok(pager, more3, nr, cv));
                    lemma_shaped_step(self, &s1, pager, more, more3, changed, cv);
                    assert(more3.dom().contains(self.root_page as int));
                    let sp = choose|sp: int| 0 <= sp < s1.next() && #[trigger] old(self).stores(&s1, sp, key@, row@, cv);
                    if sp == old_root as int {
                        assert(self.holds(
                            pager,
                            sp,
                            old(self).node_at(&s1, sp, cv).with_parent(Some(s1.next())),
                            cv,
                        ));
                    } else if sp == new_sibling as int {
                        assert(self.holds(
                            pager,
                            sp,
                            old(self).node_at(&s1, sp, cv).with_parent(Some(s1.next())),
                            cv,
                        ));
                    } else {
                        assert(pager.page(sp) == s1.page(sp));
                    }
                    assert(self.stores(pager, sp, key@, row@, cv));
                    assert forall|p: int, k: ValueV, v: Seq<ValueV>|
                        0 <= p < s0.next() && #[trigger] self.stores(&s0, p, k, v, cv) && value_sign(k, key@) != 0
                            implies exists|p2: int| 0 <= p2 < pager.next() && #[trigger] self.stores(pager, p2, k, v, cv) by {
                        assert(old(self).stores(&s0, p, k, v, cv));
                        let p1 = choose|p1: int| 0 <= p1 < s1.next() && #[trigger] old(self).stores(&s1, p1, k, v, cv);
                        if p1 == old_root as int || p1 == new_sibling as int {
                            assert(self.holds(
                                pager,
                                p1,
                                old(self).node_at(&s1, p1, cv).with_parent(Some(s1.next())),
                                cv,
                            ));
                        } else {
                            assert(pager.page(p1) == s1.page(p1));
                        }
                        assert(self.stores(pager, p1, k, v, cv));
                    }
                }
                Ok(())
            },
            Ok(None) => Ok(()),
            Err(e) => Err(e),
        }
    }
}

} // verus!
