use vstd::prelude::*;
use vstd::slice::slice_subrange;

use crate::codec::{
    le_u16_at, le_u32_at, read_u16, read_u32, splice, u16_bytes, u32_bytes, write_bytes, write_u16,
    write_u32,
};
use crate::error::Error;
use crate::pager::PAGE_SIZE;
use crate::field::{byte_size_of, Field, FieldExt, FieldV};
use crate::record::{
    column_readable, decoded_record, fits_columns, lemma_record_roundtrip, lemma_row_holds_decodes,
    lemma_written_record_len, lemma_written_record_local, lemma_written_row_holds, pairs,
    record_readable, record_writable, ref_views, row_holds, within_columns, written_record, Record,
};
use crate::schema::row_size_of;
use crate::value::{
    decoded, encoded, lemma_encoded_len, lemma_value_decodes, needed, readable_from, round_trips,
    Value, ValueV,
};

verus! {

/// Bytes of the header that opens every node page.
pub const HEADER_SIZE: usize = 12;

/// The pointer value that stands for "no page".
pub open spec fn null_page() -> u32 {
    0xffff_ffff
}

/*
 * NODE HEADER (12 bytes)
 * +0   u8    is_leaf      0=internal, !0=leaf
 * +1   u8    is_root      0=root, 1=not root
 * +2   u32   parent       0xFFFFFFFF=NULL
 * +6   u16   num_cells
 * +8   u32   right_child  (internal) / next_leaf (leaf), 0xFFFFFFFF=NULL
 *
 * INTERNAL NODE: [HEADER][child0|key0][child1|key1]...   (N keys, N+1 children;
 *                the last child is the header's right_child)
 * LEAF NODE:     [HEADER][key0|row0][key1|row1]...
 */
#[derive(Debug)]
pub enum Node {
    Internal { parent: Option<usize>, keys: Vec<Value>, children: Vec<usize> },
    Leaf { parent: Option<usize>, cells: Vec<(Value, Record)>, next_leaf: Option<usize> },
}

pub ghost enum NodeV {
    Internal { parent: Option<usize>, keys: Seq<ValueV>, children: Seq<usize> },
    Leaf { parent: Option<usize>, cells: Seq<(ValueV, Seq<ValueV>)>, next_leaf: Option<usize> },
}

pub open spec fn cell_view(c: (Value, Record)) -> (ValueV, Seq<ValueV>) {
    (c.0@, c.1@)
}

pub open spec fn key_views(ks: Seq<Value>) -> Seq<ValueV> {
    ks.map_values(|v: Value| v@)
}

pub open spec fn cell_views(cs: Seq<(Value, Record)>) -> Seq<(ValueV, Seq<ValueV>)> {
    cs.map_values(|c: (Value, Record)| cell_view(c))
}

impl View for Node {
    type V = NodeV;

    open spec fn view(&self) -> NodeV {
        match self {
            Node::Internal { parent, keys, children } => NodeV::Internal {
                parent: *parent,
                keys: key_views(keys@),
                children: children@,
            },
            Node::Leaf { parent, cells, next_leaf } => NodeV::Leaf {
                parent: *parent,
                cells: cell_views(cells@),
                next_leaf: *next_leaf,
            },
        }
    }
}

impl NodeV {
    pub open spec fn parent(self) -> Option<usize> {
        match self {
            NodeV::Internal { parent, .. } => parent,
            NodeV::Leaf { parent, .. } => parent,
        }
    }

    pub open spec fn num_cells(self) -> nat {
        match self {
            NodeV::Internal { keys, .. } => keys.len(),
            NodeV::Leaf { cells, .. } => cells.len(),
        }
    }
}

// ---------------------------------------------------------------------------
// Reading the header fields of a stored node.
pub open spec fn stored_is_leaf(src: Seq<u8>) -> bool {
    src[0] != 0
}

pub open spec fn stored_is_root(src: Seq<u8>) -> bool {
    src[1] == 0
}

pub open spec fn stored_num_cells(src: Seq<u8>) -> nat {
    le_u16_at(src, 6) as nat
}

pub open spec fn stored_pointer(src: Seq<u8>) -> u32 {
    le_u32_at(src, 8)
}

pub open spec fn page_of(raw: u32) -> Option<usize> {
    if raw == null_page() {
        None
    } else {
        Some(raw as usize)
    }
}

pub open spec fn stored_parent(src: Seq<u8>) -> Option<usize> {
    page_of(le_u32_at(src, 2))
}

pub open spec fn stored_next_leaf(src: Seq<u8>) -> Option<usize> {
    if stored_is_leaf(src) {
        page_of(stored_pointer(src))
    } else {
        None
    }
}

/// Where cell `n` of a leaf starts.
pub open spec fn leaf_cell_offset(n: int, key_size: int, row_size: int) -> int {
    HEADER_SIZE + n * (key_size + row_size)
}

/// Where the pair `n` (child pointer, then key) of an internal node starts.
pub open spec fn internal_cell_offset(n: int, key_size: int) -> int {
    HEADER_SIZE + n * (4 + key_size)
}

impl Node {
    pub fn is_root(&self) -> (r: bool)
        ensures
            r == self@.parent() is None,
    {
        match self {
            Node::Internal { parent, .. } => parent.is_none(),
            Node::Leaf { parent, .. } => parent.is_none(),
        }
    }

    pub fn read_is_root(src: &[u8]) -> (r: bool)
        requires
            src@.len() >= 2,
        ensures
            r == stored_is_root(src@),
    {
        src[1] == 0
    }

    pub fn num_cells(&self) -> (r: usize)
        ensures
            r == self@.num_cells(),
    {
        match self {
            Node::Internal { keys, .. } => keys.len(),
            Node::Leaf { cells, .. } => cells.len(),
        }
    }

    pub fn read_num_cells(src: &[u8]) -> (r: usize)
        requires
            src@.len() >= 8,
        ensures
            r == stored_num_cells(src@),
    {
        read_u16(src, 6) as usize
    }

    pub fn next_leaf(&self) -> (r: Option<usize>)
        ensures
            r == (match self@ {
                NodeV::Leaf { next_leaf, .. } => next_leaf,
                NodeV::Internal { .. } => None,
            }),
    {
        match self {
            Node::Leaf { next_leaf, .. } => *next_leaf,
            Node::Internal { .. } => None,
        }
    }

    pub fn read_next_leaf(src: &[u8]) -> (r: Option<usize>)
        requires
            src@.len() >= 12,
        ensures
            r == stored_next_leaf(src@),
    {
        let raw = read_u32(src, 8);
        if Node::read_is_leaf(src) && raw != 0xffff_ffff {
            Some(raw as usize)
        } else {
            None
        }
    }

    pub fn is_leaf(&self) -> (r: bool)
        ensures
            r == self@ is Leaf,
    {
        match self {
            Node::Leaf { .. } => true,
            Node::Internal { .. } => false,
        }
    }

    pub fn read_is_leaf(src: &[u8]) -> (r: bool)
        requires
            src@.len() >= 1,
        ensures
            r == stored_is_leaf(src@),
    {
        src[0] != 0
    }

    pub fn read_right_child(src: &[u8]) -> (r: usize)
        requires
            src@.len() >= 12,
        ensures
            r == stored_pointer(src@) as usize,
    {
        read_u32(src, 8) as usize
    }

    /// The first child pointer of an internal node (the pointer of its first pair).
    pub fn read_left_child(src: &[u8]) -> (r: usize)
        requires
            src@.len() >= 16,
        ensures
            r == le_u32_at(src@, 12) as usize,
    {
        read_u32(src, 12) as usize
    }

    pub fn get_parent(&self) -> (r: Option<usize>)
        ensures
            r == self@.parent(),
    {
        match self {
            Node::Internal { parent, .. } => *parent,
            Node::Leaf { parent, .. } => *parent,
        }
    }

    pub fn read_parent(src: &[u8]) -> (r: Option<usize>)
        requires
            src@.len() >= 6,
        ensures
            r == stored_parent(src@),
    {
        let raw = read_u32(src, 2);
        if raw == 0xffff_ffff {
            None
        } else {
            Some(raw as usize)
        }
    }
}


/// The child pointer `n` of a stored internal node: that of pair `n`, or the
/// header's right child for `n == num_cells`.
pub open spec fn stored_child(src: Seq<u8>, n: int, key_size: int) -> u32 {
    if n == stored_num_cells(src) {
        stored_pointer(src)
    } else {
        le_u32_at(src, internal_cell_offset(n, key_size))
    }
}

/// Where the key of cell `n` starts in a stored node.
pub open spec fn stored_key_offset(src: Seq<u8>, n: int, key_size: int, row_size: int) -> int {
    if stored_is_leaf(src) {
        leaf_cell_offset(n, key_size, row_size)
    } else {
        internal_cell_offset(n, key_size) + 4
    }
}

impl Node {
    /// The child pointer `n` of a stored internal node (`n == num_cells` is the
    /// rightmost child).
    pub fn read_child_at(src: &[u8], n: usize, key_column: &Field) -> (r: Result<usize, Error>)
        requires
            src@.len() >= HEADER_SIZE,
            !stored_is_leaf(src@) && n < stored_num_cells(src@) ==> internal_cell_offset(
                n as int,
                byte_size_of(key_column@) as int,
            ) + 4 <= src@.len() && 4 + byte_size_of(key_column@) <= usize::MAX,
        ensures
            match r {
                Ok(c) => !stored_is_leaf(src@) && n <= stored_num_cells(src@) && stored_child(
                    src@,
                    n as int,
                    byte_size_of(key_column@) as int,
                ) != null_page() && c == stored_child(
                    src@,
                    n as int,
                    byte_size_of(key_column@) as int,
                ) as usize,
                Err(Error::WrongNodeType(_)) => stored_is_leaf(src@),
                Err(Error::OutOfBounds { index, len }) => !stored_is_leaf(src@) && n
                    > stored_num_cells(src@) && index == n && len == stored_num_cells(src@),
                Err(Error::CorruptedTree(_)) => !stored_is_leaf(src@) && n <= stored_num_cells(
                    src@,
                ) && stored_child(src@, n as int, byte_size_of(key_column@) as int)
                    == null_page(),
                Err(_) => false,
            },
    {
        if Node::read_is_leaf(src) {
            return Err(
                Error::WrongNodeType(
                    "read_child_at can only be called on data that belongs to an internal node".to_string(),
                ),
            );
        }
        let num_cells = Self::read_num_cells(src);
        if n > num_cells {
            return Err(Error::OutOfBounds { index: n, len: num_cells });
        }
        let _len = src.len();
        let raw = if n == num_cells {
            read_u32(src, 8)
        } else {
            let pair = 4 + key_column.byte_size();
            let offset = HEADER_SIZE + n * pair;
            read_u32(src, offset)
        };
        if raw == 0xffff_ffff {
            Err(Error::CorruptedTree("Internal nodes should never have a NULL child pointer".to_string()))
        } else {
            Ok(raw as usize)
        }
    }

    /// The row of cell `n` of a stored leaf.
    pub fn read_row_at(
        src: &[u8],
        n: usize,
        key_column: &Field,
        columns: Vec<&Field>,
        row_size: usize,
    ) -> (r: Result<Record, Error>)
        requires
            src@.len() >= HEADER_SIZE,
            stored_is_leaf(src@) && n < stored_num_cells(src@) ==> {
                let off = leaf_cell_offset(n as int, byte_size_of(key_column@) as int, row_size as int)
                    + byte_size_of(key_column@);
                &&& byte_size_of(key_column@) + row_size <= usize::MAX
                &&& off + row_size <= src@.len()
                &&& record_readable(ref_views(columns@), src@.subrange(off, off + row_size))
            },
        ensures
            match r {
                Ok(row) => stored_is_leaf(src@) && n < stored_num_cells(src@) && {
                    let off = leaf_cell_offset(
                        n as int,
                        byte_size_of(key_column@) as int,
                        row_size as int,
                    ) + byte_size_of(key_column@);
                    row@ == decoded_record(ref_views(columns@), src@.subrange(off, off + row_size))
                },
                Err(Error::WrongNodeType(_)) => !stored_is_leaf(src@),
                Err(Error::OutOfBounds { index, len }) => stored_is_leaf(src@) && n
                    >= stored_num_cells(src@) && index == n && len == stored_num_cells(src@),
                Err(_) => false,
            },
    {
        if !Node::read_is_leaf(src) {
            return Err(Error::WrongNodeType("read_row_at can only be called on leaf nodes".to_string()));
        }
        let num_cells = Self::read_num_cells(src);
        if n >= num_cells {
            return Err(Error::OutOfBounds { index: n, len: num_cells });
        }
        let _len = src.len();
        let key_size = key_column.byte_size();
        let cell = key_size + row_size;
        let offset = HEADER_SIZE + n * cell + key_size;
        Ok(Record::deserialize(columns.as_slice(), slice_subrange(src, offset, offset + row_size)))
    }

    /// The key of cell `n` of a stored node.
    pub fn read_key_at(src: &[u8], n: usize, key_column: &Field, row_size: usize) -> (r: Result<
        Value,
        Error,
    >)
        requires
            src@.len() >= HEADER_SIZE,
            n < stored_num_cells(src@) ==> {
                let off = stored_key_offset(
                    src@,
                    n as int,
                    byte_size_of(key_column@) as int,
                    row_size as int,
                );
                &&& off <= src@.len()
                &&& (if stored_is_leaf(src@) {
                    byte_size_of(key_column@) + row_size
                } else {
                    4 + byte_size_of(key_column@)
                }) <= usize::MAX
                &&& readable_from(src@.skip(off), key_column@.data_type)
            },
        ensures
            match r {
                Ok(v) => n < stored_num_cells(src@) && v@ == decoded(
                    src@.skip(
                        stored_key_offset(
                            src@,
                            n as int,
                            byte_size_of(key_column@) as int,
                            row_size as int,
                        ),
                    ),
                    key_column@.data_type,
                ),
                Err(Error::OutOfBounds { index, len }) => n >= stored_num_cells(src@) && index == n
                    && len == stored_num_cells(src@),
                Err(_) => false,
            },
    {
        let num_cells = Self::read_num_cells(src);
        if n >= num_cells {
            return Err(Error::OutOfBounds { index: n, len: num_cells });
        }
        let _len = src.len();
        let key_size = key_column.byte_size();
        let offset = if Node::read_is_leaf(src) {
            let cell = key_size + row_size;
            HEADER_SIZE + n * cell
        } else {
            let pair = 4 + key_size;
            HEADER_SIZE + n * pair + 4
        };
        Ok(Value::deserialize_at(src, offset, key_column.data_type))
    }
}


// ---------------------------------------------------------------------------
// Writing a node to a page.
/// The bytes of a page pointer; "no page" is 0xFFFFFFFF.
pub open spec fn page_bytes(p: Option<usize>) -> Seq<u8> {
    match p {
        Some(x) => u32_bytes(x as u32),
        None => u32_bytes(null_page()),
    }
}

/// The twelve header bytes `serialize` writes for `node`.
pub open spec fn header_written(node: NodeV) -> Seq<u8> {
    let leaf: u8 = if node is Leaf {
        1
    } else {
        0
    };
    let not_root: u8 = if node.parent() is None {
        0
    } else {
        1
    };
    let pointer = match node {
        NodeV::Internal { children, .. } => if children.len() > 0 {
            u32_bytes(children.last() as u32)
        } else {
            u32_bytes(null_page())
        },
        NodeV::Leaf { next_leaf, .. } => page_bytes(next_leaf),
    };
    seq![leaf, not_root] + page_bytes(node.parent()) + u16_bytes(node.num_cells() as u16) + pointer
}

pub open spec fn min_len(a: nat, b: nat) -> nat {
    if a <= b {
        a
    } else {
        b
    }
}

/// `d` after the first `n` (child, key) pairs of an internal node are written.
pub open spec fn written_internal(
    keys: Seq<ValueV>,
    children: Seq<usize>,
    d: Seq<u8>,
    key_size: nat,
    n: nat,
) -> Seq<u8>
    decreases n,
{
    if n == 0 {
        d
    } else {
        let k = n - 1;
        let off = internal_cell_offset(k, key_size as int);
        splice(
            splice(
                written_internal(keys, children, d, key_size, k as nat),
                off,
                u32_bytes(children[k] as u32),
            ),
            off + 4,
            encoded(keys[k], key_size),
        )
    }
}

/// `d` after the first `n` cells of a leaf are written: each key in its
/// `key_size` bytes, then the row from the end of the key on.
pub open spec fn written_leaf(
    cells: Seq<(ValueV, Seq<ValueV>)>,
    cols: Seq<FieldV>,
    d: Seq<u8>,
    key_size: nat,
    row_size: nat,
    n: nat,
) -> Seq<u8>
    decreases n,
{
    if n == 0 {
        d
    } else {
        let k = n - 1;
        let off = leaf_cell_offset(k, key_size as int, row_size as int);
        let with_key = splice(
            written_leaf(cells, cols, d, key_size, row_size, k as nat),
            off,
            encoded(cells[k].0, key_size),
        );
        with_key.take(off + key_size) + written_record(
            cells[k].1,
            cols,
            with_key.skip(off + key_size),
            pairs(cells[k].1, cols),
        )
    }
}

/// The page `serialize` leaves: the header, then the cells.
pub open spec fn node_written(
    node: NodeV,
    d: Seq<u8>,
    key_size: nat,
    row_size: nat,
    cols: Seq<FieldV>,
) -> Seq<u8> {
    let h = splice(d, 0, header_written(node));
    match node {
        NodeV::Internal { keys, children, .. } => written_internal(
            keys,
            children,
            h,
            key_size,
            min_len(keys.len(), children.len()),
        ),
        NodeV::Leaf { cells, .. } => written_leaf(cells, cols, h, key_size, row_size, cells.len()),
    }
}

/// Whether `serialize` can write `node` into `dest_len` bytes: every pair or
/// cell has its place and each key fits in `key_size` bytes.
pub open spec fn node_writable(
    node: NodeV,
    key_size: nat,
    row_size: nat,
    cols: Seq<FieldV>,
    dest_len: nat,
) -> bool {
    &&& dest_len >= HEADER_SIZE
    &&& match node {
        NodeV::Internal { keys, children, .. } => {
            &&& internal_cell_offset(min_len(keys.len(), children.len()) as int, key_size as int)
                <= dest_len
            &&& forall|k: int|
                0 <= k < min_len(keys.len(), children.len()) ==> needed(
                    #[trigger] keys[k],
                    key_size,
                ) <= key_size
        },
        NodeV::Leaf { cells, .. } => {
            &&& leaf_cell_offset(cells.len() as int, key_size as int, row_size as int)
                <= usize::MAX
            &&& forall|k: int|
                0 <= k < cells.len() ==> #[trigger] leaf_cell_writable(
                    cells,
                    cols,
                    key_size,
                    row_size,
                    dest_len,
                    k,
                )
        },
    }
}

pub open spec fn leaf_cell_writable(
    cells: Seq<(ValueV, Seq<ValueV>)>,
    cols: Seq<FieldV>,
    key_size: nat,
    row_size: nat,
    dest_len: nat,
    k: int,
) -> bool {
    let off = leaf_cell_offset(k, key_size as int, row_size as int);
    &&& off + key_size <= dest_len
    &&& needed(cells[k].0, key_size) <= key_size
    &&& record_writable(cells[k].1, cols, (dest_len - (off + key_size)) as nat)
}

proof fn lemma_cell_offset_step(k: int, c: int)
    requires
        0 <= k,
        0 <= c,
    ensures
        HEADER_SIZE + (k + 1) * c == HEADER_SIZE + k * c + c,
        k * c >= 0,
{
    assert((k + 1) * c == k * c + c) by (nonlinear_arith);
    assert(k * c >= 0) by (nonlinear_arith)
        requires
            0 <= k,
            0 <= c,
    ;
}

pub proof fn lemma_offset_le(j: int, k: int, c: int)
    requires
        0 <= j <= k,
        0 <= c,
    ensures
        j * c <= k * c,
        0 <= j * c,
        (k + 1) * c == k * c + c,
{
    lemma_cell_offset_mono(j, k, c);
    lemma_cell_offset_step(j, c);
    lemma_cell_offset_step(k, c);
}

proof fn lemma_cell_offset_mono(j: int, k: int, c: int)
    requires
        0 <= j <= k,
        0 <= c,
    ensures
        j * c <= k * c,
{
    assert(j * c <= k * c) by (nonlinear_arith)
        requires
            0 <= j <= k,
            0 <= c,
    ;
}

fn pointer_bytes(p: Option<usize>) -> (b: Vec<u8>)
    ensures
        b@ == page_bytes(p),
{
    match p {
        Some(x) => crate::codec::u32_le(x as u32),
        None => crate::codec::u32_le(0xffff_ffff),
    }
}

impl Node {
    /// The twelve header bytes of the node.
    fn header_bytes(&self) -> (h: Vec<u8>)
        ensures
            h@ == header_written(self@),
    {
        let mut h: Vec<u8> = Vec::new();
        let leaf: u8 = match self {
            Node::Internal { .. } => 0,
            Node::Leaf { .. } => 1,
        };
        let not_root: u8 = if self.is_root() {
            0
        } else {
            1
        };
        h.push(leaf);
        h.push(not_root);
        let mut parent = pointer_bytes(self.get_parent());
        h.append(&mut parent);
        let mut num = crate::codec::u16_le(self.num_cells() as u16);
        h.append(&mut num);
        let mut pointer = match self {
            Node::Internal { children, .. } => {
                if children.len() > 0 {
                    crate::codec::u32_le(children[children.len() - 1] as u32)
                } else {
                    pointer_bytes(None)
                }
            },
            Node::Leaf { next_leaf, .. } => pointer_bytes(*next_leaf),
        };
        h.append(&mut pointer);
        proof {
            assert(h@ =~= header_written(self@));
        }
        h
    }

    /// Writes the node at the start of `dest`: the header, then each
    /// (child, key) pair or each (key, row) cell.
    pub fn serialize(&self, dest: &mut [u8], key_size: usize, row_size: usize, columns: &[&Field])
        requires
            node_writable(
                self@,
                key_size as nat,
                row_size as nat,
                ref_views(columns@),
                old(dest)@.len(),
            ),
        ensures
            final(dest)@ == node_written(
                self@,
                old(dest)@,
                key_size as nat,
                row_size as nat,
                ref_views(columns@),
            ),
    {
        let ghost d0 = dest@;
        let dlen = dest.len();
        proof {
            crate::codec::lemma_le_bytes();
        }
        let hdr = self.header_bytes();
        write_bytes(dest, 0, hdr.as_slice());
        let ghost h = dest@;
        proof {
            assert(h.len() == d0.len());
        }
        let mut offset: usize = HEADER_SIZE;
        match self {
            Node::Internal { keys, children, .. } => {
                let ghost kv = key_views(keys@);
                let n = if keys.len() <= children.len() {
                    keys.len()
                } else {
                    children.len()
                };
                let mut k: usize = 0;
                while k < n
                    invariant
                        0 <= k <= n,
                        dlen == d0.len(),
                        n == min_len(keys@.len(), children@.len()),
                        kv == key_views(keys@),
                        node_writable(
                            self@,
                            key_size as nat,
                            row_size as nat,
                            ref_views(columns@),
                            d0.len(),
                        ),
                        self@ == (NodeV::Internal {
                            parent: self@.parent(),
                            keys: kv,
                            children: children@,
                        }),
                        offset == internal_cell_offset(k as int, key_size as int),
                        dest@ == written_internal(kv, children@, h, key_size as nat, k as nat),
                        dest@.len() == d0.len(),
                    decreases n - k,
                {
                    proof {
                        crate::codec::lemma_le_bytes();
                        lemma_cell_offset_step(k as int, 4 + key_size);
                        lemma_cell_offset_mono(k + 1, n as int, 4 + key_size);
                        assert(needed(kv[k as int], key_size as nat) <= key_size);
                        crate::value::lemma_encoded_len(kv[k as int], key_size as nat);
                    }
                    write_u32(dest, offset, children[k] as u32);
                    keys[k].serialize_at(dest, offset + 4, key_size);
                    offset = offset + 4 + key_size;
                    k = k + 1;
                }
            },
            Node::Leaf { cells, .. } => {
                let ghost cv = cell_views(cells@);
                let ghost cols = ref_views(columns@);
                let mut k: usize = 0;
                while k < cells.len()
                    invariant
                        0 <= k <= cells@.len(),
                        dlen == d0.len(),
                        cv == cell_views(cells@),
                        cols == ref_views(columns@),
                        node_writable(self@, key_size as nat, row_size as nat, cols, d0.len()),
                        self@ == (NodeV::Leaf {
                            parent: self@.parent(),
                            cells: cv,
                            next_leaf: match self@ {
                                NodeV::Leaf { next_leaf, .. } => next_leaf,
                                _ => None,
                            },
                        }),
                        offset == leaf_cell_offset(k as int, key_size as int, row_size as int),
                        dest@ == written_leaf(
                            cv,
                            cols,
                            h,
                            key_size as nat,
                            row_size as nat,
                            k as nat,
                        ),
                        dest@.len() == d0.len(),
                    decreases cells@.len() - k,
                {
                    proof {
                        lemma_cell_offset_step(k as int, key_size + row_size);
                        lemma_cell_offset_mono(k + 1, cells@.len() as int, key_size + row_size);
                        assert(leaf_cell_writable(
                            cv,
                            cols,
                            key_size as nat,
                            row_size as nat,
                            d0.len(),
                            k as int,
                        ));
                        crate::value::lemma_encoded_len(cv[k as int].0, key_size as nat);
                    }
                    let ghost before = dest@;
                    cells[k].0.serialize_at(dest, offset, key_size);
                    let ghost with_key = dest@;
                    offset = offset + key_size;
                    cells[k].1.serialize_at(columns, dest, offset);
                    proof {
                        assert(dest@ =~= with_key.take(offset as int) + written_record(
                            cv[k as int].1,
                            cols,
                            with_key.skip(offset as int),
                            pairs(cv[k as int].1, cols),
                        ));
                    }
                    offset = offset + row_size;
                    k = k + 1;
                }
                proof {
                    assert(cv.len() == cells@.len());
                }
            },
        }
    }
}


// ---------------------------------------------------------------------------
// Reading a node from a page.
pub open spec fn leaf_key_at(src: Seq<u8>, i: int, key_size: nat, row_size: nat, cols: Seq<FieldV>) -> ValueV {
    decoded(src.skip(leaf_cell_offset(i, key_size as int, row_size as int)), cols[0].data_type)
}

pub open spec fn leaf_row_at(src: Seq<u8>, i: int, key_size: nat, row_size: nat, cols: Seq<FieldV>) -> Seq<ValueV> {
    let off = leaf_cell_offset(i, key_size as int, row_size as int) + key_size;
    decoded_record(cols, src.subrange(off, off + row_size))
}

pub open spec fn internal_key_at(src: Seq<u8>, i: int, key_size: nat, cols: Seq<FieldV>) -> ValueV {
    decoded(src.skip(internal_cell_offset(i, key_size as int) + 4), cols[0].data_type)
}

pub open spec fn internal_child_at(src: Seq<u8>, i: int, key_size: nat) -> usize {
    le_u32_at(src, internal_cell_offset(i, key_size as int)) as usize
}

/// The node `deserialize` reads from a page; keys are read with the type of
/// the first column.
pub open spec fn decoded_node(src: Seq<u8>, key_size: nat, row_size: nat, cols: Seq<FieldV>) -> NodeV {
    let num = stored_num_cells(src);
    if stored_is_leaf(src) {
        NodeV::Leaf {
            parent: stored_parent(src),
            cells: Seq::new(
                num,
                |i: int|
                    (
                        leaf_key_at(src, i, key_size, row_size, cols),
                        leaf_row_at(src, i, key_size, row_size, cols),
                    ),
            ),
            next_leaf: page_of(stored_pointer(src)),
        }
    } else {
        NodeV::Internal {
            parent: stored_parent(src),
            keys: Seq::new(num, |i: int| internal_key_at(src, i, key_size, cols)),
            children: Seq::new(num, |i: int| internal_child_at(src, i, key_size)).push(
                stored_pointer(src) as usize,
            ),
        }
    }
}

pub open spec fn leaf_cell_readable(src: Seq<u8>, i: int, key_size: nat, row_size: nat, cols: Seq<FieldV>) -> bool {
    let off = leaf_cell_offset(i, key_size as int, row_size as int);
    &&& off + key_size + row_size <= src.len()
    &&& readable_from(src.skip(off), cols[0].data_type)
    &&& record_readable(cols, src.subrange(off + key_size, off + key_size + row_size))
}

pub open spec fn internal_cell_readable(src: Seq<u8>, i: int, key_size: nat, cols: Seq<FieldV>) -> bool {
    let off = internal_cell_offset(i, key_size as int);
    &&& off + 4 <= src.len()
    &&& readable_from(src.skip(off + 4), cols[0].data_type)
}

/// Whether `deserialize` can read a node from `src`: every cell it reads has
/// its bytes.
pub open spec fn node_readable(src: Seq<u8>, key_size: nat, row_size: nat, cols: Seq<FieldV>) -> bool {
    &&& src.len() >= HEADER_SIZE
    &&& stored_num_cells(src) > 0 ==> cols.len() >= 1
    &&& if stored_is_leaf(src) {
        &&& leaf_cell_offset(stored_num_cells(src) as int, key_size as int, row_size as int)
            <= usize::MAX
        &&& forall|i: int|
            0 <= i < stored_num_cells(src) ==> #[trigger] leaf_cell_readable(
                src,
                i,
                key_size,
                row_size,
                cols,
            )
    } else {
        &&& internal_cell_offset(stored_num_cells(src) as int, key_size as int) <= usize::MAX
        &&& forall|i: int|
            0 <= i < stored_num_cells(src) ==> #[trigger] internal_cell_readable(
                src,
                i,
                key_size,
                cols,
            )
    }
}

impl Node {
    /// Reads a node from a page; keys are read with the type of the first column.
    pub fn deserialize(src: &[u8], key_size: usize, row_size: usize, columns: &[&Field]) -> (n:
        Node)
        requires
            node_readable(src@, key_size as nat, row_size as nat, ref_views(columns@)),
        ensures
            n@ == decoded_node(src@, key_size as nat, row_size as nat, ref_views(columns@)),
    {
        let ghost cols = ref_views(columns@);
        let ghost ks = key_size as nat;
        let ghost rs = row_size as nat;
        let is_leaf = src[0] != 0;
        let parent = Self::read_parent(src);
        let num_cells = Self::read_num_cells(src);
        let ptr_raw = read_u32(src, 8);
        let _len = src.len();
        if is_leaf {
            let next_leaf = if ptr_raw == 0xffff_ffff {
                None
            } else {
                Some(ptr_raw as usize)
            };
            let mut cells: Vec<(Value, Record)> = Vec::with_capacity(num_cells);
            let mut offset: usize = HEADER_SIZE;
            let mut i: usize = 0;
            while i < num_cells
                invariant
                    0 <= i <= num_cells,
                    num_cells == stored_num_cells(src@),
                    cols == ref_views(columns@),
                    ks == key_size,
                    rs == row_size,
                    stored_is_leaf(src@),
                    node_readable(src@, ks, rs, cols),
                    offset == leaf_cell_offset(i as int, key_size as int, row_size as int),
                    cell_views(cells@) =~= Seq::new(
                        i as nat,
                        |j: int| (leaf_key_at(src@, j, ks, rs, cols), leaf_row_at(src@, j, ks, rs, cols)),
                    ),
                decreases num_cells - i,
            {
                proof {
                    assert(leaf_cell_readable(src@, i as int, ks, rs, cols));
                    lemma_cell_offset_step(i as int, key_size + row_size);
                    lemma_cell_offset_mono(i + 1, num_cells as int, key_size + row_size);
                    assert(columns@.len() >= 1);
                }
                let key = Value::deserialize_at(src, offset, columns[0].data_type);
                offset = offset + key_size;
                let row = Record::deserialize(columns, slice_subrange(src, offset, offset + row_size));
                offset = offset + row_size;
                let ghost prev = cells@;
                cells.push((key, row));
                proof {
                    assert(cell_views(cells@) =~= cell_views(prev).push((key@, row@)));
                }
                i = i + 1;
            }
            Node::Leaf { parent, cells, next_leaf }
        } else {
            let right_child = ptr_raw as usize;
            let mut keys: Vec<Value> = Vec::with_capacity(num_cells);
            let mut children: Vec<usize> = Vec::with_capacity(num_cells + 1);
            let mut offset: usize = HEADER_SIZE;
            let mut i: usize = 0;
            while i < num_cells
                invariant
                    0 <= i <= num_cells,
                    num_cells == stored_num_cells(src@),
                    cols == ref_views(columns@),
                    ks == key_size,
                    !stored_is_leaf(src@),
                    node_readable(src@, ks, rs, cols),
                    offset == internal_cell_offset(i as int, key_size as int),
                    key_views(keys@) =~= Seq::new(i as nat, |j: int| internal_key_at(src@, j, ks, cols)),
                    children@ =~= Seq::new(i as nat, |j: int| internal_child_at(src@, j, ks)),
                decreases num_cells - i,
            {
                proof {
                    assert(internal_cell_readable(src@, i as int, ks, cols));
                    lemma_cell_offset_step(i as int, 4 + key_size);
                    lemma_cell_offset_mono(i + 1, num_cells as int, 4 + key_size);
                    assert(columns@.len() >= 1);
                }
                let child = read_u32(src, offset) as usize;
                children.push(child);
                offset = offset + 4;
                let key = Value::deserialize_at(src, offset, columns[0].data_type);
                let ghost prev = keys@;
                keys.push(key);
                proof {
                    assert(key_views(keys@) =~= key_views(prev).push(key@));
                }
                offset = offset + key_size;
                i = i + 1;
            }
            children.push(right_child);
            Node::Internal { parent, keys, children }
        }
    }
}


// ---------------------------------------------------------------------------
// A node written to a page reads back as itself.
/// A key fits when it reads back with the key column's type and takes no
/// more than the key size.
pub open spec fn key_fits(v: ValueV, key_col: FieldV, key_size: nat) -> bool {
    &&& round_trips(v, key_col.data_type, key_size)
    &&& needed(v, key_size) <= key_size
}

/// Cell `k` of a leaf fits: its key and its row read back from their places.
pub open spec fn cell_fits(cells: Seq<(ValueV, Seq<ValueV>)>, cols: Seq<FieldV>, key_size: nat, k: int) -> bool {
    key_fits(cells[k].0, cols[0], key_size) && fits_columns(cells[k].1, cols)
}

pub open spec fn cells_fit(cells: Seq<(ValueV, Seq<ValueV>)>, cols: Seq<FieldV>, key_size: nat) -> bool {
    forall|k: int| 0 <= k < cells.len() ==> #[trigger] cell_fits(cells, cols, key_size, k)
}

/// The nodes whose stored form reads back as themselves: pointers that are
/// not the "no page" value and fit in 32 bits, a cell count that fits in 16
/// bits, keys and rows that fit their columns, cells that fit the page, and
/// one more child than keys.
pub open spec fn node_fits(node: NodeV, key_size: nat, row_size: nat, cols: Seq<FieldV>, dest_len: nat) -> bool {
    &&& HEADER_SIZE <= dest_len <= usize::MAX
    &&& cols.len() >= 1
    &&& row_size_of(cols) <= row_size
    &&& node.num_cells() <= 0xffff
    &&& (node.parent() matches Some(p) ==> p < null_page())
    &&& match node {
        NodeV::Leaf { cells, next_leaf, .. } => {
            &&& (next_leaf matches Some(x) ==> x < null_page())
            &&& leaf_cell_offset(cells.len() as int, key_size as int, row_size as int) <= dest_len
            &&& cells_fit(cells, cols, key_size)
        },
        NodeV::Internal { keys, children, .. } => {
            &&& children.len() == keys.len() + 1
            &&& forall|k: int| 0 <= k < children.len() ==> #[trigger] children[k] < null_page()
            &&& internal_cell_offset(keys.len() as int, key_size as int) <= dest_len
            &&& forall|k: int| 0 <= k < keys.len() ==> key_fits(#[trigger] keys[k], cols[0], key_size)
        },
    }
}

proof fn lemma_splice_facts(d: Seq<u8>, off: int, b: Seq<u8>)
    requires
        0 <= off,
        off + b.len() <= d.len(),
    ensures
        splice(d, off, b).len() == d.len(),
        splice(d, off, b).subrange(off, off + b.len()) == b,
        forall|p: int| 0 <= p < off ==> #[trigger] splice(d, off, b)[p] == d[p],
        forall|p: int| off + b.len() <= p < d.len() ==> #[trigger] splice(d, off, b)[p] == d[p],
{
    assert(splice(d, off, b).subrange(off, off + b.len()) =~= b);
}

proof fn lemma_header_read(node: NodeV, d: Seq<u8>)
    requires
        d.len() >= HEADER_SIZE,
        node.num_cells() <= 0xffff,
        node.parent() matches Some(p) ==> p < null_page(),
    ensures
        ({
            let h = splice(d, 0, header_written(node));
            &&& h.len() == d.len()
            &&& stored_is_leaf(h) == node is Leaf
            &&& stored_parent(h) == node.parent()
            &&& stored_num_cells(h) == node.num_cells()
            &&& forall|p: int| HEADER_SIZE <= p < d.len() ==> #[trigger] h[p] == d[p]
        }),
{
    crate::codec::lemma_le_bytes();
    let hw = header_written(node);
    let h = splice(d, 0, hw);
    assert(hw.len() == 12);
    lemma_splice_facts(d, 0, hw);
    assert(h.subrange(2, 6) =~= page_bytes(node.parent()));
    assert(h.subrange(6, 8) =~= u16_bytes(node.num_cells() as u16));
}

proof fn lemma_header_pointer(node: NodeV, d: Seq<u8>)
    requires
        d.len() >= HEADER_SIZE,
    ensures
        ({
            let h = splice(d, 0, header_written(node));
            stored_pointer(h) == match node {
                NodeV::Internal { children, .. } => if children.len() > 0 {
                    children.last() as u32
                } else {
                    null_page()
                },
                NodeV::Leaf { next_leaf, .. } => match next_leaf {
                    Some(x) => x as u32,
                    None => null_page(),
                },
            }
        }),
{
    crate::codec::lemma_le_bytes();
    let hw = header_written(node);
    let h = splice(d, 0, hw);
    assert(hw.len() == 12);
    assert(h.subrange(8, 12) =~= hw.subrange(8, 12));
    match node {
        NodeV::Internal { children, .. } => {
            if children.len() > 0 {
                assert(hw.subrange(8, 12) =~= u32_bytes(children.last() as u32));
            } else {
                assert(hw.subrange(8, 12) =~= u32_bytes(null_page()));
            }
        },
        NodeV::Leaf { next_leaf, .. } => {
            assert(hw.subrange(8, 12) =~= page_bytes(next_leaf));
        },
    }
}

/// Offsets of leaf cells.
proof fn lemma_leaf_offsets(k: int, n: int, ks: nat, rs: nat)
    requires
        0 <= k < n,
    ensures
        leaf_cell_offset(k + 1, ks as int, rs as int) == leaf_cell_offset(k, ks as int, rs as int)
            + ks + rs,
        leaf_cell_offset(k + 1, ks as int, rs as int) <= leaf_cell_offset(n, ks as int, rs as int),
        leaf_cell_offset(k, ks as int, rs as int) >= HEADER_SIZE,
{
    lemma_cell_offset_step(k, (ks + rs) as int);
    lemma_cell_offset_mono(k + 1, n, (ks + rs) as int);
}

proof fn lemma_leaf_len(
    cells: Seq<(ValueV, Seq<ValueV>)>,
    cols: Seq<FieldV>,
    h: Seq<u8>,
    ks: nat,
    rs: nat,
    j: nat,
)
    requires
        j <= cells.len(),
        row_size_of(cols) <= rs,
        leaf_cell_offset(cells.len() as int, ks as int, rs as int) <= h.len(),
        cells_fit(cells, cols, ks),
    ensures
        written_leaf(cells, cols, h, ks, rs, j).len() == h.len(),
        forall|p: int| 0 <= p < HEADER_SIZE ==> #[trigger] written_leaf(cells, cols, h, ks, rs, j)[p] == h[p],
    decreases j,
{
    if j > 0 {
        let k = j - 1;
        lemma_leaf_len(cells, cols, h, ks, rs, k as nat);
        lemma_leaf_offsets(k, cells.len() as int, ks, rs);
        let w = written_leaf(cells, cols, h, ks, rs, k as nat);
        let off = leaf_cell_offset(k, ks as int, rs as int);
        assert(cell_fits(cells, cols, ks, k));
        lemma_encoded_len(cells[k].0, ks);
        let wk = splice(w, off, encoded(cells[k].0, ks));
        lemma_splice_facts(w, off, encoded(cells[k].0, ks));
        assert(within_columns(cells[k].1, cols, pairs(cells[k].1, cols)));
        lemma_written_record_len(cells[k].1, cols, wk.skip(off + ks), pairs(cells[k].1, cols));
    }
}

/// Writing later cells leaves the bytes before cell `j` as they were.
proof fn lemma_leaf_prefix(
    cells: Seq<(ValueV, Seq<ValueV>)>,
    cols: Seq<FieldV>,
    h: Seq<u8>,
    ks: nat,
    rs: nat,
    j: nat,
    m: nat,
)
    requires
        j <= m <= cells.len(),
        row_size_of(cols) <= rs,
        leaf_cell_offset(cells.len() as int, ks as int, rs as int) <= h.len(),
        cells_fit(cells, cols, ks),
    ensures
        forall|p: int|
            0 <= p < leaf_cell_offset(j as int, ks as int, rs as int) ==> #[trigger] written_leaf(
                cells,
                cols,
                h,
                ks,
                rs,
                m,
            )[p] == written_leaf(cells, cols, h, ks, rs, j)[p],
    decreases m - j,
{
    if j < m {
        let k = m - 1;
        lemma_leaf_prefix(cells, cols, h, ks, rs, j, k as nat);
        lemma_leaf_len(cells, cols, h, ks, rs, k as nat);
        lemma_leaf_offsets(k, cells.len() as int, ks, rs);
        lemma_cell_offset_mono(j as int, k, (ks + rs) as int);
        let w = written_leaf(cells, cols, h, ks, rs, k as nat);
        let off = leaf_cell_offset(k, ks as int, rs as int);
        assert(cell_fits(cells, cols, ks, k));
        lemma_encoded_len(cells[k].0, ks);
        lemma_splice_facts(w, off, encoded(cells[k].0, ks));
    }
}

/// The bytes of cell `k` once it is written: its key's encoding, then a
/// row written over the cell's row bytes.
proof fn lemma_leaf_cell(
    cells: Seq<(ValueV, Seq<ValueV>)>,
    cols: Seq<FieldV>,
    h: Seq<u8>,
    ks: nat,
    rs: nat,
    k: int,
)
    requires
        0 <= k < cells.len(),
        row_size_of(cols) <= rs,
        leaf_cell_offset(cells.len() as int, ks as int, rs as int) <= h.len(),
        cells_fit(cells, cols, ks),
    ensures
        ({
            let w = written_leaf(cells, cols, h, ks, rs, (k + 1) as nat);
            let off = leaf_cell_offset(k, ks as int, rs as int);
            let e = encoded(cells[k].0, ks);
            &&& w.subrange(off, off + e.len()) == e
            &&& exists|x: Seq<u8>|
                x.len() == rs && w.subrange(off + ks, off + ks + rs) == #[trigger] written_record(
                    cells[k].1,
                    cols,
                    x,
                    pairs(cells[k].1, cols),
                )
        }),
{
    lemma_leaf_len(cells, cols, h, ks, rs, k as nat);
    lemma_leaf_offsets(k, cells.len() as int, ks, rs);
    let w0 = written_leaf(cells, cols, h, ks, rs, k as nat);
    let off = leaf_cell_offset(k, ks as int, rs as int);
    assert(cell_fits(cells, cols, ks, k));
    let e = encoded(cells[k].0, ks);
    lemma_encoded_len(cells[k].0, ks);
    let wk = splice(w0, off, e);
    lemma_splice_facts(w0, off, e);
    let row = cells[k].1;
    let n = pairs(row, cols);
    assert(within_columns(row, cols, n));
    let rest = wk.skip(off + ks);
    lemma_written_record_local(row, cols, rest, n, rs as int);
    lemma_written_record_len(row, cols, rest.take(rs as int), n);
    let w = written_leaf(cells, cols, h, ks, rs, (k + 1) as nat);
    assert(w == wk.take(off + ks) + written_record(row, cols, rest, n));
    assert(w.subrange(off, off + e.len()) =~= wk.subrange(off, off + e.len()));
    let x = rest.take(rs as int);
    assert(w.subrange(off + ks, off + ks + rs) =~= written_record(row, cols, x, n));
}

proof fn lemma_leaf_roundtrip(node: NodeV, d: Seq<u8>, ks: nat, rs: nat, cols: Seq<FieldV>)
    requires
        node is Leaf,
        node_fits(node, ks, rs, cols, d.len()),
    ensures
        node_readable(node_written(node, d, ks, rs, cols), ks, rs, cols),
        decoded_node(node_written(node, d, ks, rs, cols), ks, rs, cols) == node,
{
    let cells = node->Leaf_cells;
    let n = cells.len();
    let h = splice(d, 0, header_written(node));
    lemma_header_read(node, d);
    lemma_header_pointer(node, d);
    let f = node_written(node, d, ks, rs, cols);
    assert(f == written_leaf(cells, cols, h, ks, rs, n));
    lemma_leaf_len(cells, cols, h, ks, rs, n);
    assert(f.subrange(0, 12) =~= h.subrange(0, 12));
    assert(stored_is_leaf(f) == stored_is_leaf(h)) by {
        assert(f[0] == h[0]);
    }
    assert(le_u32_at(f, 2) == le_u32_at(h, 2)) by {
        assert(f.subrange(2, 6) =~= h.subrange(2, 6));
    }
    assert(stored_num_cells(f) == stored_num_cells(h)) by {
        assert(f.subrange(6, 8) =~= h.subrange(6, 8));
    }
    assert(stored_pointer(f) == stored_pointer(h)) by {
        assert(f.subrange(8, 12) =~= h.subrange(8, 12));
    }
    assert forall|k: int| 0 <= k < n implies #[trigger] leaf_cell_readable(f, k, ks, rs, cols)
        && leaf_key_at(f, k, ks, rs, cols) == cells[k].0 && leaf_row_at(f, k, ks, rs, cols)
        == cells[k].1 by {
        lemma_leaf_cell(cells, cols, h, ks, rs, k);
        lemma_leaf_prefix(cells, cols, h, ks, rs, (k + 1) as nat, n);
        lemma_leaf_offsets(k, n as int, ks, rs);
        lemma_leaf_len(cells, cols, h, ks, rs, (k + 1) as nat);
        let w = written_leaf(cells, cols, h, ks, rs, (k + 1) as nat);
        let off = leaf_cell_offset(k, ks as int, rs as int);
        assert(cell_fits(cells, cols, ks, k));
        let e = encoded(cells[k].0, ks);
        lemma_encoded_len(cells[k].0, ks);
        assert(f.subrange(off, off + ks + rs) =~= w.subrange(off, off + ks + rs));
        assert(f.skip(off).take(e.len() as int) =~= w.subrange(off, off + e.len()));
        lemma_value_decodes(cells[k].0, cols[0].data_type, ks, f.skip(off));
        let x = choose|x: Seq<u8>|
            x.len() == rs && w.subrange(off + ks, off + ks + rs) == #[trigger] written_record(
                cells[k].1,
                cols,
                x,
                pairs(cells[k].1, cols),
            );
        lemma_record_roundtrip(cells[k].1, cols, x);
        assert(f.subrange(off + ks, off + ks + rs) =~= w.subrange(off + ks, off + ks + rs));
    }
    assert forall|k: int| 0 <= k < n implies decoded_node(f, ks, rs, cols)->Leaf_cells[k]
        == cells[k] by {
        assert(leaf_cell_readable(f, k, ks, rs, cols));
    }
    assert(decoded_node(f, ks, rs, cols)->Leaf_cells =~= cells);
}


proof fn lemma_internal_offsets(k: int, n: int, ks: nat)
    requires
        0 <= k < n,
    ensures
        internal_cell_offset(k + 1, ks as int) == internal_cell_offset(k, ks as int) + 4 + ks,
        internal_cell_offset(k + 1, ks as int) <= internal_cell_offset(n, ks as int),
        internal_cell_offset(k, ks as int) >= HEADER_SIZE,
{
    lemma_cell_offset_step(k, (4 + ks) as int);
    lemma_cell_offset_mono(k + 1, n, (4 + ks) as int);
}

pub open spec fn keys_fit(keys: Seq<ValueV>, key_col: FieldV, key_size: nat) -> bool {
    forall|k: int| 0 <= k < keys.len() ==> key_fits(#[trigger] keys[k], key_col, key_size)
}

proof fn lemma_internal_len(keys: Seq<ValueV>, children: Seq<usize>, h: Seq<u8>, ks: nat, key_col: FieldV, j: nat)
    requires
        j <= keys.len(),
        j <= children.len(),
        internal_cell_offset(keys.len() as int, ks as int) <= h.len(),
        keys_fit(keys, key_col, ks),
    ensures
        written_internal(keys, children, h, ks, j).len() == h.len(),
        forall|p: int| 0 <= p < HEADER_SIZE ==> #[trigger] written_internal(keys, children, h, ks, j)[p] == h[p],
    decreases j,
{
    crate::codec::lemma_le_bytes();
    if j > 0 {
        let k = j - 1;
        lemma_internal_len(keys, children, h, ks, key_col, k as nat);
        lemma_internal_offsets(k, keys.len() as int, ks);
        let w = written_internal(keys, children, h, ks, k as nat);
        let off = internal_cell_offset(k, ks as int);
        assert(key_fits(keys[k], key_col, ks));
        lemma_encoded_len(keys[k], ks);
        let w1 = splice(w, off, u32_bytes(children[k] as u32));
        lemma_splice_facts(w, off, u32_bytes(children[k] as u32));
        lemma_splice_facts(w1, off + 4, encoded(keys[k], ks));
    }
}

proof fn lemma_internal_prefix(keys: Seq<ValueV>, children: Seq<usize>, h: Seq<u8>, ks: nat, key_col: FieldV, j: nat, m: nat)
    requires
        j <= m <= keys.len(),
        m <= children.len(),
        internal_cell_offset(keys.len() as int, ks as int) <= h.len(),
        keys_fit(keys, key_col, ks),
    ensures
        forall|p: int|
            0 <= p < internal_cell_offset(j as int, ks as int) ==> #[trigger] written_internal(
                keys,
                children,
                h,
                ks,
                m,
            )[p] == written_internal(keys, children, h, ks, j)[p],
    decreases m - j,
{
    crate::codec::lemma_le_bytes();
    if j < m {
        let k = m - 1;
        lemma_internal_prefix(keys, children, h, ks, key_col, j, k as nat);
        lemma_internal_len(keys, children, h, ks, key_col, k as nat);
        lemma_internal_offsets(k, keys.len() as int, ks);
        lemma_cell_offset_mono(j as int, k, (4 + ks) as int);
        let w = written_internal(keys, children, h, ks, k as nat);
        let off = internal_cell_offset(k, ks as int);
        assert(key_fits(keys[k], key_col, ks));
        lemma_encoded_len(keys[k], ks);
        let w1 = splice(w, off, u32_bytes(children[k] as u32));
        lemma_splice_facts(w, off, u32_bytes(children[k] as u32));
        lemma_splice_facts(w1, off + 4, encoded(keys[k], ks));
    }
}

proof fn lemma_internal_roundtrip(node: NodeV, d: Seq<u8>, ks: nat, rs: nat, cols: Seq<FieldV>)
    requires
        node is Internal,
        node_fits(node, ks, rs, cols, d.len()),
    ensures
        node_readable(node_written(node, d, ks, rs, cols), ks, rs, cols),
        decoded_node(node_written(node, d, ks, rs, cols), ks, rs, cols) == node,
{
    crate::codec::lemma_le_bytes();
    let keys = node->Internal_keys;
    let children = node->Internal_children;
    let n = keys.len();
    assert(min_len(keys.len(), children.len()) == n);
    assert(keys_fit(keys, cols[0], ks));
    let h = splice(d, 0, header_written(node));
    lemma_header_read(node, d);
    lemma_header_pointer(node, d);
    let f = node_written(node, d, ks, rs, cols);
    assert(f == written_internal(keys, children, h, ks, n));
    lemma_internal_len(keys, children, h, ks, cols[0], n);
    assert(stored_is_leaf(f) == stored_is_leaf(h)) by {
        assert(f[0] == h[0]);
    }
    assert(le_u32_at(f, 2) == le_u32_at(h, 2)) by {
        assert(f.subrange(2, 6) =~= h.subrange(2, 6));
    }
    assert(stored_num_cells(f) == stored_num_cells(h)) by {
        assert(f.subrange(6, 8) =~= h.subrange(6, 8));
    }
    assert(stored_pointer(f) == stored_pointer(h)) by {
        assert(f.subrange(8, 12) =~= h.subrange(8, 12));
    }
    assert forall|k: int| 0 <= k < n implies #[trigger] internal_cell_readable(f, k, ks, cols)
        && internal_key_at(f, k, ks, cols) == keys[k] && internal_child_at(f, k, ks)
        == children[k] by {
        lemma_internal_prefix(keys, children, h, ks, cols[0], (k + 1) as nat, n);
        lemma_internal_offsets(k, n as int, ks);
        lemma_internal_len(keys, children, h, ks, cols[0], k as nat);
        let w0 = written_internal(keys, children, h, ks, k as nat);
        let off = internal_cell_offset(k, ks as int);
        assert(key_fits(keys[k], cols[0], ks));
        let e = encoded(keys[k], ks);
        lemma_encoded_len(keys[k], ks);
        let c = u32_bytes(children[k] as u32);
        let w1 = splice(w0, off, c);
        lemma_splice_facts(w0, off, c);
        let w = splice(w1, off + 4, e);
        lemma_splice_facts(w1, off + 4, e);
        assert(w == written_internal(keys, children, h, ks, (k + 1) as nat));
        assert(f.subrange(off, off + 4) =~= w.subrange(off, off + 4));
        assert(w.subrange(off, off + 4) =~= c);
        assert(f.skip(off + 4).take(e.len() as int) =~= w.subrange(off + 4, off + 4 + e.len()));
        lemma_value_decodes(keys[k], cols[0].data_type, ks, f.skip(off + 4));
        assert(children[k] <= u32::MAX);
    }
    assert forall|k: int| 0 <= k < n implies decoded_node(f, ks, rs, cols)->Internal_keys[k]
        == keys[k] by {
        assert(internal_cell_readable(f, k, ks, cols));
    }
    assert(decoded_node(f, ks, rs, cols)->Internal_keys =~= keys);
    assert forall|k: int| 0 <= k < children.len() implies decoded_node(
        f,
        ks,
        rs,
        cols,
    )->Internal_children[k] == children[k] by {
        if k < n {
            assert(internal_cell_readable(f, k, ks, cols));
        } else {
            assert(children[k] <= u32::MAX);
        }
    }
    assert(decoded_node(f, ks, rs, cols)->Internal_children =~= children);
}

/// A node written with `Node::serialize` and read back with
/// `Node::deserialize` with the same sizes and columns is the node written,
/// for every node that fits (`node_fits`).
pub proof fn lemma_node_roundtrip(node: NodeV, d: Seq<u8>, key_size: nat, row_size: nat, cols: Seq<FieldV>)
    requires
        node_fits(node, key_size, row_size, cols, d.len()),
    ensures
        node_readable(node_written(node, d, key_size, row_size, cols), key_size, row_size, cols),
        decoded_node(node_written(node, d, key_size, row_size, cols), key_size, row_size, cols)
            == node,
{
    match node {
        NodeV::Leaf { .. } => lemma_leaf_roundtrip(node, d, key_size, row_size, cols),
        NodeV::Internal { .. } => lemma_internal_roundtrip(node, d, key_size, row_size, cols),
    }
}


/// The header of a written node reads back: the node is a root exactly
/// when it has no parent, and its kind, parent and number of cells read
/// back as they were.
pub proof fn lemma_written_header(node: NodeV, d: Seq<u8>, key_size: nat, row_size: nat, cols: Seq<FieldV>)
    requires
        node_fits(node, key_size, row_size, cols, d.len()),
    ensures
        stored_is_root(node_written(node, d, key_size, row_size, cols)) == (node.parent() is None),
        stored_is_leaf(node_written(node, d, key_size, row_size, cols)) == (node is Leaf),
        stored_parent(node_written(node, d, key_size, row_size, cols)) == node.parent(),
        stored_num_cells(node_written(node, d, key_size, row_size, cols)) == node.num_cells(),
{
    let h = splice(d, 0, header_written(node));
    let w = node_written(node, d, key_size, row_size, cols);
    lemma_header_read(node, d);
    lemma_splice_facts(d, 0, header_written(node));
    assert(header_written(node).len() == 12) by {
        crate::codec::lemma_le_bytes();
    }
    match node {
        NodeV::Leaf { cells, .. } => {
            lemma_leaf_len(cells, cols, h, key_size, row_size, cells.len());
        },
        NodeV::Internal { keys, children, .. } => {
            lemma_internal_len(keys, children, h, key_size, cols[0], min_len(keys.len(), children.len()));
        },
    }
    assert(w[1] == h[1]);
    assert(h[1] == header_written(node)[1]);
    lemma_node_roundtrip(node, d, key_size, row_size, cols);
}

/// A node that fits can be written.
pub proof fn lemma_fits_writable(node: NodeV, key_size: nat, row_size: nat, cols: Seq<FieldV>, dest_len: nat)
    requires
        node_fits(node, key_size, row_size, cols, dest_len),
    ensures
        node_writable(node, key_size, row_size, cols, dest_len),
{
    match node {
        NodeV::Leaf { cells, .. } => {
            assert(leaf_cell_offset(cells.len() as int, key_size as int, row_size as int) <= usize::MAX);
            assert forall|k: int| 0 <= k < cells.len() implies #[trigger] leaf_cell_writable(
                cells,
                cols,
                key_size,
                row_size,
                dest_len,
                k,
            ) by {
                lemma_leaf_offsets(k, cells.len() as int, key_size, row_size);
                assert(cell_fits(cells, cols, key_size, k));
                let off = leaf_cell_offset(k, key_size as int, row_size as int);
                let row = cells[k].1;
                assert forall|j: int| 0 <= j < pairs(row, cols) implies crate::record::column_offset(
                    cols,
                    j,
                ) + needed(#[trigger] row[j], byte_size_of(cols[j]) as nat) <= (dest_len - (off
                    + key_size)) as nat by {
                    crate::record::lemma_column_end(cols, j);
                    assert(crate::record::fits_column(row[j], cols[j]));
                }
                assert(off + key_size <= dest_len);
                assert(needed(cells[k].0, key_size) <= key_size);
                assert(row_size_of(cols) <= usize::MAX);
                assert(record_writable(row, cols, (dest_len - (off + key_size)) as nat));
            }
        },
        NodeV::Internal { keys, children, .. } => {
            assert forall|k: int| 0 <= k < min_len(keys.len(), children.len()) implies needed(
                #[trigger] keys[k],
                key_size,
            ) <= key_size by {
                assert(key_fits(keys[k], cols[0], key_size));
            }
        },
    }
}


// ---------------------------------------------------------------------------
// Pages that hold a node.
/// The bytes of cell `k` of a leaf page.
pub open spec fn leaf_region(page: Seq<u8>, k: int, key_size: nat, row_size: nat) -> Seq<u8> {
    let off = leaf_cell_offset(k, key_size as int, row_size as int);
    page.subrange(off, off + key_size + row_size)
}

/// The bytes `region` of a leaf cell hold the encoding of the cell `c`: its
/// key first, its row after the key's `key_size` bytes.
pub open spec fn cell_holds(region: Seq<u8>, c: (ValueV, Seq<ValueV>), key_size: nat, cols: Seq<FieldV>) -> bool {
    let e = encoded(c.0, key_size);
    &&& e.len() <= region.len()
    &&& region.take(e.len() as int) == e
    &&& key_size <= region.len()
    &&& row_holds(region.skip(key_size as int), c.1, cols)
}

pub open spec fn leaf_cells_hold(page: Seq<u8>, cells: Seq<(ValueV, Seq<ValueV>)>, key_size: nat, row_size: nat, cols: Seq<FieldV>) -> bool {
    forall|k: int| 0 <= k < cells.len() ==> #[trigger] cell_holds(
        leaf_region(page, k, key_size, row_size),
        cells[k],
        key_size,
        cols,
    )
}

/// A page holds a node: the node fits a page, the page reads back as it, and
/// for a leaf each cell's bytes hold the cell.
pub open spec fn page_holds(page: Seq<u8>, node: NodeV, key_size: nat, row_size: nat, cols: Seq<FieldV>) -> bool {
    &&& page.len() == PAGE_SIZE
    &&& node_fits(node, key_size, row_size, cols, PAGE_SIZE as nat)
    &&& node_readable(page, key_size, row_size, cols)
    &&& decoded_node(page, key_size, row_size, cols) == node
    &&& (node matches NodeV::Leaf { cells, .. } ==> leaf_cells_hold(page, cells, key_size, row_size, cols))
}

/// A page of the right size whose header names a leaf with the cells, whose
/// cells hold them, and whose node fits, holds the leaf.
pub proof fn lemma_leaf_from_regions(
    page: Seq<u8>,
    parent: Option<usize>,
    cells: Seq<(ValueV, Seq<ValueV>)>,
    next_leaf: Option<usize>,
    ks: nat,
    rs: nat,
    cols: Seq<FieldV>,
)
    requires
        page.len() == PAGE_SIZE,
        node_fits(NodeV::Leaf { parent, cells, next_leaf }, ks, rs, cols, PAGE_SIZE as nat),
        stored_is_leaf(page),
        stored_parent(page) == parent,
        stored_num_cells(page) == cells.len(),
        page_of(stored_pointer(page)) == next_leaf,
        leaf_cells_hold(page, cells, ks, rs, cols),
    ensures
        page_holds(page, NodeV::Leaf { parent, cells, next_leaf }, ks, rs, cols),
{
    let node = NodeV::Leaf { parent, cells, next_leaf };
    let n = cells.len();
    assert forall|k: int| 0 <= k < n implies #[trigger] leaf_cell_readable(page, k, ks, rs, cols)
        && leaf_key_at(page, k, ks, rs, cols) == cells[k].0 && leaf_row_at(page, k, ks, rs, cols)
        == cells[k].1 by {
        lemma_leaf_offsets(k, n as int, ks, rs);
        assert(cell_fits(cells, cols, ks, k));
        let off = leaf_cell_offset(k, ks as int, rs as int);
        let reg = leaf_region(page, k, ks, rs);
        assert(cell_holds(reg, cells[k], ks, cols));
        let e = encoded(cells[k].0, ks);
        lemma_encoded_len(cells[k].0, ks);
        assert(page.skip(off).take(e.len() as int) =~= reg.take(e.len() as int));
        lemma_value_decodes(cells[k].0, cols[0].data_type, ks, page.skip(off));
        assert(page.subrange(off + ks, off + ks + rs) =~= reg.skip(ks as int));
        lemma_row_holds_decodes(reg.skip(ks as int), cells[k].1, cols);
    }
    assert forall|k: int| 0 <= k < n implies decoded_node(page, ks, rs, cols)->Leaf_cells[k]
        == cells[k] by {
        assert(leaf_cell_readable(page, k, ks, rs, cols));
    }
    assert(decoded_node(page, ks, rs, cols)->Leaf_cells =~= cells);
}

/// Writing a node that fits a page leaves a page that holds it.
pub proof fn lemma_written_holds(node: NodeV, d: Seq<u8>, ks: nat, rs: nat, cols: Seq<FieldV>)
    requires
        node_fits(node, ks, rs, cols, PAGE_SIZE as nat),
        d.len() == PAGE_SIZE,
    ensures
        page_holds(node_written(node, d, ks, rs, cols), node, ks, rs, cols),
{
    lemma_node_roundtrip(node, d, ks, rs, cols);
    let f = node_written(node, d, ks, rs, cols);
    match node {
        NodeV::Leaf { parent, cells, next_leaf } => {
            let n = cells.len();
            let h = splice(d, 0, header_written(node));
            lemma_header_read(node, d);
            assert(f == written_leaf(cells, cols, h, ks, rs, n));
            lemma_leaf_len(cells, cols, h, ks, rs, n);
            assert forall|k: int| 0 <= k < n implies #[trigger] cell_holds(
                leaf_region(f, k, ks, rs),
                cells[k],
                ks,
                cols,
            ) by {
                lemma_leaf_cell(cells, cols, h, ks, rs, k);
                lemma_leaf_prefix(cells, cols, h, ks, rs, (k + 1) as nat, n);
                lemma_leaf_offsets(k, n as int, ks, rs);
                lemma_leaf_len(cells, cols, h, ks, rs, (k + 1) as nat);
                let w = written_leaf(cells, cols, h, ks, rs, (k + 1) as nat);
                let off = leaf_cell_offset(k, ks as int, rs as int);
                assert(cell_fits(cells, cols, ks, k));
                let e = encoded(cells[k].0, ks);
                lemma_encoded_len(cells[k].0, ks);
                let reg = leaf_region(f, k, ks, rs);
                assert(reg =~= w.subrange(off, off + ks + rs));
                assert(reg.take(e.len() as int) =~= w.subrange(off, off + e.len()));
                let x = choose|x: Seq<u8>|
                    x.len() == rs && w.subrange(off + ks, off + ks + rs) == #[trigger] written_record(
                        cells[k].1,
                        cols,
                        x,
                        pairs(cells[k].1, cols),
                    );
                lemma_written_row_holds(cells[k].1, cols, x);
                assert(reg.skip(ks as int) =~= w.subrange(off + ks, off + ks + rs));
            }
            assert(f.len() == PAGE_SIZE);
            assert(leaf_cells_hold(f, cells, ks, rs, cols));
        },
        NodeV::Internal { keys, children, .. } => {
            let h = splice(d, 0, header_written(node));
            lemma_header_read(node, d);
            assert(keys_fit(keys, cols[0], ks));
            lemma_internal_len(keys, children, h, ks, cols[0], keys.len());
            assert(min_len(keys.len(), children.len()) == keys.len());
        },
    }
}

} // verus!
