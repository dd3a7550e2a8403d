use vstd::prelude::*;

use crate::codec::splice;
use crate::field::{byte_size_of, Field, FieldExt, FieldV};
use crate::schema::{lemma_row_size_prefix, row_size_of};
use crate::value::{
    decoded, encoded, lemma_value_decodes, needed, readable_from, round_trips, Value, ValueV,
};

verus! {

/// The values of one stored row, in column order.
#[derive(Debug, Clone, PartialEq)]
pub struct Record(pub Vec<Value>);

pub open spec fn value_views(vs: Seq<Value>) -> Seq<ValueV> {
    vs.map_values(|v: Value| v@)
}

impl View for Record {
    type V = Seq<ValueV>;

    open spec fn view(&self) -> Seq<ValueV> {
        value_views(self.0@)
    }
}

pub open spec fn ref_views(cols: Seq<&Field>) -> Seq<FieldV> {
    cols.map_values(|f: &Field| f@)
}

/// Where column `k` starts in a stored row: after the columns before it.
pub open spec fn column_offset(cols: Seq<FieldV>, k: int) -> nat {
    row_size_of(cols.take(k))
}

/// Whether a row of `cols` can be read from `src`: every column starts
/// inside it and has the bytes its type needs.
pub open spec fn record_readable(cols: Seq<FieldV>, src: Seq<u8>) -> bool {
    &&& row_size_of(cols) <= usize::MAX
    &&& forall|k: int| 0 <= k < cols.len() ==> #[trigger] column_readable(cols, src, k)
}

pub open spec fn column_readable(cols: Seq<FieldV>, src: Seq<u8>, k: int) -> bool {
    &&& column_offset(cols, k) <= src.len()
    &&& readable_from(src.skip(column_offset(cols, k) as int), cols[k].data_type)
}

/// The values `Record::deserialize` reads.
pub open spec fn decoded_record(cols: Seq<FieldV>, src: Seq<u8>) -> Seq<ValueV> {
    Seq::new(
        cols.len(),
        |k: int| decoded(src.skip(column_offset(cols, k) as int), cols[k].data_type),
    )
}

/// `dest` after the first `n` values are written, each at its column's place.
pub open spec fn written_record(vals: Seq<ValueV>, cols: Seq<FieldV>, dest: Seq<u8>, n: nat) -> Seq<
    u8,
>
    decreases n,
{
    if n == 0 {
        dest
    } else {
        let k = n - 1;
        splice(
            written_record(vals, cols, dest, k as nat),
            column_offset(cols, k) as int,
            encoded(vals[k], byte_size_of(cols[k]) as nat),
        )
    }
}

pub open spec fn pairs(vals: Seq<ValueV>, cols: Seq<FieldV>) -> nat {
    if vals.len() <= cols.len() {
        vals.len()
    } else {
        cols.len()
    }
}

/// Whether the values can be written: every pair of value and column has
/// its place and the bytes the value needs.
pub open spec fn record_writable(vals: Seq<ValueV>, cols: Seq<FieldV>, dest_len: nat) -> bool {
    &&& row_size_of(cols) <= usize::MAX
    &&& forall|k: int|
        0 <= k < pairs(vals, cols) ==> column_offset(cols, k) + needed(
            #[trigger] vals[k],
            byte_size_of(cols[k]) as nat,
        ) <= dest_len
}

/// Column `k` ends within the row.
pub proof fn lemma_column_end(cols: Seq<FieldV>, k: int)
    requires
        0 <= k < cols.len(),
    ensures
        column_offset(cols, k) + byte_size_of(cols[k]) <= row_size_of(cols),
{
    lemma_offset_step(cols, k);
}

proof fn lemma_offset_step(cols: Seq<FieldV>, k: int)
    requires
        0 <= k < cols.len(),
    ensures
        column_offset(cols, k + 1) == column_offset(cols, k) + byte_size_of(cols[k]),
        column_offset(cols, k + 1) <= row_size_of(cols),
{
    assert(cols.take(k + 1).drop_last() =~= cols.take(k));
    lemma_row_size_prefix(cols, k + 1);
}

impl Record {
    /// A copy of the row.
    pub fn copy(&self) -> (r: Record)
        ensures
            r@ == self@,
    {
        let mut values: Vec<Value> = Vec::new();
        let mut i: usize = 0;
        while i < self.0.len()
            invariant
                0 <= i <= self.0@.len(),
                value_views(values@) == value_views(self.0@).take(i as int),
            decreases self.0@.len() - i,
        {
            let v = self.0[i].copy();
            let ghost prev = values@;
            values.push(v);
            proof {
                assert(value_views(values@) =~= value_views(prev).push(v@));
                assert(value_views(self.0@).take(i + 1) =~= value_views(self.0@).take(i as int).push(
                    self.0@[i as int]@,
                ));
            }
            i = i + 1;
        }
        proof {
            assert(value_views(self.0@).take(i as int) =~= value_views(self.0@));
        }
        Record(values)
    }

    pub fn new() -> (r: Record)
        ensures
            r@ == Seq::<ValueV>::empty(),
    {
        let r = Record(Vec::new());
        proof {
            assert(r@ =~= Seq::<ValueV>::empty());
        }
        r
    }

    pub fn with_capacity(size: usize) -> (r: Record)
        ensures
            r@ == Seq::<ValueV>::empty(),
    {
        let r = Record(Vec::with_capacity(size));
        proof {
            assert(r@ =~= Seq::<ValueV>::empty());
        }
        r
    }

    /// Reads one value per column from `src`, each at its column's place.
    pub fn deserialize(columns: &[&Field], src: &[u8]) -> (r: Record)
        requires
            record_readable(ref_views(columns@), src@),
        ensures
            r@ == decoded_record(ref_views(columns@), src@),
    {
        proof {
            assert(src@.skip(0) =~= src@);
        }
        Self::deserialize_at(columns, src, 0)
    }

    /// Reads one value per column from `src[base..]`.
    pub fn deserialize_at(columns: &[&Field], src: &[u8], base: usize) -> (r: Record)
        requires
            base <= src@.len(),
            record_readable(ref_views(columns@), src@.skip(base as int)),
        ensures
            r@ == decoded_record(ref_views(columns@), src@.skip(base as int)),
    {
        let ghost cols = ref_views(columns@);
        let ghost s = src@.skip(base as int);
        let mut values: Vec<Value> = Vec::with_capacity(columns.len());
        let slen = src.len();
        let mut offset: usize = 0;
        let mut k: usize = 0;
        while k < columns.len()
            invariant
                0 <= k <= columns@.len(),
                slen == src@.len(),
                base <= src@.len(),
                cols == ref_views(columns@),
                s == src@.skip(base as int),
                record_readable(cols, s),
                offset == column_offset(cols, k as int),
                value_views(values@) == decoded_record(cols, s).take(k as int),
            decreases columns@.len() - k,
        {
            proof {
                lemma_offset_step(cols, k as int);
                assert(column_readable(cols, s, k as int));
                assert(s.skip(offset as int) =~= src@.skip(base + offset));
            }
            let v = Value::deserialize_at(src, base + offset, columns[k].data_type);
            let ghost prev = values@;
            values.push(v);
            proof {
                assert(value_views(values@) =~= value_views(prev).push(v@));
                assert(decoded_record(cols, s).take(k + 1) =~= decoded_record(cols, s).take(
                    k as int,
                ).push(decoded_record(cols, s)[k as int]));
            }
            offset = offset + columns[k].byte_size();
            k = k + 1;
        }
        proof {
            assert(decoded_record(cols, s).take(k as int) =~= decoded_record(cols, s));
        }
        Record(values)
    }

    /// Writes the values, paired with the columns in order, each at its
    /// column's place.
    pub fn serialize(&self, columns: &[&Field], dest: &mut [u8])
        requires
            record_writable(self@, ref_views(columns@), old(dest)@.len()),
        ensures
            final(dest)@ == written_record(
                self@,
                ref_views(columns@),
                old(dest)@,
                pairs(self@, ref_views(columns@)),
            ),
    {
        let ghost d = dest@;
        proof {
            assert(d.skip(0) =~= d);
        }
        self.serialize_at(columns, dest, 0);
        proof {
            assert(dest@.skip(0) =~= dest@);
        }
    }

    /// Writes the values, paired with the columns in order, from `dest[base..]` on.
    pub fn serialize_at(&self, columns: &[&Field], dest: &mut [u8], base: usize)
        requires
            base <= old(dest)@.len(),
            record_writable(self@, ref_views(columns@), (old(dest)@.len() - base) as nat),
        ensures
            final(dest)@.len() == old(dest)@.len(),
            final(dest)@.take(base as int) == old(dest)@.take(base as int),
            final(dest)@.skip(base as int) == written_record(
                self@,
                ref_views(columns@),
                old(dest)@.skip(base as int),
                pairs(self@, ref_views(columns@)),
            ),
    {
        let ghost cols = ref_views(columns@);
        let ghost vals = self@;
        let ghost d0 = dest@;
        let n = if self.0.len() <= columns.len() {
            self.0.len()
        } else {
            columns.len()
        };
        let dlen = dest.len();
        let mut offset: usize = 0;
        let mut k: usize = 0;
        while k < n
            invariant
                0 <= k <= n,
                dlen == d0.len(),
                n == pairs(vals, cols),
                n <= self.0@.len(),
                n <= columns@.len(),
                base <= d0.len(),
                cols == ref_views(columns@),
                vals == self@,
                record_writable(vals, cols, (d0.len() - base) as nat),
                offset == column_offset(cols, k as int),
                dest@.len() == d0.len(),
                dest@.take(base as int) == d0.take(base as int),
                dest@.skip(base as int) == written_record(vals, cols, d0.skip(base as int), k as nat),
            decreases n - k,
        {
            proof {
                lemma_offset_step(cols, k as int);
                assert(vals[k as int] == self.0@[k as int]@);
            }
            let ghost before = dest@;
            let size = columns[k].byte_size();
            proof {
                crate::value::lemma_encoded_len(vals[k as int], size as nat);
            }
            self.0[k].serialize_at(dest, base + offset, size);
            proof {
                let w = written_record(vals, cols, d0.skip(base as int), k as nat);
                let e = encoded(vals[k as int], size as nat);
                assert(dest@.take(base as int) =~= d0.take(base as int));
                assert(dest@.skip(base as int) =~= splice(w, offset as int, e));
            }
            offset = offset + size;
            k = k + 1;
        }
    }
}

// ---------------------------------------------------------------------------
/// A value fits its column when it reads back from it (`round_trips`) and
/// the bytes it writes stay inside the column.
pub open spec fn fits_column(v: ValueV, col: FieldV) -> bool {
    &&& round_trips(v, col.data_type, byte_size_of(col) as nat)
    &&& needed(v, byte_size_of(col) as nat) <= byte_size_of(col)
    &&& encoded(v, byte_size_of(col) as nat).len() <= byte_size_of(col)
}

pub open spec fn fits_columns(vals: Seq<ValueV>, cols: Seq<FieldV>) -> bool {
    &&& vals.len() == cols.len()
    &&& row_size_of(cols) <= usize::MAX
    &&& forall|k: int| 0 <= k < cols.len() ==> fits_column(#[trigger] vals[k], cols[k])
}

proof fn lemma_offsets_grow(cols: Seq<FieldV>, j: int, k: int)
    requires
        0 <= j <= k <= cols.len(),
    ensures
        column_offset(cols, j) <= column_offset(cols, k),
    decreases k - j,
{
    if j < k {
        lemma_offset_step(cols, k - 1);
        lemma_offsets_grow(cols, j, k - 1);
    }
}

/// After the first `n` values are written, the bytes of column `k < n` are
/// those its value encodes.
pub proof fn lemma_written_column(vals: Seq<ValueV>, cols: Seq<FieldV>, dest: Seq<u8>, n: nat, k: int)
    requires
        fits_columns(vals, cols),
        n <= cols.len(),
        0 <= k < n,
        row_size_of(cols) <= dest.len(),
    ensures
        written_record(vals, cols, dest, n).len() == dest.len(),
        ({
            let e = encoded(vals[k], byte_size_of(cols[k]) as nat);
            let off = column_offset(cols, k) as int;
            written_record(vals, cols, dest, n).subrange(off, off + e.len()) == e
        }),
    decreases n,
{
    let j = n - 1;
    lemma_written_len(vals, cols, dest, j as nat);
    let w = written_record(vals, cols, dest, j as nat);
    let ej = encoded(vals[j], byte_size_of(cols[j]) as nat);
    let oj = column_offset(cols, j) as int;
    lemma_offset_step(cols, j);
    assert(fits_column(vals[j], cols[j]));
    let e = encoded(vals[k], byte_size_of(cols[k]) as nat);
    let off = column_offset(cols, k) as int;
    let out = splice(w, oj, ej);
    assert(out.len() == w.len());
    if k == j {
        assert(out.subrange(off, off + e.len()) =~= e);
    } else {
        lemma_written_column(vals, cols, dest, j as nat, k);
        assert(fits_column(vals[k], cols[k]));
        lemma_offset_step(cols, k);
        lemma_offsets_grow(cols, k + 1, j);
        assert(out.subrange(off, off + e.len()) =~= w.subrange(off, off + e.len()));
    }
}

proof fn lemma_written_len(vals: Seq<ValueV>, cols: Seq<FieldV>, dest: Seq<u8>, n: nat)
    requires
        fits_columns(vals, cols),
        n <= cols.len(),
        row_size_of(cols) <= dest.len(),
    ensures
        written_record(vals, cols, dest, n).len() == dest.len(),
    decreases n,
{
    if n > 0 {
        let j = n - 1;
        lemma_written_len(vals, cols, dest, j as nat);
        lemma_offset_step(cols, j);
        assert(fits_column(vals[j], cols[j]));
    }
}

/// A row written with `Record::serialize` and read back with
/// `Record::deserialize` over the same columns gives the values written,
/// when every value fits its column and the buffer holds the row.
pub proof fn lemma_record_roundtrip(vals: Seq<ValueV>, cols: Seq<FieldV>, dest: Seq<u8>)
    requires
        fits_columns(vals, cols),
        row_size_of(cols) <= dest.len(),
    ensures
        record_writable(vals, cols, dest.len()),
        record_readable(cols, written_record(vals, cols, dest, pairs(vals, cols))),
        decoded_record(cols, written_record(vals, cols, dest, pairs(vals, cols))) == vals,
{
    let n = pairs(vals, cols);
    let out = written_record(vals, cols, dest, n);
    lemma_written_len(vals, cols, dest, n);
    assert forall|k: int| 0 <= k < pairs(vals, cols) implies column_offset(cols, k) + needed(
        #[trigger] vals[k],
        byte_size_of(cols[k]) as nat,
    ) <= dest.len() by {
        lemma_offset_step(cols, k);
        assert(fits_column(vals[k], cols[k]));
    }
    assert forall|k: int| 0 <= k < cols.len() implies #[trigger] column_readable(cols, out, k)
        && decoded(out.skip(column_offset(cols, k) as int), cols[k].data_type) == vals[k] by {
        lemma_offset_step(cols, k);
        assert(fits_column(vals[k], cols[k]));
        lemma_written_column(vals, cols, dest, n, k);
        let e = encoded(vals[k], byte_size_of(cols[k]) as nat);
        let off = column_offset(cols, k) as int;
        let s = out.skip(off);
        assert(s.take(e.len() as int) =~= out.subrange(off, off + e.len()));
        lemma_value_decodes(vals[k], cols[k].data_type, byte_size_of(cols[k]) as nat, s);
    }
    assert forall|k: int| 0 <= k < cols.len() implies decoded_record(cols, out)[k] == vals[k] by {
        assert(column_readable(cols, out, k));
    }
    assert(decoded_record(cols, out) =~= vals);
}


/// Every value among the first `n` writes no more bytes than its column has.
pub open spec fn within_columns(vals: Seq<ValueV>, cols: Seq<FieldV>, n: nat) -> bool {
    &&& n <= vals.len()
    &&& n <= cols.len()
    &&& forall|k: int|
        0 <= k < n ==> needed(#[trigger] vals[k], byte_size_of(cols[k]) as nat) <= byte_size_of(
            cols[k],
        )
}

/// Writing a row keeps the length of the buffer.
pub proof fn lemma_written_record_len(vals: Seq<ValueV>, cols: Seq<FieldV>, d: Seq<u8>, n: nat)
    requires
        within_columns(vals, cols, n),
        row_size_of(cols) <= d.len(),
    ensures
        written_record(vals, cols, d, n).len() == d.len(),
    decreases n,
{
    if n > 0 {
        let k = n - 1;
        lemma_written_record_len(vals, cols, d, k as nat);
        lemma_offset_step(cols, k);
        crate::value::lemma_encoded_len(vals[k], byte_size_of(cols[k]) as nat);
    }
}

/// Writing a row changes only its first `row_size_of(cols)` bytes: it can
/// be done on any prefix of the buffer that holds them.
pub proof fn lemma_written_record_local(vals: Seq<ValueV>, cols: Seq<FieldV>, d: Seq<u8>, n: nat, m: int)
    requires
        within_columns(vals, cols, n),
        row_size_of(cols) <= m <= d.len(),
    ensures
        written_record(vals, cols, d, n) == written_record(vals, cols, d.take(m), n) + d.skip(m),
    decreases n,
{
    if n == 0 {
        assert(d =~= d.take(m) + d.skip(m));
    } else {
        let k = n - 1;
        lemma_written_record_local(vals, cols, d, k as nat, m);
        lemma_written_record_len(vals, cols, d.take(m), k as nat);
        lemma_offset_step(cols, k);
        crate::value::lemma_encoded_len(vals[k], byte_size_of(cols[k]) as nat);
        let a = written_record(vals, cols, d.take(m), k as nat);
        let off = column_offset(cols, k) as int;
        let e = encoded(vals[k], byte_size_of(cols[k]) as nat);
        assert(splice(a + d.skip(m), off, e) =~= splice(a, off, e) + d.skip(m));
    }
}


/// The bytes `r` hold the encoding of each value of `row` at its column's place.
pub open spec fn row_holds(r: Seq<u8>, row: Seq<ValueV>, cols: Seq<FieldV>) -> bool {
    forall|k: int| 0 <= k < cols.len() ==> #[trigger] column_holds(r, row, cols, k)
}

pub open spec fn column_holds(r: Seq<u8>, row: Seq<ValueV>, cols: Seq<FieldV>, k: int) -> bool {
    let off = column_offset(cols, k) as int;
    let e = encoded(row[k], byte_size_of(cols[k]) as nat);
    off + e.len() <= r.len() && r.subrange(off, off + e.len()) == e
}

/// Bytes holding a row that fits its columns read back as that row.
pub proof fn lemma_row_holds_decodes(r: Seq<u8>, row: Seq<ValueV>, cols: Seq<FieldV>)
    requires
        fits_columns(row, cols),
        row_size_of(cols) <= r.len(),
        row_holds(r, row, cols),
    ensures
        record_readable(cols, r),
        decoded_record(cols, r) == row,
{
    assert forall|k: int| 0 <= k < cols.len() implies #[trigger] column_readable(cols, r, k)
        && decoded(r.skip(column_offset(cols, k) as int), cols[k].data_type) == row[k] by {
        lemma_offset_step(cols, k);
        assert(fits_column(row[k], cols[k]));
        assert(column_holds(r, row, cols, k));
        let e = encoded(row[k], byte_size_of(cols[k]) as nat);
        let off = column_offset(cols, k) as int;
        assert(r.skip(off).take(e.len() as int) =~= r.subrange(off, off + e.len()));
        lemma_value_decodes(row[k], cols[k].data_type, byte_size_of(cols[k]) as nat, r.skip(off));
    }
    assert forall|k: int| 0 <= k < cols.len() implies decoded_record(cols, r)[k] == row[k] by {
        assert(column_readable(cols, r, k));
    }
    assert(decoded_record(cols, r) =~= row);
}

/// A row written over any bytes holds the row.
pub proof fn lemma_written_row_holds(row: Seq<ValueV>, cols: Seq<FieldV>, x: Seq<u8>)
    requires
        fits_columns(row, cols),
        row_size_of(cols) <= x.len(),
    ensures
        row_holds(written_record(row, cols, x, pairs(row, cols)), row, cols),
        written_record(row, cols, x, pairs(row, cols)).len() == x.len(),
{
    let w = written_record(row, cols, x, pairs(row, cols));
    lemma_written_len(row, cols, x, pairs(row, cols));
    assert forall|k: int| 0 <= k < cols.len() implies #[trigger] column_holds(w, row, cols, k) by {
        lemma_written_column(row, cols, x, pairs(row, cols), k);
        lemma_offset_step(cols, k);
        assert(fits_column(row[k], cols[k]));
        crate::value::lemma_encoded_len(row[k], byte_size_of(cols[k]) as nat);
    }
}

} // verus!
