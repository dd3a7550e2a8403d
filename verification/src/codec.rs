use vstd::prelude::*;
use vstd::bytes::{spec_u64_from_le_bytes, spec_u64_to_le_bytes, u64_from_le_bytes, u64_to_le_bytes};
use vstd::slice::slice_subrange;

verus! {

/// `dest` with `bytes` written over it from position `off` on.
pub open spec fn splice(dest: Seq<u8>, off: int, bytes: Seq<u8>) -> Seq<u8> {
    dest.take(off) + bytes + dest.skip(off + bytes.len())
}

pub open spec fn zeros(n: nat) -> Seq<u8> {
    Seq::new(n, |i: int| 0u8)
}

/// The position of the first zero byte of `s`, or its length if it has none.
pub open spec fn zero_end(s: Seq<u8>) -> nat
    decreases s.len(),
{
    if s.len() == 0 {
        0
    } else if s[0] == 0 {
        0
    } else {
        1 + zero_end(s.drop_first())
    }
}

pub proof fn lemma_zero_end(s: Seq<u8>, i: int)
    requires
        0 <= i <= s.len(),
        forall|j: int| 0 <= j < i ==> s[j] != 0,
        i < s.len() ==> s[i] == 0,
    ensures
        zero_end(s) == i,
    decreases s.len(),
{
    if s.len() > 0 && i > 0 {
        lemma_zero_end(s.drop_first(), i - 1);
    }
}

pub proof fn lemma_zero_end_bound(s: Seq<u8>)
    ensures
        zero_end(s) <= s.len(),
        forall|j: int| 0 <= j < zero_end(s) ==> s[j] != 0,
        zero_end(s) < s.len() ==> s[zero_end(s) as int] == 0,
    decreases s.len(),
{
    if s.len() > 0 && s[0] != 0 {
        lemma_zero_end_bound(s.drop_first());
        assert forall|j: int| 0 <= j < zero_end(s) implies s[j] != 0 by {
            if j > 0 {
                assert(s[j] == s.drop_first()[j - 1]);
            }
        }
    }
}

/// Writes `bytes` into `dest` from position `off` on.
pub fn write_bytes(dest: &mut [u8], off: usize, bytes: &[u8])
    requires
        off + bytes@.len() <= old(dest)@.len(),
    ensures
        final(dest)@ == splice(old(dest)@, off as int, bytes@),
{
    let ghost d0 = dest@;
    let n = dest.len();
    let mut i: usize = 0;
    while i < bytes.len()
        invariant
            n == d0.len(),
            off + bytes@.len() <= d0.len(),
            dest@.len() == d0.len(),
            0 <= i <= bytes@.len(),
            forall|j: int| 0 <= j < dest@.len() ==> #[trigger] dest@[j] == (if off <= j < off + i {
                bytes@[j - off]
            } else {
                d0[j]
            }),
        decreases bytes@.len() - i,
    {
        dest[off + i] = bytes[i];
        i = i + 1;
    }
    proof {
        assert(dest@ =~= splice(d0, off as int, bytes@));
    }
}

/// Sets `dest[from..to]` to zero.
pub fn fill_zero(dest: &mut [u8], from: usize, to: usize)
    requires
        from <= to <= old(dest)@.len(),
    ensures
        final(dest)@ == splice(old(dest)@, from as int, zeros((to - from) as nat)),
{
    let ghost d0 = dest@;
    let mut i: usize = from;
    while i < to
        invariant
            from <= i <= to <= d0.len(),
            dest@.len() == d0.len(),
            forall|j: int| 0 <= j < dest@.len() ==> #[trigger] dest@[j] == (if from <= j < i {
                0u8
            } else {
                d0[j]
            }),
        decreases to - i,
    {
        dest[i] = 0;
        i = i + 1;
    }
    proof {
        assert(dest@ =~= splice(d0, from as int, zeros((to - from) as nat)));
    }
}

/// Sets `dest[from..to]` to `b`.
pub fn fill_bytes(dest: &mut [u8], from: usize, to: usize, b: u8)
    requires
        from <= to <= old(dest)@.len(),
    ensures
        final(dest)@ == splice(old(dest)@, from as int, Seq::new((to - from) as nat, |i: int| b)),
{
    let ghost d0 = dest@;
    let mut i: usize = from;
    while i < to
        invariant
            from <= i <= to <= d0.len(),
            dest@.len() == d0.len(),
            forall|j: int| 0 <= j < dest@.len() ==> #[trigger] dest@[j] == (if from <= j < i {
                b
            } else {
                d0[j]
            }),
        decreases to - i,
    {
        dest[i] = b;
        i = i + 1;
    }
    proof {
        assert(dest@ =~= splice(d0, from as int, Seq::new((to - from) as nat, |i: int| b)));
    }
}

/// The position of the first zero byte of `src[from..]`, counted from `from`,
/// or the length of that part if it has none.
pub fn find_zero(src: &[u8], from: usize) -> (r: usize)
    requires
        from <= src@.len(),
    ensures
        r == zero_end(src@.skip(from as int)),
{
    let ghost s = src@.skip(from as int);
    let mut i: usize = from;
    while i < src.len()
        invariant
            from <= i <= src@.len(),
            s == src@.skip(from as int),
            forall|j: int| from <= j < i ==> src@[j] != 0,
        decreases src@.len() - i,
    {
        if src[i] == 0 {
            proof {
                lemma_zero_end(s, i - from);
            }
            return i - from;
        }
        i = i + 1;
    }
    proof {
        lemma_zero_end(s, i - from);
    }
    i - from
}

/// The little-endian `u16` at `s[off..off + 2]`.
pub open spec fn le_u16_at(s: Seq<u8>, off: int) -> u16 {
    (s[off] as int + 256 * (s[off + 1] as int)) as u16
}

/// The little-endian `u32` at `s[off..off + 4]`.
pub open spec fn le_u32_at(s: Seq<u8>, off: int) -> u32 {
    (s[off] as int + 256 * (s[off + 1] as int) + 65536 * (s[off + 2] as int) + 16777216 * (s[off
        + 3] as int)) as u32
}

pub open spec fn le_u64_at(s: Seq<u8>, off: int) -> u64 {
    spec_u64_from_le_bytes(s.subrange(off, off + 8))
}

/// The little-endian bytes of a `u16`.
pub open spec fn u16_bytes(x: u16) -> Seq<u8> {
    seq![(x % 256) as u8, (x / 256) as u8]
}

/// The little-endian bytes of a `u32`.
pub open spec fn u32_bytes(x: u32) -> Seq<u8> {
    seq![
        (x % 256) as u8,
        ((x / 256) % 256) as u8,
        ((x / 65536) % 256) as u8,
        (x / 16777216) as u8,
    ]
}

/// Little-endian bytes read back as the number they were made of.
pub proof fn lemma_le_bytes()
    ensures
        forall|x: u16| #[trigger] u16_bytes(x).len() == 2 && le_u16_at(u16_bytes(x), 0) == x,
        forall|x: u32| #[trigger] u32_bytes(x).len() == 4 && le_u32_at(u32_bytes(x), 0) == x,
{
    assert forall|x: u16| #[trigger] u16_bytes(x).len() == 2 && le_u16_at(u16_bytes(x), 0) == x by {
        assert(x as int == x % 256 + 256 * (x / 256));
    }
    assert forall|x: u32| #[trigger] u32_bytes(x).len() == 4 && le_u32_at(u32_bytes(x), 0) == x by {
        let b = u32_bytes(x);
        let x0 = x as int;
        assert(x0 == x0 % 256 + 256 * ((x0 / 256) % 256) + 65536 * ((x0 / 65536) % 256)
            + 16777216 * (x0 / 16777216)) by (nonlinear_arith)
            requires
                0 <= x0 < 0x1_0000_0000,
        ;
    }
}

pub open spec fn u64_bytes(x: u64) -> Seq<u8> {
    spec_u64_to_le_bytes(x)
}

/// The little-endian `u16` at `src[off..off + 2]`.
pub fn read_u16(src: &[u8], off: usize) -> (x: u16)
    requires
        off + 2 <= src@.len(),
    ensures
        x == le_u16_at(src@, off as int),
{
    let _n = src.len();
    let lo = src[off] as u16;
    let hi = src[off + 1] as u16;
    lo + 256 * hi
}

/// The little-endian `u32` at `src[off..off + 4]`.
pub fn read_u32(src: &[u8], off: usize) -> (x: u32)
    requires
        off + 4 <= src@.len(),
    ensures
        x == le_u32_at(src@, off as int),
{
    let _n = src.len();
    let b0 = src[off] as u32;
    let b1 = src[off + 1] as u32;
    let b2 = src[off + 2] as u32;
    let b3 = src[off + 3] as u32;
    b0 + 256 * b1 + 65536 * b2 + 16777216 * b3
}

/// The little-endian `u64` at `src[off..off + 8]`.
pub fn read_u64(src: &[u8], off: usize) -> (x: u64)
    requires
        off + 8 <= src@.len(),
    ensures
        x == le_u64_at(src@, off as int),
{
    let _n = src.len();
    u64_from_le_bytes(slice_subrange(src, off, off + 8))
}

/// The little-endian bytes of a `u16`.
pub fn u16_le(x: u16) -> (b: Vec<u8>)
    ensures
        b@ == u16_bytes(x),
{
    let b: Vec<u8> = vec![(x % 256) as u8, (x / 256) as u8];
    proof {
        assert(b@ =~= u16_bytes(x));
    }
    b
}

/// The little-endian bytes of a `u32`.
pub fn u32_le(x: u32) -> (b: Vec<u8>)
    ensures
        b@ == u32_bytes(x),
{
    let b: Vec<u8> = vec![
        (x % 256) as u8,
        ((x / 256) % 256) as u8,
        ((x / 65536) % 256) as u8,
        (x / 16777216) as u8,
    ];
    proof {
        assert(b@ =~= u32_bytes(x));
    }
    b
}

pub fn write_u16(dest: &mut [u8], off: usize, x: u16)
    requires
        off + 2 <= old(dest)@.len(),
    ensures
        final(dest)@ == splice(old(dest)@, off as int, u16_bytes(x)),
{
    let b = u16_le(x);
    write_bytes(dest, off, b.as_slice());
}

pub fn write_u32(dest: &mut [u8], off: usize, x: u32)
    requires
        off + 4 <= old(dest)@.len(),
    ensures
        final(dest)@ == splice(old(dest)@, off as int, u32_bytes(x)),
{
    let b = u32_le(x);
    write_bytes(dest, off, b.as_slice());
}

pub fn write_u64(dest: &mut [u8], off: usize, x: u64)
    requires
        off + 8 <= old(dest)@.len(),
    ensures
        final(dest)@ == splice(old(dest)@, off as int, u64_bytes(x)),
{
    let b = u64_to_le_bytes(x);
    write_bytes(dest, off, b.as_slice());
}

/// Reading back a little-endian integer gives what was written, and the
/// bytes outside the written range are unchanged.
pub proof fn lemma_le_roundtrip(d: Seq<u8>, off: int, x16: u16, x32: u32, x64: u64)
    requires
        0 <= off,
    ensures
        off + 2 <= d.len() ==> le_u16_at(splice(d, off, u16_bytes(x16)), off) == x16,
        off + 4 <= d.len() ==> le_u32_at(splice(d, off, u32_bytes(x32)), off) == x32,
        off + 8 <= d.len() ==> le_u64_at(splice(d, off, u64_bytes(x64)), off) == x64,
{
    lemma_le_bytes();
    vstd::bytes::lemma_auto_spec_u64_to_from_le_bytes();
    if off + 2 <= d.len() {
        assert(splice(d, off, u16_bytes(x16)).subrange(off, off + 2) =~= u16_bytes(x16));
    }
    if off + 4 <= d.len() {
        assert(splice(d, off, u32_bytes(x32)).subrange(off, off + 4) =~= u32_bytes(x32));
    }
    if off + 8 <= d.len() {
        assert(splice(d, off, u64_bytes(x64)).subrange(off, off + 8) =~= u64_bytes(x64));
    }
}

} // verus!
