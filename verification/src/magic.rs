use vstd::prelude::*;

use crate::codec::{le_u32_at, read_u32, splice, u32_bytes, write_bytes, write_u32};
use crate::error::Error;
use crate::pager::PAGE_SIZE;

verus! {

pub const CURRENT_VERSION: u32 = 1;

/// The four bytes that open a database file: "RSDB".
pub open spec fn magic_bytes() -> Seq<u8> {
    seq![0x52u8, 0x53u8, 0x44u8, 0x42u8]
}

/// The header of a database file:
/// magic [0..4], version [4..8], system table root [8..12], page size [12..16],
/// each number a little-endian `u32`.
#[derive(Debug)]
pub struct DatabaseHeader {
    pub version: u32,
    pub page_size: usize,
    pub system_table_page: usize,
}

/// The sixteen bytes `serialize` writes for the system table's root page.
pub open spec fn header_bytes(root_page: usize) -> Seq<u8> {
    magic_bytes() + u32_bytes(CURRENT_VERSION) + u32_bytes(root_page as u32) + u32_bytes(
        PAGE_SIZE as u32,
    )
}

/// The header `deserialize` reads from `src`, if it opens with the magic.
pub open spec fn header_of(src: Seq<u8>) -> Option<(u32, usize, usize)> {
    if src.take(4) == magic_bytes() {
        Some((le_u32_at(src, 4), le_u32_at(src, 12) as usize, le_u32_at(src, 8) as usize))
    } else {
        None
    }
}

impl DatabaseHeader {
    /// The header of a new file whose system table starts at `system_table_page`.
    pub fn new(system_table_page: usize) -> (h: Self)
        ensures
            h.version == CURRENT_VERSION,
            h.page_size == PAGE_SIZE,
            h.system_table_page == system_table_page,
    {
        Self { version: CURRENT_VERSION, page_size: PAGE_SIZE, system_table_page }
    }

    /// Writes the header, with `root_page` as the system table's root, at the
    /// start of `dest`. The version and page size written are the current ones.
    pub fn serialize(&self, root_page: usize, dest: &mut [u8]) -> (r: Result<(), Error>)
        requires
            old(dest)@.len() >= 16,
        ensures
            r is Ok,
            final(dest)@ == splice(old(dest)@, 0, header_bytes(root_page)),
    {
        let ghost d0 = dest@;
        let magic: [u8; 4] = [0x52u8, 0x53u8, 0x44u8, 0x42u8];
        proof {
            assert(magic@ =~= magic_bytes());
        }
        write_bytes(dest, 0, &magic);
        let ghost d1 = dest@;
        write_u32(dest, 4, CURRENT_VERSION);
        let ghost d2 = dest@;
        let root = root_page as u32;
        write_u32(dest, 8, root);
        let ghost d3 = dest@;
        let size = PAGE_SIZE as u32;
        write_u32(dest, 12, size);
        proof {
            crate::codec::lemma_le_bytes();
            assert(dest@ =~= splice(d0, 0, header_bytes(root_page)));
        }
        Ok(())
    }

    /// Reads a header from the start of `src`; `None` when `src` does not
    /// open with the magic bytes.
    pub fn deserialize(src: &[u8]) -> (r: Option<Self>)
        requires
            src@.len() >= 16,
        ensures
            match r {
                Some(h) => header_of(src@) == Some((h.version, h.page_size, h.system_table_page)),
                None => header_of(src@) is None,
            },
    {
        if !(src[0] == 0x52u8 && src[1] == 0x53u8 && src[2] == 0x44u8 && src[3] == 0x42u8) {
            proof {
                if src@.take(4) == magic_bytes() {
                    assert(src@[0] == src@.take(4)[0]);
                    assert(src@[1] == src@.take(4)[1]);
                    assert(src@[2] == src@.take(4)[2]);
                    assert(src@[3] == src@.take(4)[3]);
                }
            }
            return None;
        }
        proof {
            assert(src@.take(4) =~= magic_bytes());
        }
        let version = read_u32(src, 4);
        let system_table_page = read_u32(src, 8) as usize;
        let page_size = read_u32(src, 12) as usize;
        Some(Self { version, page_size, system_table_page })
    }
}

/// A header written for a root page that fits in 32 bits reads back as the
/// current version, the page size and that root page.
pub proof fn lemma_header_roundtrip(dest: Seq<u8>, root_page: usize)
    requires
        dest.len() >= 16,
        root_page <= u32::MAX,
    ensures
        header_of(splice(dest, 0, header_bytes(root_page))) == Some(
            (CURRENT_VERSION, PAGE_SIZE, root_page),
        ),
{
    let out = splice(dest, 0, header_bytes(root_page));
    crate::codec::lemma_le_bytes();
    assert(out.take(4) =~= magic_bytes());
    assert(out.subrange(4, 8) =~= u32_bytes(CURRENT_VERSION));
    assert(out.subrange(8, 12) =~= u32_bytes(root_page as u32));
    assert(out.subrange(12, 16) =~= u32_bytes(PAGE_SIZE as u32));
}

} // verus!
