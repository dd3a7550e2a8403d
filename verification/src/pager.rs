use vstd::prelude::*;

use crate::error::Error;

verus! {

/// Bytes before the first page of a database file.
pub const MAGIC: usize = 4096;

pub const PAGE_SIZE: usize = 4096;

/// Pages a file-backed pager keeps in memory at most.
pub const MAX_CACHE: usize = 32;

/// One page of the database.
#[derive(Debug)]
pub struct Page {
    pub data: [u8; PAGE_SIZE],
}

pub open spec fn zero_page() -> Seq<u8> {
    Seq::new(PAGE_SIZE as nat, |i: int| 0u8)
}

impl Page {
    /// A page of zeros.
    pub fn zeroed() -> (p: Page)
        ensures
            p.data@ == zero_page(),
    {
        let p = Page { data: [0u8; PAGE_SIZE] };
        proof {
            assert(p.data@ =~= zero_page());
        }
        p
    }
}

/// The pages of a database, in memory. A page that was never written reads
/// as zeros. Pages handed out for writing are marked dirty until they are
/// taken to be stored.
pub struct Pager {
    pages: Vec<Page>,
    dirty: Vec<bool>,
    next_page: usize,
}

impl Pager {
    /// The bytes of page `n`.
    pub closed spec fn page(&self, n: int) -> Seq<u8> {
        if 0 <= n < self.pages@.len() {
            self.pages@[n].data@
        } else {
            zero_page()
        }
    }

    /// Whether page `n` was handed out for writing since the pages were last taken.
    pub closed spec fn is_dirty(&self, n: int) -> bool {
        0 <= n < self.dirty@.len() && self.dirty@[n]
    }

    /// The page the next allocation gives.
    pub closed spec fn next(&self) -> usize {
        self.next_page
    }

    pub closed spec fn wf(&self) -> bool {
        self.dirty@.len() == self.pages@.len()
    }

    /// Whether page `n` is in memory.
    pub closed spec fn has(&self, n: int) -> bool {
        0 <= n < self.pages@.len()
    }

    /// Page `page_num`, to read, once it is in memory.
    pub fn page_at(&self, page_num: usize) -> (p: &Page)
        requires
            self.has(page_num as int),
        ensures
            p.data@ == self.page(page_num as int),
    {
        &self.pages[page_num]
    }

    pub proof fn lemma_page_len(&self, n: int)
        ensures
            self.page(n).len() == PAGE_SIZE,
    {
    }

    /// A pager with no page in it, for a database held in memory.
    pub fn memory() -> (p: Pager)
        ensures
            p.wf(),
            p.next() == 0,
            forall|n: int| #[trigger] p.page(n) == zero_page(),
            forall|n: int| !#[trigger] p.is_dirty(n),
    {
        Pager { pages: Vec::new(), dirty: Vec::new(), next_page: 0 }
    }

    /// A pager over pages read from a file, page `n` being `pages[n]`; the
    /// next allocation gives `next_page`.
    pub fn load(pages: Vec<Page>, next_page: usize) -> (p: Pager)
        ensures
            p.wf(),
            p.next() == next_page,
            forall|n: int| 0 <= n < pages@.len() ==> #[trigger] p.page(n) == pages@[n].data@,
            forall|n: int| pages@.len() <= n ==> #[trigger] p.page(n) == zero_page(),
            forall|n: int| !#[trigger] p.is_dirty(n),
    {
        let mut dirty: Vec<bool> = Vec::new();
        let mut i: usize = 0;
        while i < pages.len()
            invariant
                0 <= i <= pages@.len(),
                dirty@.len() == i,
                forall|k: int| 0 <= k < i ==> !#[trigger] dirty@[k],
            decreases pages@.len() - i,
        {
            dirty.push(false);
            i = i + 1;
        }
        Pager { pages, dirty, next_page }
    }

    /// Page `page_num`, to read or write, marked dirty.
    pub fn get_page(&mut self, page_num: usize) -> (r: Result<&mut Page, Error>)
        requires
            old(self).wf(),
            page_num < usize::MAX,
        ensures
            r is Ok,
            final(self).wf(),
            final(self).next() == old(self).next(),
            final(self).has(page_num as int),
            forall|n: int| old(self).has(n) ==> #[trigger] final(self).has(n),
            r matches Ok(p) ==> p.data@ == old(self).page(page_num as int),
            r matches Ok(p) ==> final(self).page(page_num as int) == final(p).data@,
            forall|n: int| n != page_num ==> #[trigger] final(self).page(n) == old(self).page(n),
            forall|n: int|
                #[trigger] final(self).is_dirty(n) == (n == page_num || old(self).is_dirty(n)),
    {
        let ghost old_pages = self.pages@;
        let ghost old_dirty = self.dirty@;
        while self.pages.len() <= page_num
            invariant
                page_num < usize::MAX,
                self.dirty@.len() == self.pages@.len(),
                self.pages@.len() >= old_pages.len(),
                old_pages == old(self).pages@,
                old_dirty == old(self).dirty@,
                self.next_page == old(self).next_page,
                forall|n: int| 0 <= n < old_pages.len() ==> #[trigger] self.pages@[n] == old_pages[n],
                forall|n: int| 0 <= n < old_pages.len() ==> #[trigger] self.dirty@[n] == old_dirty[n],
                forall|n: int|
                    old_pages.len() <= n < self.pages@.len() ==> #[trigger] self.pages@[n].data@
                        == zero_page(),
                forall|n: int| old_pages.len() <= n < self.dirty@.len() ==> !#[trigger] self.dirty@[n],
            decreases page_num + 1 - self.pages@.len(),
        {
            self.pages.push(Page::zeroed());
            self.dirty.push(false);
        }
        self.dirty.set(page_num, true);
        proof {
            assert(self.pages@[page_num as int].data@ == old(self).page(page_num as int));
            assert forall|n: int| #[trigger] self.is_dirty(n) == (n == page_num || old(
                self,
            ).is_dirty(n)) by {
                if 0 <= n < self.dirty@.len() && n != page_num {
                    assert(self.dirty@[n] == (if n < old_dirty.len() {
                        old_dirty[n]
                    } else {
                        false
                    }));
                }
            }
        }
        Ok(&mut self.pages[page_num])
    }

    /// The number the next allocated page gets.
    pub fn next_page(&self) -> (r: usize)
        ensures
            r == self.next(),
    {
        self.next_page
    }

    /// A new page number; pages are numbered in allocation order.
    pub fn alloc_page(&mut self) -> (r: usize)
        requires
            old(self).next() < usize::MAX,
        ensures
            r == old(self).next(),
            final(self).next() == old(self).next() + 1,
            final(self).wf() == old(self).wf(),
            forall|n: int| #[trigger] final(self).page(n) == old(self).page(n),
            forall|n: int| #[trigger] final(self).is_dirty(n) == old(self).is_dirty(n),
            forall|n: int| #[trigger] final(self).has(n) == old(self).has(n),
    {
        let page_num = self.next_page;
        self.next_page = self.next_page + 1;
        page_num
    }

    /// The dirty pages, in increasing order; none is dirty afterwards.
    pub fn take_dirty(&mut self) -> (r: Vec<usize>)
        requires
            old(self).wf(),
        ensures
            final(self).wf(),
            final(self).next() == old(self).next(),
            forall|n: int| #[trigger] final(self).page(n) == old(self).page(n),
            forall|n: int| !#[trigger] final(self).is_dirty(n),
            forall|i: int, j: int| 0 <= i < j < r@.len() ==> r@[i] < r@[j],
            forall|n: usize| old(self).is_dirty(n as int) <==> r@.contains(n),
    {
        let mut out: Vec<usize> = Vec::new();
        let ghost old_dirty = self.dirty@;
        let mut i: usize = 0;
        while i < self.dirty.len()
            invariant
                0 <= i <= self.dirty@.len(),
                self.dirty@.len() == old_dirty.len(),
                self.dirty@.len() == self.pages@.len(),
                self.pages@ == old(self).pages@,
                self.next_page == old(self).next_page,
                old_dirty == old(self).dirty@,
                forall|k: int| 0 <= k < i ==> !#[trigger] self.dirty@[k],
                forall|k: int| i <= k < self.dirty@.len() ==> #[trigger] self.dirty@[k] == old_dirty[k],
                forall|a: int, b: int| 0 <= a < b < out@.len() ==> out@[a] < out@[b],
                forall|a: int| 0 <= a < out@.len() ==> #[trigger] out@[a] < i,
                forall|k: int| 0 <= k < i ==> (old_dirty[k] <==> out@.contains(k as usize)),
            decreases self.dirty@.len() - i,
        {
            if self.dirty[i] {
                let ghost prev = out@;
                out.push(i);
                proof {
                    assert forall|k: int| 0 <= k < i + 1 implies (old_dirty[k] <==> out@.contains(
                        k as usize,
                    )) by {
                        if k < i {
                            if prev.contains(k as usize) {
                                let a = choose|a: int| 0 <= a < prev.len() && prev[a] == k as usize;
                                assert(out@[a] == k as usize);
                            }
                            if out@.contains(k as usize) {
                                let a = choose|a: int| 0 <= a < out@.len() && out@[a] == k as usize;
                                if a == prev.len() {
                                    assert(out@[a] == i);
                                } else {
                                    assert(prev[a] == k as usize);
                                }
                            }
                        } else {
                            assert(out@[prev.len() as int] == i);
                        }
                    }
                }
                self.dirty.set(i, false);
            } else {
                proof {
                    assert forall|k: int| 0 <= k < i + 1 implies (old_dirty[k] <==> out@.contains(
                        k as usize,
                    )) by {
                        if k == i {
                            if out@.contains(k as usize) {
                                let a = choose|a: int| 0 <= a < out@.len() && out@[a] == k as usize;
                                assert(out@[a] < i);
                            }
                        }
                    }
                }
            }
            i = i + 1;
        }
        proof {
            assert forall|n: usize| old(self).is_dirty(n as int) <==> out@.contains(n) by {
                if out@.contains(n) {
                    let a = choose|a: int| 0 <= a < out@.len() && out@[a] == n;
                    assert(out@[a] < i);
                }
                if n < i {
                    assert(old_dirty[n as int] <==> out@.contains(n as usize));
                }
            }
        }
        out
    }
}

/// The number of whole pages a database file of `file_len` bytes holds
/// after its first `MAGIC` bytes.
pub fn pages_in_file(file_len: usize) -> (r: usize)
    ensures
        file_len <= MAGIC ==> r == 0,
        file_len > MAGIC ==> r == (file_len - MAGIC) / (PAGE_SIZE as int),
{
    if file_len <= MAGIC {
        0
    } else {
        (file_len - MAGIC) / PAGE_SIZE
    }
}

/// `after` holds every page of `before` but page `m`: what `get_page(m)`
/// leaves of the other pages.
pub open spec fn kept_except(before: Pager, after: Pager, m: int) -> bool {
    forall|q: int| q != m ==> #[trigger] after.page(q) == before.page(q)
}

/// A page reads back across any number of calls that hand out other pages:
/// when each step from `ps[i]` to `ps[i + 1]` keeps every page but
/// `touched[i]`, and page `n` is never among them, the last pager holds
/// page `n` as the first did.
pub proof fn lemma_pages_read_back(ps: Seq<Pager>, touched: Seq<int>, n: int)
    requires
        ps.len() == touched.len() + 1,
        forall|i: int| 0 <= i < touched.len() ==> #[trigger] touched[i] != n && kept_except(ps[i], ps[i + 1], touched[i]),
    ensures
        ps.last().page(n) == ps[0].page(n),
    decreases touched.len(),
{
    if touched.len() > 0 {
        let k = touched.len() - 1;
        lemma_pages_read_back(ps.drop_last(), touched.drop_last(), n);
        assert(touched[k] != n && kept_except(ps[k], ps[k + 1], touched[k]));
        assert(ps.drop_last().last() == ps[k]);
    }
}

} // verus!
