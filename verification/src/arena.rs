//! A bump allocator over pages of one mebibyte. Bytes that were handed out are
//! never moved or taken back, so an address stays good for as long as the arena
//! lives.

use crate::value::Value;
use crate::vint::{decode, encode, encoded_len, is_readable, read_vint, starts_with, vint_len, write_vint};
use crate::vint::{lemma_encode_len, lemma_encoding_is_readable, lemma_round_trip};
use vstd::prelude::*;
use vstd::slice::slice_subrange;

verus! {

/// The number of low bits of an address that give the place within a page.
pub const NUM_BITS_PAGE_ADDR: usize = 20;

/// The size of a page in bytes.
pub const PAGE_SIZE: usize = 0x10_0000;

/// The most pages that an arena holds. With one page fewer than the address
/// width allows, the place right after any allocation is an address too.
pub const MAX_PAGES: usize = 4095;

/// A place in an arena: the page in the high bits, the offset within the page
/// in the low twenty.
#[derive(Clone, Copy, Debug, PartialEq, Eq, Structural)]
pub struct Addr(pub u32);

impl Addr {
    /// The index of the page.
    pub open spec fn page(self) -> int {
        self.0 as int / 0x10_0000
    }

    /// The offset within the page.
    pub open spec fn offset(self) -> int {
        self.0 as int % 0x10_0000
    }

    /// The address that lies `n` bytes further on.
    pub open spec fn plus(self, n: int) -> Addr {
        Addr((self.0 + n) as u32)
    }

    /// Packs a page index and an offset into an address.
    pub fn new(page_id: usize, local_addr: usize) -> (addr: Addr)
        requires
            page_id < 4096,
            local_addr < PAGE_SIZE,
        ensures
            addr.page() == page_id,
            addr.offset() == local_addr,
            addr.0 == page_id * PAGE_SIZE + local_addr,
    {
        assert(((page_id << 20usize) | local_addr) == page_id * 0x10_0000 + local_addr) by (bit_vector)
            requires
                page_id < 4096,
                local_addr < 0x10_0000,
        ;
        Addr(((page_id << NUM_BITS_PAGE_ADDR) | local_addr) as u32)
    }

    /// The index of the page.
    pub fn page_id(&self) -> (p: usize)
        ensures
            p == self.page(),
            p < 4096,
    {
        let x: usize = self.0 as usize;
        assert(x >> 20usize == x / 0x10_0000) by (bit_vector);
        x >> NUM_BITS_PAGE_ADDR
    }

    /// The offset within the page.
    pub fn page_local_addr(&self) -> (o: usize)
        ensures
            o == self.offset(),
            o < PAGE_SIZE,
    {
        let x: usize = self.0 as usize;
        assert(x & 0xf_ffff == x % 0x10_0000) by (bit_vector);
        x & (PAGE_SIZE - 1)
    }
}

/// What a page holds: how many of its bytes were handed out, and all its bytes.
pub struct PageView {
    pub used: nat,
    pub data: Seq<u8>,
}

impl PageView {
    /// Whether `len` more bytes can be handed out from the page. A full page
    /// takes nothing more, not even an empty allocation, so that every address
    /// handed out lies within its page.
    pub open spec fn fits(self, len: nat) -> bool {
        self.used < PAGE_SIZE && self.used + len <= PAGE_SIZE
    }
}

/// `s` with the bytes from `at` on replaced by those of `w`.
pub open spec fn overlay(s: Seq<u8>, at: int, w: Seq<u8>) -> Seq<u8> {
    s.subrange(0, at) + w + s.subrange(at + w.len(), s.len() as int)
}

/// The part of a slice from `start` that is `len` long, for writing. Not
/// proved: this is `core::ops::IndexMut::index_mut` of a slice with a
/// `Range<usize>`, written `&mut data[start..start + len]`, which panics
/// unless the range lies within the slice. The contract claims of it that the
/// window shows the bytes of the range, that it is as long as the range up to
/// its last use, and that what is written through it lands in `data` at the
/// same place, the bytes outside the range staying as they were.
#[verifier::external_body]
pub(crate) fn slice_window_mut(data: &mut [u8], start: usize, len: usize) -> (window: &mut [u8])
    requires
        start + len <= old(data)@.len(),
    ensures
        window@ == old(data)@.subrange(start as int, start + len),
        final(window)@.len() == len,
        final(data)@ == overlay(old(data)@, start as int, final(window)@),
{
    &mut data[start..start + len]
}

/// Copies `bytes` into `window` from `at` on.
pub fn copy_into(window: &mut [u8], at: usize, bytes: &[u8])
    requires
        at + bytes@.len() <= old(window)@.len(),
    ensures
        final(window)@ == overlay(old(window)@, at as int, bytes@),
{
    let n = bytes.len();
    let total = window.len();
    let mut i: usize = 0;
    while i < n
        invariant
            n == bytes@.len(),
            i <= n,
            total == window@.len(),
            at + n <= window@.len(),
            window@.len() == old(window)@.len(),
            forall|j: int| 0 <= j < at || at + i <= j < window@.len() ==> window@[j] == old(window)@[j],
            forall|j: int| 0 <= j < i ==> window@[at + j] == bytes@[j],
        decreases n - i,
    {
        window[at + i] = bytes[i];
        i += 1;
    }
    assert(window@ =~= overlay(old(window)@, at as int, bytes@));
}

/// One page: its place in the arena, the number of bytes handed out, and the
/// bytes.
pub(crate) struct Page {
    page_id: usize,
    len: usize,
    data: Vec<u8>,
}

impl View for Page {
    type V = PageView;

    closed spec fn view(&self) -> PageView {
        PageView { used: self.len as nat, data: self.data@ }
    }
}

impl Page {
    /// The page has `PAGE_SIZE` bytes, and has handed out no more.
    pub(crate) closed spec fn wf(&self) -> bool {
        &&& self.page_id < MAX_PAGES
        &&& self.len <= PAGE_SIZE
        &&& self.data@.len() == PAGE_SIZE
    }

    /// The place of the page in the arena.
    pub(crate) closed spec fn id(&self) -> int {
        self.page_id as int
    }

    /// A page of zero bytes, none of them handed out.
    pub(crate) fn new(page_id: usize) -> (page: Page)
        requires
            page_id < MAX_PAGES,
        ensures
            page.wf(),
            page.id() == page_id,
            page@.used == 0,
            page@.data == Seq::new(PAGE_SIZE as nat, |i: int| 0u8),
    {
        let page = Page { page_id, len: 0, data: vec![0u8; PAGE_SIZE] };
        assert(page.data@ =~= Seq::new(PAGE_SIZE as nat, |i: int| 0u8));
        page
    }

    /// Whether `len` more bytes can be handed out from the page.
    pub(crate) fn is_available(&self, len: usize) -> (available: bool)
        requires
            self.wf(),
        ensures
            available == self@.fits(len as nat),
    {
        self.len < PAGE_SIZE && len <= PAGE_SIZE - self.len
    }

    /// Hands out the next `len` bytes of the page, if they fit: their address
    /// and the window through which to write them.
    pub(crate) fn allocate(&mut self, len: usize) -> (r: Option<(Addr, &mut [u8])>)
        requires
            old(self).wf(),
        ensures
            r is Some <==> old(self)@.fits(len as nat),
            r is None ==> *final(self) == *old(self),
            r matches Some((addr, window)) ==> {
                &&& addr.page() == old(self).id()
                &&& addr.offset() == old(self)@.used
                &&& window@ == old(self)@.data.subrange(addr.offset(), addr.offset() + len)
                &&& final(window)@.len() == len
                &&& final(self).wf()
                &&& final(self).id() == old(self).id()
                &&& final(self)@.used == old(self)@.used + len
                &&& final(self)@.data == overlay(old(self)@.data, addr.offset(), final(window)@)
            },
    {
        if self.is_available(len) {
            let local_addr = self.len;
            self.len += len;
            let addr = Addr::new(self.page_id, local_addr);
            Some((addr, slice_window_mut(self.data.as_mut_slice(), local_addr, len)))
        } else {
            None
        }
    }

    /// The window over the `len` bytes from offset `addr` on, for writing.
    pub(crate) fn get_mut_slice(&mut self, addr: usize, len: usize) -> (window: &mut [u8])
        requires
            old(self).wf(),
            addr + len <= PAGE_SIZE,
        ensures
            window@ == old(self)@.data.subrange(addr as int, addr + len),
            final(window)@.len() == len,
            final(self).wf(),
            final(self).id() == old(self).id(),
            final(self)@.used == old(self)@.used,
            final(self)@.data == overlay(old(self)@.data, addr as int, final(window)@),
    {
        slice_window_mut(self.data.as_mut_slice(), addr, len)
    }

    /// The `len` bytes from offset `addr` on, for reading.
    pub(crate) fn get_slice(&self, addr: usize, len: usize) -> (bytes: &[u8])
        requires
            self.wf(),
            addr + len <= PAGE_SIZE,
        ensures
            bytes@ == self@.data.subrange(addr as int, addr + len),
    {
        slice_subrange(self.data.as_slice(), addr, addr + len)
    }
}

/// The arena: pages in the order in which they were added. Its view is what
/// each page holds.
pub struct Arena {
    pages: Vec<Page>,
}

impl View for Arena {
    type V = Seq<PageView>;

    closed spec fn view(&self) -> Seq<PageView> {
        Seq::new(self.pages@.len(), |i: int| self.pages@[i]@)
    }
}

impl Arena {
    /// Each page knows its own place in the arena.
    pub closed spec fn numbered(&self) -> bool {
        forall|i: int| 0 <= i < self.pages@.len() ==> (#[trigger] self.pages@[i]).id() == i
    }

    /// The invariant of an arena: between one and `MAX_PAGES` pages, each of
    /// `PAGE_SIZE` bytes, and the first byte of the first page handed out, so
    /// that address 0 is never given to a caller.
    pub open spec fn wf(&self) -> bool {
        &&& 1 <= self@.len() <= MAX_PAGES
        &&& self@[0].used >= 1
        &&& forall|i: int|
            0 <= i < self@.len() ==> (#[trigger] self@[i]).used <= PAGE_SIZE && self@[i].data.len()
                == PAGE_SIZE
        &&& self.numbered()
    }

    /// The `len` bytes at `addr` lie within a page of the arena.
    pub open spec fn in_page(&self, addr: Addr, len: nat) -> bool {
        addr.page() < self@.len() && addr.offset() + len <= PAGE_SIZE
    }

    /// The `len` bytes at `addr` were handed out.
    pub open spec fn holds(&self, addr: Addr, len: nat) -> bool {
        addr.page() < self@.len() && addr.offset() + len <= self@[addr.page()].used
    }

    /// The `len` bytes at `addr`.
    pub open spec fn bytes(&self, addr: Addr, len: nat) -> Seq<u8> {
        self@[addr.page()].data.subrange(addr.offset(), addr.offset() + len)
    }

    /// An allocation of `len` bytes can be granted: from the last page, or from
    /// a page that can still be added.
    pub open spec fn has_room(&self, len: nat) -> bool {
        self@.last().fits(len) || self@.len() < MAX_PAGES
    }

    /// Everything that `self` has handed out is in `after` too, byte for byte.
    pub open spec fn extended_by(&self, after: &Arena) -> bool {
        &&& self@.len() <= after@.len()
        &&& forall|i: int| 0 <= i < self@.len() ==> self@[i].used <= (#[trigger] after@[i]).used
        &&& forall|i: int, j: int|
            0 <= i < self@.len() && 0 <= j < self@[i].used ==> #[trigger] after@[i].data[j]
                == self@[i].data[j]
    }

    /// `after` differs from `self` at most in the `len` bytes at `addr`.
    pub open spec fn same_but(&self, after: &Arena, addr: Addr, len: nat) -> bool {
        &&& after@.len() == self@.len()
        &&& forall|i: int| 0 <= i < self@.len() ==> (#[trigger] after@[i]).used == self@[i].used
        &&& forall|i: int, j: int|
            0 <= i < self@.len() && 0 <= j < PAGE_SIZE && !(i == addr.page() && addr.offset() <= j
                < addr.offset() + len) ==> #[trigger] after@[i].data[j] == self@[i].data[j]
    }

    /// Bytes that were handed out stay where they are and as they are when the
    /// arena grows.
    pub proof fn lemma_extended_keeps(&self, after: &Arena, addr: Addr, len: nat)
        requires
            self.wf(),
            after.wf(),
            self.extended_by(after),
            self.holds(addr, len),
        ensures
            after.holds(addr, len),
            after.bytes(addr, len) == self.bytes(addr, len),
    {
        let p = addr.page();
        assert(self@[p].used <= after@[p].used);
        assert(self@[p].data.len() == PAGE_SIZE);
        assert(after@[p].data.len() == PAGE_SIZE);
        assert forall|k: int| 0 <= k < len implies after.bytes(addr, len)[k] == self.bytes(
            addr,
            len,
        )[k] by {
            assert(after@[p].data[addr.offset() + k] == self@[p].data[addr.offset() + k]);
        }
        assert(after.bytes(addr, len) =~= self.bytes(addr, len));
    }

    /// A write through a window leaves every range that does not meet the
    /// window as it was.
    pub proof fn lemma_same_but_keeps(
        &self,
        after: &Arena,
        addr: Addr,
        len: nat,
        other: Addr,
        other_len: nat,
    )
        requires
            self.wf(),
            after.wf(),
            self.same_but(after, addr, len),
            self.in_page(other, other_len),
            other.page() != addr.page() || other.offset() + other_len <= addr.offset()
                || addr.offset() + len <= other.offset(),
        ensures
            after.bytes(other, other_len) == self.bytes(other, other_len),
    {
        let p = other.page();
        assert(self@[p].data.len() == PAGE_SIZE);
        assert(after@[p].data.len() == PAGE_SIZE);
        assert forall|k: int| 0 <= k < other_len implies after.bytes(other, other_len)[k]
            == self.bytes(other, other_len)[k] by {
            assert(after@[p].data[other.offset() + k] == self@[p].data[other.offset() + k]);
        }
        assert(after.bytes(other, other_len) =~= self.bytes(other, other_len));
    }

    /// The address that the next allocation of `len` bytes gets: the first free
    /// byte of the last page where the bytes fit there, else the start of a new
    /// page.
    pub open spec fn next_addr(&self, len: nat) -> Addr {
        if self@.last().fits(len) {
            Addr(((self@.len() - 1) * PAGE_SIZE + self@.last().used) as u32)
        } else {
            Addr((self@.len() * PAGE_SIZE) as u32)
        }
    }

    /// `after` is `self` after an allocation of `len` bytes at `addr` that now
    /// hold `content`: the page of `addr` is the last one, its bytes are handed
    /// out up to the end of the allocation, and nothing else has changed. A new
    /// page is zero outside the allocation.
    pub open spec fn allocation(&self, after: &Arena, len: nat, addr: Addr, content: Seq<u8>) -> bool {
        let p = addr.page();
        &&& addr == self.next_addr(len)
        &&& after@.len() == p + 1
        &&& forall|i: int| 0 <= i < self@.len() && i != p ==> #[trigger] after@[i] == self@[i]
        &&& after@[p].used == addr.offset() + len
        &&& after@[p].data == overlay(
            if p < self@.len() {
                self@[p].data
            } else {
                Seq::new(PAGE_SIZE as nat, |i: int| 0u8)
            },
            addr.offset(),
            content,
        )
    }

    /// An arena of one page, of which the first byte is taken.
    pub fn new() -> (arena: Arena)
        ensures
            arena.wf(),
            arena@.len() == 1,
            arena@[0].used == 1,
            arena@[0].data == Seq::new(PAGE_SIZE as nat, |i: int| 0u8),
    {
        let mut first_page = Page::new(0);
        // The first byte is taken, so that no caller is given address 0.
        let _ = first_page.allocate(1);
        let arena = Arena { pages: vec![first_page] };
        assert(arena@[0].data =~= Seq::new(PAGE_SIZE as nat, |i: int| 0u8));
        arena
    }

    /// An arena that differs from a good one in page `p` only, which is a good
    /// page in its place, is good but for what its first page has handed out,
    /// and shows the other pages as they were.
    proof fn lemma_one_page_differs(before: Arena, after: Arena, p: int)
        requires
            before.wf(),
            0 <= p < after.pages@.len() <= MAX_PAGES,
            after.pages@.len() == before.pages@.len() || (after.pages@.len() == before.pages@.len()
                + 1 && p == before.pages@.len()),
            forall|i: int|
                0 <= i < before.pages@.len() && i != p ==> after.pages@[i] == before.pages@[i],
            after.pages@[p].wf(),
            after.pages@[p].id() == p,
        ensures
            after.numbered(),
            forall|i: int|
                0 <= i < after@.len() ==> (#[trigger] after@[i]).used <= PAGE_SIZE && after@[i].data.len()
                    == PAGE_SIZE,
            forall|i: int| 0 <= i < before@.len() && i != p ==> #[trigger] after@[i] == before@[i],
            after@[p] == after.pages@[p]@,
    {
        assert forall|i: int| 0 <= i < after@.len() implies (#[trigger] after@[i]).used
            <= PAGE_SIZE && after@[i].data.len() == PAGE_SIZE by {
            if i != p {
                assert(after@[i] == before@[i]);
            }
        }
        assert forall|i: int| 0 <= i < after.pages@.len() implies (#[trigger] after.pages@[i]).id()
            == i by {
            if i != p {
                assert(before.pages@[i].id() == i);
            }
        }
    }

    /// What follows for the arena when its last page, or one page more, has
    /// handed out the next `len` bytes.
    proof fn lemma_allocated(before: Arena, after: Arena, len: nat, addr: Addr, content: Seq<u8>)
        requires
            before.wf(),
            len < PAGE_SIZE,
            content.len() == len,
            addr == before.next_addr(len),
            after.pages@.len() == addr.page() + 1,
            forall|i: int| 0 <= i < before.pages@.len() && i != addr.page() ==> after.pages@[i] == before.pages@[i],
            after.pages@[addr.page()].wf(),
            after.pages@[addr.page()].id() == addr.page(),
            after.pages@[addr.page()]@.used == addr.offset() + len,
            before@.last().fits(len) || before@.len() < MAX_PAGES,
            after.pages@[addr.page()]@.data == overlay(
                if addr.page() < before@.len() {
                    before@[addr.page()].data
                } else {
                    Seq::new(PAGE_SIZE as nat, |i: int| 0u8)
                },
                addr.offset(),
                content,
            ),
        ensures
            addr.0 != 0,
            after.wf(),
            before.allocation(&after, len, addr, content),
            before.extended_by(&after),
            after.holds(addr, len),
            after.bytes(addr, len) == content,
            !before.holds(addr, 1),
    {
        let n = before@.len() as int;
        let last = before@[n - 1];
        assert(last == before@.last());
        assert(last.used <= PAGE_SIZE && last.data.len() == PAGE_SIZE);
        assert(before@[0].used >= 1);
        let p = addr.page();
        if last.fits(len) {
            assert(addr.0 == (n - 1) * PAGE_SIZE + last.used);
            assert(p == n - 1 && addr.offset() == last.used) by {
                assert((n - 1) * 0x10_0000 + last.used < 4096 * 0x10_0000);
            }
        } else {
            assert(addr.0 == n * PAGE_SIZE);
            assert(p == n && addr.offset() == 0);
        }
        let base = if p < n {
            before@[p].data
        } else {
            Seq::new(PAGE_SIZE as nat, |i: int| 0u8)
        };
        assert(base.len() == PAGE_SIZE);
        Self::lemma_one_page_differs(before, after, p);
        assert forall|i: int| 0 <= i < before@.len() implies before@[i].used <= (
        #[trigger] after@[i]).used by {
            if i != p {
                assert(after@[i] == before@[i]);
            }
        }
        assert forall|i: int, j: int|
            0 <= i < before@.len() && 0 <= j < before@[i].used implies #[trigger] after@[i].data[j]
            == before@[i].data[j] by {
            if i != p {
                assert(after@[i] == before@[i]);
            }
        }
        assert(after.bytes(addr, len) =~= content);
        if p == 0 {
            assert(after@[0].used >= 1);
        } else {
            assert(after@[0] == before@[0]);
        }
    }

    /// Adds a page and gives it out for allocating from it.
    fn add_page(&mut self) -> (page: &mut Page)
        requires
            old(self).wf(),
            old(self)@.len() < MAX_PAGES,
        ensures
            page.wf(),
            page.id() == old(self)@.len(),
            page@.used == 0,
            page@.data == Seq::new(PAGE_SIZE as nat, |i: int| 0u8),
            final(self).pages@ == old(self).pages@.push(*final(page)),
    {
        let new_page_id = self.pages.len();
        self.pages.push(Page::new(new_page_id));
        &mut self.pages[new_page_id]
    }

    /// Whether an allocation of `len` bytes can be granted.
    pub fn has_room_for(&self, len: usize) -> (room: bool)
        requires
            self.wf(),
        ensures
            room == self.has_room(len as nat),
    {
        let page_id = self.pages.len() - 1;
        assert(self@[page_id as int] == self.pages@[page_id as int]@);
        self.pages[page_id].is_available(len) || self.pages.len() < MAX_PAGES
    }

    /// Hands out `len` bytes, all in one page, and the window through which to
    /// write them.
    pub fn allocate(&mut self, len: usize) -> (r: (Addr, &mut [u8]))
        requires
            old(self).wf(),
            len < PAGE_SIZE,
            old(self).has_room(len as nat),
        ensures
            r.0.0 != 0,
            r.1@.len() == len,
            final(r.1)@.len() == len,
            final(self).wf(),
            old(self).allocation(final(self), len as nat, r.0, final(r.1)@),
            old(self).extended_by(final(self)),
            final(self).holds(r.0, len as nat),
            final(self).bytes(r.0, len as nat) == final(r.1)@,
            !old(self).holds(r.0, 1),
    {
        let page_id = self.pages.len() - 1;
        assert(self@[page_id as int] == self.pages@[page_id as int]@);
        if self.pages[page_id].is_available(len) {
            let r = self.pages[page_id].allocate(len).unwrap();
            proof {
                Self::lemma_allocated(*old(self), after_borrow(*self), len as nat, r.0, final(r.1)@);
            }
            r
        } else {
            let r = self.add_page().allocate(len).unwrap();
            proof {
                Self::lemma_allocated(*old(self), after_borrow(*self), len as nat, r.0, final(r.1)@);
            }
            r
        }
    }

    /// What follows for the arena when one page was written through a window.
    proof fn lemma_window(before: Arena, after: Arena, addr: Addr, len: nat, content: Seq<u8>)
        requires
            before.wf(),
            before.in_page(addr, len),
            content.len() == len,
            after.pages@.len() == before.pages@.len(),
            forall|i: int| 0 <= i < before.pages@.len() && i != addr.page() ==> after.pages@[i] == before.pages@[i],
            after.pages@[addr.page()].id() == addr.page(),
            after.pages@[addr.page()]@.used == before@[addr.page()].used,
            after.pages@[addr.page()]@.data == overlay(before@[addr.page()].data, addr.offset(), content),
        ensures
            after.wf(),
            before.same_but(&after, addr, len),
            after.bytes(addr, len) == content,
    {
        let p = addr.page();
        assert(before@[p].used <= PAGE_SIZE && before@[p].data.len() == PAGE_SIZE);
        assert(after.pages@[p]@.data.len() == PAGE_SIZE);
        Self::lemma_one_page_differs(before, after, p);
        assert forall|i: int| 0 <= i < before@.len() implies (#[trigger] after@[i]).used
            == before@[i].used by {
            if i != p {
                assert(after@[i] == before@[i]);
            }
        }
        assert forall|i: int, j: int|
            0 <= i < before@.len() && 0 <= j < PAGE_SIZE && !(i == p && addr.offset() <= j
                < addr.offset() + len) implies #[trigger] after@[i].data[j] == before@[i].data[j] by {
            if i != p {
                assert(after@[i] == before@[i]);
            }
        }
        assert(after.bytes(addr, len) =~= content);
        assert(after@[0].used == before@[0].used);
    }

    /// The window over the `len` bytes at `addr`, for writing.
    pub fn get_mut_slice(&mut self, addr: Addr, len: usize) -> (window: &mut [u8])
        requires
            old(self).wf(),
            old(self).in_page(addr, len as nat),
        ensures
            window@ == old(self).bytes(addr, len as nat),
            final(window)@.len() == len,
            final(self).wf(),
            old(self).same_but(final(self), addr, len as nat),
            final(self).bytes(addr, len as nat) == final(window)@,
    {
        let page_id = addr.page_id();
        assert(self@[page_id as int] == self.pages@[page_id as int]@);
        assert(self.pages@[page_id as int].id() == page_id);
        let window = self.pages[page_id].get_mut_slice(addr.page_local_addr(), len);
        proof {
            Self::lemma_window(*old(self), after_borrow(*self), addr, len as nat, final(window)@);
        }
        window
    }

    /// The `len` bytes at `addr`, for reading.
    pub fn get_slice(&self, addr: Addr, len: usize) -> (bytes: &[u8])
        requires
            self.wf(),
            self.in_page(addr, len as nat),
        ensures
            bytes@ == self.bytes(addr, len as nat),
    {
        let page_id = addr.page_id();
        assert(self@[page_id as int] == self.pages@[page_id as int]@);
        self.pages[page_id].get_slice(addr.page_local_addr(), len)
    }

    /// The bytes of the page of `addr` from `addr` to the end of the page, for
    /// reading.
    pub fn get_ptr(&self, addr: Addr) -> (bytes: &[u8])
        requires
            self.wf(),
            addr.page() < self@.len(),
        ensures
            bytes@ == self.rest_of_page(addr),
            bytes@ == self.bytes(addr, (PAGE_SIZE - addr.offset()) as nat),
    {
        let room = PAGE_SIZE - addr.page_local_addr();
        self.get_slice(addr, room)
    }

    /// The window over the bytes of the page of `addr` from `addr` to the end of
    /// the page, for writing.
    pub fn get_mut_ptr(&mut self, addr: Addr) -> (window: &mut [u8])
        requires
            old(self).wf(),
            addr.page() < old(self)@.len(),
        ensures
            window@ == old(self).rest_of_page(addr),
            final(window)@.len() == PAGE_SIZE - addr.offset(),
            final(self).wf(),
            old(self).same_but(final(self), addr, (PAGE_SIZE - addr.offset()) as nat),
            final(self).rest_of_page(addr) == final(window)@,
    {
        let room = PAGE_SIZE - addr.page_local_addr();
        self.get_mut_slice(addr, room)
    }

    /// The value whose bytes lie at `addr`.
    pub open spec fn value_at<V: Value>(&self, addr: Addr) -> V {
        V::from_bytes(self.bytes(addr, V::size()))
    }

    /// Stores a value in bytes of its own and tells where.
    pub fn save<V: Value>(&mut self, val: V) -> (addr: Addr)
        requires
            old(self).wf(),
            V::size() < PAGE_SIZE,
            old(self).has_room(V::size()),
        ensures
            addr.0 != 0,
            final(self).wf(),
            old(self).allocation(final(self), V::size(), addr, val.to_bytes()),
            old(self).extended_by(final(self)),
            final(self).holds(addr, V::size()),
            final(self).value_at::<V>(addr) == val,
    {
        proof {
            val.lemma_round_trip();
        }
        let (addr, window) = self.allocate(V::byte_size());
        val.store(window);
        addr
    }

    /// Reads the value whose bytes lie at `addr`.
    pub fn read<V: Value>(&self, addr: Addr) -> (val: V)
        requires
            self.wf(),
            self.in_page(addr, V::size()),
        ensures
            val == self.value_at::<V>(addr),
    {
        V::load(self.get_slice(addr, V::byte_size()))
    }

    /// A byte string `s` lies at `addr`, behind its length.
    pub open spec fn holds_slice(&self, addr: Addr, s: Seq<u8>) -> bool {
        &&& self.holds(addr, record(s).len())
        &&& self.bytes(addr, record(s).len()) == record(s)
    }

    /// The bytes of the page of `addr` from `addr` on.
    pub open spec fn rest_of_page(&self, addr: Addr) -> Seq<u8> {
        self@[addr.page()].data.subrange(addr.offset(), PAGE_SIZE as int)
    }

    /// A length that fits in `usize` can be read at `addr`, and as many bytes
    /// follow it in the page.
    #[verifier::opaque]
    pub open spec fn is_slice_at(&self, addr: Addr) -> bool {
        let rest = self.rest_of_page(addr);
        &&& addr.page() < self@.len()
        &&& is_readable(rest)
        &&& decode(rest).1 + decode(rest).0 <= rest.len()
    }

    /// The byte string that lies at `addr`, behind its length.
    #[verifier::opaque]
    pub open spec fn slice_at(&self, addr: Addr) -> Seq<u8> {
        let rest = self.rest_of_page(addr);
        rest.subrange(decode(rest).1 as int, (decode(rest).1 + decode(rest).0) as int)
    }

    /// The address right after the byte string that lies at `addr`.
    #[verifier::opaque]
    pub open spec fn after_slice_at(&self, addr: Addr) -> Addr {
        let rest = self.rest_of_page(addr);
        addr.plus((decode(rest).1 + decode(rest).0) as int)
    }

    /// What was stored as a byte string is read as the same byte string, and the
    /// address after it is that of its last byte plus one.
    pub proof fn lemma_slice_round_trip(&self, addr: Addr, s: Seq<u8>)
        requires
            self.wf(),
            self.holds_slice(addr, s),
        ensures
            self.is_slice_at(addr),
            self.slice_at(addr) == s,
            self.after_slice_at(addr) == addr.plus(record(s).len() as int),
    {
        reveal(Arena::is_slice_at);
        reveal(Arena::slice_at);
        reveal(Arena::after_slice_at);
        let p = addr.page();
        let rest = self.rest_of_page(addr);
        let k = encoded_len(s.len()) as int;
        lemma_encode_len(s.len());
        assert(self@[p].used <= PAGE_SIZE && self@[p].data.len() == PAGE_SIZE);
        assert(rest.take(k) =~= self.bytes(addr, record(s).len()).take(k));
        assert(record(s).take(k) =~= encode(s.len()));
        assert(starts_with(rest, s.len()));
        assert(s.len() <= usize::MAX);
        lemma_round_trip(s.len(), rest);
        lemma_encoding_is_readable(s.len(), rest);
        assert(rest.subrange(k, k + s.len()) =~= self.bytes(addr, record(s).len()).subrange(
            k,
            k + s.len(),
        ));
        assert(record(s).subrange(k, k + s.len()) =~= s);
    }

    /// Stores a byte string behind its length, in one allocation, and tells
    /// where.
    pub fn save_slice(&mut self, bytes: &[u8]) -> (addr: Addr)
        requires
            old(self).wf(),
            record(bytes@).len() < PAGE_SIZE,
            old(self).has_room(record(bytes@).len()),
        ensures
            addr.0 != 0,
            final(self).wf(),
            old(self).allocation(final(self), record(bytes@).len(), addr, record(bytes@)),
            old(self).extended_by(final(self)),
            final(self).holds_slice(addr, bytes@),
    {
        proof {
            lemma_encode_len(bytes@.len());
        }
        let n = bytes.len();
        let k = vint_len(n);
        let (addr, window) = self.allocate(k + n);
        write_vint(slice_window_mut(window, 0, k), n);
        copy_into(window, k, bytes);
        proof {
            assert(window@ =~= record(bytes@));
        }
        addr
    }

    /// Reads the byte string that lies at `addr` behind its length. Gives the
    /// bytes and the address right after them.
    pub fn read_slice(&self, addr: Addr) -> (r: (&[u8], Addr))
        requires
            self.wf(),
            self.is_slice_at(addr),
        ensures
            r.0@ == self.slice_at(addr),
            r.1 == self.after_slice_at(addr),
    {
        proof {
            reveal(Arena::is_slice_at);
            reveal(Arena::slice_at);
            reveal(Arena::after_slice_at);
        }
        let page_id = addr.page_id();
        let offset = addr.page_local_addr();
        assert(self@[page_id as int] == self.pages@[page_id as int]@);
        assert(self@[page_id as int].data.len() == PAGE_SIZE);
        let rest = self.pages[page_id].get_slice(offset, PAGE_SIZE - offset);
        let (n, k) = read_vint(rest);
        let bytes = slice_subrange(rest, k, k + n);
        let next = Addr(addr.0 + ((k + n) as u32));
        (bytes, next)
    }
}

/// A byte string behind its length.
pub open spec fn record(s: Seq<u8>) -> Seq<u8> {
    encode(s.len()) + s
}

} // verus!
