//! The page store: addresses the database's byte region as an array of
//! fixed-size pages and gives block-granular, bounds-checked access.
//! Oversized content occupies a head page plus contiguous overflow pages,
//! addressed only through the head page.
use crate::codec::{push_u64_be, read_u64_be, u64_be, u64_from_be};
use vstd::prelude::*;

verus! {

/// Page type tag: a branch page of a bucket tree.
pub const TYPE_BRANCH: u8 = 0x01;

/// Page type tag: a leaf page of a bucket tree.
pub const TYPE_LEAF: u8 = 0x02;

/// Page type tag: a meta record slot.
pub const TYPE_META: u8 = 0x03;

/// Page type tag: the freelist.
pub const TYPE_FREELIST: u8 = 0x04;

/// Serialized page header: id, type tag, element count, overflow count,
/// padded to a fixed 32 bytes.
pub const PAGE_HEADER_LEN: usize = 32;

/// The smallest page size the engine supports.
pub const MIN_PAGE_SIZE: usize = 1024;

/// The bytes of a page header: id, type, count, overflow, zero padding.
pub open spec fn header_bytes(id: u64, page_type: u8, count: u64, overflow: u64) -> Seq<u8> {
    u64_be(id) + seq![page_type] + u64_be(count) + u64_be(overflow) + seq![
        0u8,
        0u8,
        0u8,
        0u8,
        0u8,
        0u8,
        0u8,
    ]
}

/// Appends a page header to `out`.
pub fn push_header(out: &mut Vec<u8>, id: u64, page_type: u8, count: u64, overflow: u64)
    ensures
        final(out)@ == old(out)@ + header_bytes(id, page_type, count, overflow),
{
    push_u64_be(out, id);
    out.push(page_type);
    push_u64_be(out, count);
    push_u64_be(out, overflow);
    out.push(0u8);
    out.push(0u8);
    out.push(0u8);
    out.push(0u8);
    out.push(0u8);
    out.push(0u8);
    out.push(0u8);
    proof {
        assert(out@ =~= old(out)@ + header_bytes(id, page_type, count, overflow));
    }
}

/// The decoded fields of the page header at the front of `buf`.
pub struct PageHeader {
    pub id: u64,
    pub page_type: u8,
    pub count: u64,
    pub overflow: u64,
}

/// Reads the page header at the front of `buf`.
pub fn parse_header(buf: &Vec<u8>) -> (r: PageHeader)
    requires
        buf@.len() >= PAGE_HEADER_LEN,
    ensures
        r.id == u64_from_be(buf@.subrange(0, 8)),
        r.page_type == buf@[8],
        r.count == u64_from_be(buf@.subrange(9, 17)),
        r.overflow == u64_from_be(buf@.subrange(17, 25)),
{
    let id = read_u64_be(buf, 0);
    let page_type = buf[8];
    let count = read_u64_be(buf, 9);
    let overflow = read_u64_be(buf, 17);
    PageHeader { id, page_type, count, overflow }
}

/// Writing then reading a header gives the fields back.
pub proof fn lemma_header_round_trip(id: u64, page_type: u8, count: u64, overflow: u64)
    ensures
        ({
            let h = header_bytes(id, page_type, count, overflow);
            &&& h.len() == PAGE_HEADER_LEN
            &&& u64_from_be(h.subrange(0, 8)) == id
            &&& h[8] == page_type
            &&& u64_from_be(h.subrange(9, 17)) == count
            &&& u64_from_be(h.subrange(17, 25)) == overflow
        }),
{
    let h = header_bytes(id, page_type, count, overflow);
    crate::codec::lemma_u64_be_round_trip(id);
    crate::codec::lemma_u64_be_round_trip(count);
    crate::codec::lemma_u64_be_round_trip(overflow);
    assert(h.subrange(0, 8) =~= u64_be(id));
    assert(h.subrange(9, 17) =~= u64_be(count));
    assert(h.subrange(17, 25) =~= u64_be(overflow));
}

/// Overwriting the id field of a serialized header yields the header
/// with the new id.
pub proof fn lemma_header_id_patch(
    before: Seq<u8>,
    after: Seq<u8>,
    id: u64,
    page_type: u8,
    count: u64,
    overflow: u64,
)
    requires
        before.len() >= PAGE_HEADER_LEN,
        after.len() == before.len(),
        before.subrange(0, PAGE_HEADER_LEN as int) == header_bytes(0, page_type, count, overflow),
        after.subrange(0, 8) == crate::codec::u64_be(id),
        forall|i: int| 8 <= i < before.len() ==> after[i] == before[i],
    ensures
        after.subrange(0, PAGE_HEADER_LEN as int) == header_bytes(id, page_type, count, overflow),
{
    let h = header_bytes(id, page_type, count, overflow);
    let h0 = header_bytes(0, page_type, count, overflow);
    assert forall|m: int| 0 <= m < PAGE_HEADER_LEN implies after[m] == h[m] by {
        if m < 8 {
            assert(after.subrange(0, 8)[m] == crate::codec::u64_be(id)[m]);
        } else {
            assert(after[m] == before[m]);
            assert(before.subrange(0, PAGE_HEADER_LEN as int)[m] == h0[m]);
            assert(h0[m] == h[m]);
        }
    }
    assert(after.subrange(0, PAGE_HEADER_LEN as int) =~= h);
}

/// The store's pages as one logical byte block: the concatenation of the
/// `k` pages starting at `id`.
pub open spec fn block_of(pages: Seq<Vec<u8>>, id: int, k: int) -> Seq<u8>
    decreases k,
{
    if k <= 0 {
        Seq::empty()
    } else {
        block_of(pages, id, k - 1) + pages[id + k - 1]@
    }
}

/// Two stores that agree on pages `id .. id + k` hold the same block there.
pub proof fn lemma_block_of_frame(p1: Seq<Vec<u8>>, p2: Seq<Vec<u8>>, id: int, k: int)
    requires
        forall|j: int| id <= j < id + k ==> p1[j]@ == p2[j]@,
    ensures
        block_of(p1, id, k) == block_of(p2, id, k),
    decreases k,
{
    if k > 0 {
        lemma_block_of_frame(p1, p2, id, k - 1);
    }
}

/// A block of `k` pages of size `psz` holds `k * psz` bytes.
pub proof fn lemma_block_of_len(pages: Seq<Vec<u8>>, id: int, k: int, psz: int)
    requires
        k >= 0,
        id >= 0,
        id + k <= pages.len(),
        forall|j: int| 0 <= j < pages.len() ==> (#[trigger] pages[j])@.len() == psz,
    ensures
        block_of(pages, id, k).len() == k * psz,
    decreases k,
{
    if k > 0 {
        lemma_block_of_len(pages, id, k - 1, psz);
        assert(block_of(pages, id, k).len() == (k - 1) * psz + psz);
        assert((k - 1) * psz + psz == k * psz) by (nonlinear_arith);
    } else {
        assert(0 * psz == 0) by (nonlinear_arith);
    }
}

/// The first page of a block is the block's first `psz` bytes.
pub proof fn lemma_block_of_first(pages: Seq<Vec<u8>>, id: int, k: int, psz: int)
    requires
        k >= 1,
        id >= 0,
        id + k <= pages.len(),
        forall|j: int| 0 <= j < pages.len() ==> (#[trigger] pages[j])@.len() == psz,
    ensures
        block_of(pages, id, k).subrange(0, psz) == pages[id]@,
    decreases k,
{
    lemma_block_of_len(pages, id, k - 1, psz);
    if k == 1 {
        assert(block_of(pages, id, 0) =~= Seq::<u8>::empty());
        assert(block_of(pages, id, 1).subrange(0, psz) =~= pages[id]@);
    } else {
        lemma_block_of_first(pages, id, k - 1, psz);
        assert((k - 1) * psz >= psz) by (nonlinear_arith)
            requires
                k >= 2,
                psz >= 0,
        ;
        assert(block_of(pages, id, k).subrange(0, psz) =~= block_of(pages, id, k - 1).subrange(
            0,
            psz,
        ));
    }
}

/// Addresses the database region as an array of fixed-size pages.
pub struct PageStore {
    /// The pages, each exactly `pagesize` bytes.
    pub pages: Vec<Vec<u8>>,
    /// The fixed page size, chosen at database creation.
    pub pagesize: usize,
}

impl PageStore {
    /// Every page has exactly the configured size, which is at least the
    /// supported minimum.
    pub open spec fn wf(&self) -> bool {
        &&& self.pagesize >= MIN_PAGE_SIZE
        &&& forall|i: int|
            0 <= i < self.pages@.len() ==> (#[trigger] self.pages@[i])@.len() == self.pagesize
    }

    /// How many pages the store holds.
    pub open spec fn spec_num_pages(&self) -> int {
        self.pages@.len() as int
    }

    /// How many pages the store holds.
    pub fn num_pages(&self) -> (r: usize)
        ensures
            r == self.spec_num_pages(),
    {
        self.pages.len()
    }

    /// A zeroed store of `num_pages` pages.
    pub fn new(pagesize: usize, num_pages: usize) -> (r: PageStore)
        requires
            pagesize >= MIN_PAGE_SIZE,
        ensures
            r.wf(),
            r.pagesize == pagesize,
            r.spec_num_pages() == num_pages,
    {
        let mut pages: Vec<Vec<u8>> = Vec::new();
        let mut i: usize = 0;
        while i < num_pages
            invariant
                0 <= i <= num_pages,
                pages@.len() == i,
                forall|j: int| 0 <= j < i ==> (#[trigger] pages@[j])@.len() == pagesize,
            decreases num_pages - i,
        {
            pages.push(zero_page(pagesize));
            i = i + 1;
        }
        PageStore { pages, pagesize }
    }

    /// Appends `extra` zeroed pages; this is the only way the region
    /// grows, and it never truncates.
    pub fn grow(&mut self, extra: usize)
        requires
            old(self).wf(),
        ensures
            final(self).wf(),
            final(self).pagesize == old(self).pagesize,
            final(self).spec_num_pages() == old(self).spec_num_pages() + extra,
            forall|j: int|
                0 <= j < old(self).spec_num_pages() ==> (#[trigger] final(self).pages@[j])@ == old(self).pages@[j]@,
    {
        let mut i: usize = 0;
        while i < extra
            invariant
                0 <= i <= extra,
                self.wf(),
                self.pagesize == old(self).pagesize,
                self.pages@.len() == old(self).pages@.len() + i,
                forall|j: int|
                    0 <= j < old(self).pages@.len() ==> (#[trigger] self.pages@[j])@ == old(
                        self,
                    ).pages@[j]@,
            decreases extra - i,
        {
            let p = zero_page(self.pagesize);
            self.pages.push(p);
            i = i + 1;
        }
    }

    /// Copies out the logical block of `k` pages headed at page `id`.
    pub fn read_block(&self, id: usize, k: usize) -> (r: Vec<u8>)
        requires
            self.wf(),
            k >= 1,
            id + k <= self.spec_num_pages(),
        ensures
            r@ == block_of(self.pages@, id as int, k as int),
            r@.len() == k * self.pagesize,
    {
        let np = self.num_pages();
        let mut out: Vec<u8> = Vec::new();
        let mut j: usize = 0;
        while j < k
            invariant
                0 <= j <= k,
                self.wf(),
                np == self.pages@.len(),
                id + k <= np,
                out@ == block_of(self.pages@, id as int, j as int),
                out@.len() == j * self.pagesize,
            decreases k - j,
        {
            let page = &self.pages[id + j];
            let mut b: usize = 0;
            let psz = page.len();
            while b < psz
                invariant
                    0 <= b <= psz,
                    psz == page@.len(),
                    out@ == block_of(self.pages@, id as int, j as int) + page@.subrange(
                        0,
                        b as int,
                    ),
                decreases psz - b,
            {
                out.push(page[b]);
                proof {
                    assert(out@ =~= block_of(self.pages@, id as int, j as int) + page@.subrange(
                        0,
                        b + 1,
                    ));
                }
                b = b + 1;
            }
            proof {
                assert(page@.subrange(0, psz as int) =~= page@);
                assert(out@ =~= block_of(self.pages@, id as int, j + 1));
                assert(out@.len() == (j + 1) * self.pagesize) by (nonlinear_arith)
                    requires
                        out@.len() == j * self.pagesize + self.pagesize,
                ;
            }
            j = j + 1;
        }
        out
    }

    /// Writes `block` over the `k` pages headed at page `id`.
    pub fn write_block(&mut self, id: usize, block: &Vec<u8>, k: usize)
        requires
            old(self).wf(),
            k >= 1,
            id + k <= old(self).spec_num_pages(),
            block@.len() == k * old(self).pagesize,
        ensures
            final(self).wf(),
            final(self).pagesize == old(self).pagesize,
            final(self).spec_num_pages() == old(self).spec_num_pages(),
            block_of(final(self).pages@, id as int, k as int) == block@,
            forall|j: int|
                0 <= j < old(self).spec_num_pages() && !(id <= j < id + k) ==> (#[trigger] final(self).pages@[j])@ == old(self).pages@[j]@,
    {
        let psz = self.pagesize;
        let np = self.num_pages();
        let mut j: usize = 0;
        while j < k
            invariant
                0 <= j <= k,
                self.wf(),
                self.pagesize == old(self).pagesize,
                psz == self.pagesize,
                np == self.pages@.len(),
                id + k <= np,
                self.pages@.len() == old(self).pages@.len(),
                block@.len() == k * psz,
                forall|m: int|
                    0 <= m < self.pages@.len() && !(id <= m < id + j) ==> (
                    #[trigger] self.pages@[m])@ == old(self).pages@[m]@,
                forall|m: int|
                    0 <= m < j ==> (#[trigger] self.pages@[id + m])@ == block@.subrange(
                        m * psz,
                        m * psz + psz,
                    ),
            decreases k - j,
        {
            let mut page: Vec<u8> = Vec::new();
            let blen = block.len();
            proof {
                assert(j * psz + psz <= k * psz) by (nonlinear_arith)
                    requires
                        j < k,
                        psz >= 0,
                ;
                assert(j * psz >= 0) by (nonlinear_arith)
                    requires
                        j >= 0,
                        psz >= 0,
                ;
            }
            let lo = j * psz;
            let mut b: usize = 0;
            while b < psz
                invariant
                    0 <= b <= psz,
                    lo == j * psz,
                    blen == block@.len(),
                    lo + psz <= blen,
                    page@ == block@.subrange(lo as int, lo + b),
                decreases psz - b,
            {
                page.push(block[lo + b]);
                proof {
                    assert(page@ =~= block@.subrange(lo as int, lo + b + 1));
                }
                b = b + 1;
            }
            self.pages.set(id + j, page);
            j = j + 1;
        }
        proof {
            lemma_chunks_form_block(self.pages@, block@, id as int, k as int, psz as int);
        }
    }
}

/// A page of zeroes.
fn zero_page(pagesize: usize) -> (r: Vec<u8>)
    ensures
        r@.len() == pagesize,
{
    let mut out: Vec<u8> = Vec::new();
    let mut i: usize = 0;
    while i < pagesize
        invariant
            0 <= i <= pagesize,
            out@.len() == i,
        decreases pagesize - i,
    {
        out.push(0u8);
        i = i + 1;
    }
    out
}

/// Pages that each hold one chunk of `block` concatenate back to `block`.
proof fn lemma_chunks_form_block(pages: Seq<Vec<u8>>, block: Seq<u8>, id: int, k: int, psz: int)
    requires
        k >= 0,
        psz >= 0,
        id >= 0,
        id + k <= pages.len(),
        block.len() == k * psz,
        forall|m: int|
            0 <= m < k ==> (#[trigger] pages[id + m])@ == block.subrange(m * psz, m * psz + psz),
    ensures
        block_of(pages, id, k) == block,
    decreases k,
{
    if k == 0 {
        assert(block.len() == 0) by (nonlinear_arith)
            requires
                k == 0,
                block.len() == k * psz,
        ;
        assert(block_of(pages, id, 0) =~= block);
    } else {
        assert((k - 1) * psz >= 0 && (k - 1) * psz + psz == k * psz) by (nonlinear_arith)
            requires
                k >= 1,
                psz >= 0,
        ;
        let front = block.subrange(0, (k - 1) * psz);
        assert forall|m: int|
            0 <= m < k - 1 implies (#[trigger] pages[id + m])@ == front.subrange(
            m * psz,
            m * psz + psz,
        ) by {
            assert(pages[id + m]@ == block.subrange(m * psz, m * psz + psz));
            assert(m * psz + psz <= (k - 1) * psz) by (nonlinear_arith)
                requires
                    0 <= m < k - 1,
                    psz >= 0,
            ;
            assert(m * psz >= 0) by (nonlinear_arith)
                requires
                    m >= 0,
                    psz >= 0,
            ;
            assert(front.subrange(m * psz, m * psz + psz) =~= block.subrange(
                m * psz,
                m * psz + psz,
            ));
        }
        lemma_chunks_form_block(pages, front, id, k - 1, psz);
        assert(pages[id + (k - 1)]@ == block.subrange((k - 1) * psz, (k - 1) * psz + psz));
        assert(block_of(pages, id, k) =~= front + block.subrange((k - 1) * psz, k * psz));
        assert(front + block.subrange((k - 1) * psz, k * psz) =~= block);
    }
}

} // verus!
