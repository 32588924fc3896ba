//! Serialized form of bucket-tree nodes and of the freelist: a node
//! occupies one logical block, a head page plus contiguous overflow
//! pages. Parsing is fully bounds-checked and validates the ordering
//! invariant, so a corrupt file surfaces as a corruption error, never as
//! a panic or an unsorted bucket.
use crate::bucket::{entries_sorted, EntryValue, LeafEntry};
use crate::codec::{key_compare, lemma_lex_trans, push_u64_be, read_u64_be, u64_from_be, KeyOrder};
use crate::errors::Error;
use crate::freelist::sorted_strict;
use crate::meta::BucketMeta;
use crate::page::{push_header, parse_header, PAGE_HEADER_LEN, TYPE_FREELIST, TYPE_LEAF};
use vstd::prelude::*;

verus! {

/// Leaf entry kind tag: a plain value.
pub const KIND_VALUE: u8 = 1;

/// Leaf entry kind tag: a sub-bucket descriptor.
pub const KIND_BUCKET: u8 = 2;

/// Pads `out` with zeroes to a whole number of pages and returns the
/// page count of the block.
#[verifier::rlimit(80)]
fn pad_to_pages(out: &mut Vec<u8>, pagesize: usize) -> (r: Result<usize, Error>)
    requires
        pagesize >= 1,
        old(out)@.len() >= 1,
    ensures
        r is Err ==> (r.unwrap_err() is Unsupported && final(out)@ == old(out)@ && old(
            out,
        )@.len() > pagesize),
        r is Ok ==> r.unwrap() >= 1,
        r is Ok ==> final(out)@.len() == r.unwrap() * pagesize,
        r is Ok ==> final(out)@.len() >= pagesize,
        r is Ok ==> final(out)@.len() as int % pagesize as int == 0,
        r is Ok ==> final(out)@.len() >= old(out)@.len(),
        r is Ok ==> final(out)@.subrange(0, old(out)@.len() as int) == old(out)@,
        r is Ok ==> forall|m: int|
            old(out)@.len() <= m < final(out)@.len() ==> final(out)@[m] == 0u8,
        r is Ok && old(out)@.len() <= pagesize ==> final(out)@.len() == pagesize,
        old(out)@.len() + pagesize <= usize::MAX ==> r is Ok,
{
    let len = out.len();
    let whole = len / pagesize;
    let rem = len % pagesize;
    let k = if rem == 0 {
        whole
    } else {
        match whole.checked_add(1) {
            Some(k) => k,
            None => {
                proof {
                    assert(out@.subrange(0, out@.len() as int) =~= out@);
                    vstd::arithmetic::div_mod::lemma_fundamental_div_mod(
                        len as int,
                        pagesize as int,
                    );
                    let m = len as int % pagesize as int;
                    assert(len > pagesize) by (nonlinear_arith)
                        requires
                            whole == usize::MAX,
                            usize::MAX >= 2,
                            len as int == pagesize * (whole as int) + m,
                            m >= 0,
                            pagesize >= 1,
                    ;
                    assert(len + pagesize > usize::MAX) by (nonlinear_arith)
                        requires
                            whole == usize::MAX,
                            len as int == pagesize * (whole as int) + m,
                            m >= 0,
                            pagesize >= 1,
                    ;
                }
                return Err(Error::Unsupported(String::from_str("node too large")));
            },
        }
    };
    let total = match k.checked_mul(pagesize) {
        Some(t) => t,
        None => {
            proof {
                assert(out@.subrange(0, out@.len() as int) =~= out@);
                vstd::arithmetic::div_mod::lemma_fundamental_div_mod(len as int, pagesize as int);
                let q = len as int / pagesize as int;
                let m = len as int % pagesize as int;
                assert(len > pagesize) by (nonlinear_arith)
                    requires
                        k as int * pagesize as int > usize::MAX,
                        len <= usize::MAX,
                        k as int == (if m == 0 {
                            q
                        } else {
                            q + 1
                        }),
                        len as int == pagesize * q + m,
                        0 <= m < pagesize,
                        pagesize >= 1,
                        len >= 1,
                ;
                assert(len + pagesize > usize::MAX) by (nonlinear_arith)
                    requires
                        k as int * pagesize as int > usize::MAX,
                        k as int == (if m == 0 {
                            q
                        } else {
                            q + 1
                        }),
                        len as int == pagesize * q + m,
                        0 <= m < pagesize,
                        pagesize >= 1,
                ;
            }
            return Err(Error::Unsupported(String::from_str("node too large")));
        },
    };
    proof {
        vstd::arithmetic::div_mod::lemma_fundamental_div_mod(len as int, pagesize as int);
        assert(len as int == pagesize * (whole as int) + (rem as int));
        if rem == 0 {
            assert(len <= total) by (nonlinear_arith)
                requires
                    len as int == pagesize * (whole as int),
                    total == k * pagesize,
                    k == whole,
            ;
            assert(k >= 1) by (nonlinear_arith)
                requires
                    len >= 1,
                    len as int == pagesize * (whole as int),
                    k == whole,
                    pagesize >= 1,
            ;
        } else {
            assert(len <= total) by (nonlinear_arith)
                requires
                    len as int == pagesize * (whole as int) + (rem as int),
                    rem < pagesize,
                    total == k * pagesize,
                    k == whole + 1,
            ;
        }
    }
    let mut i = len;
    while i < total
        invariant
            len <= i <= total,
            out@.len() == i,
            out@.subrange(0, len as int) == old(out)@,
            forall|m: int| len <= m < i ==> out@[m] == 0u8,
        decreases total - i,
    {
        out.push(0u8);
        proof {
            assert(out@.subrange(0, len as int) =~= old(out)@);
        }
        i = i + 1;
    }
    proof {
        assert(out@.len() >= pagesize) by (nonlinear_arith)
            requires
                out@.len() == total,
                total == k * pagesize,
                k >= 1,
                pagesize >= 1,
        ;
        vstd::arithmetic::div_mod::lemma_mod_multiples_basic(k as int, pagesize as int);
        assert(out@.len() == k * pagesize);
        assert(out@.len() >= pagesize) by (nonlinear_arith)
            requires
                out@.len() == k * pagesize,
                k >= 1,
                pagesize >= 1,
        ;
        assert(out@.subrange(0, len as int) == old(out)@);
        if len <= pagesize {
            assert(k == 1) by (nonlinear_arith)
                requires
                    1 <= len <= pagesize,
                    pagesize >= 1,
                    len as int == pagesize * (whole as int) + (rem as int),
                    0 <= rem < pagesize,
                    k as int == (if rem == 0 {
                        whole as int
                    } else {
                        whole as int + 1
                    }),
            ;
            assert(out@.len() == pagesize) by (nonlinear_arith)
                requires
                    out@.len() == k * pagesize,
                    k == 1,
            ;
        }
    }
    Ok(k)
}

/// Serializes the entries of one leaf node into a logical block: a leaf
/// header, then for each entry its kind, key length, value length, key
/// bytes and value bytes; sub-bucket descriptors serialize as 16-byte
/// values. Fails only when the node cannot fit in addressable memory.
pub fn serialize_leaf_block(entries: &Vec<LeafEntry>, pagesize: usize) -> (r: Result<
    Vec<u8>,
    Error,
>)
    requires
        pagesize >= PAGE_HEADER_LEN,
    ensures
        match r {
            Ok(b) => {
                &&& b@.len() >= pagesize
                &&& b@.len() as int % pagesize as int == 0
                &&& entries@.len() == 0 ==> b@.len() == pagesize && b@.subrange(
                    0,
                    PAGE_HEADER_LEN as int,
                ) == crate::page::header_bytes(0, TYPE_LEAF, 0, 0)
            },
            Err(e) => e is Unsupported,
        },
        entries@.len() == 0 ==> r is Ok,
{
    let n = entries.len();
    let mut out: Vec<u8> = Vec::new();
    push_header(&mut out, 0, TYPE_LEAF, entries.len() as u64, 0);
    proof {
        if n == 0 {
            assert(out@ =~= crate::page::header_bytes(0, TYPE_LEAF, 0, 0));
        }
    }
    let mut i: usize = 0;
    while i < n
        invariant
            0 <= i <= n,
            n == entries@.len(),
            out@.len() >= 1,
            n == 0 ==> out@ == crate::page::header_bytes(0, TYPE_LEAF, 0, 0),
        decreases n - i,
    {
        let entry = &entries[i];
        match &entry.value {
            EntryValue::Value(v) => {
                out.push(KIND_VALUE);
                push_u64_be(&mut out, entry.key.len() as u64);
                push_u64_be(&mut out, v.len() as u64);
                push_bytes(&mut out, &entry.key);
                push_bytes(&mut out, v);
            },
            EntryValue::Bucket(m) => {
                out.push(KIND_BUCKET);
                push_u64_be(&mut out, entry.key.len() as u64);
                push_u64_be(&mut out, 16);
                push_bytes(&mut out, &entry.key);
                push_u64_be(&mut out, m.root_page);
                push_u64_be(&mut out, m.next_int);
            },
        }
        i = i + 1;
    }
    match pad_to_pages(&mut out, pagesize) {
        Ok(k) => {
            let ghost padded = out@;
            crate::codec::set_u64_be_at(&mut out, 17, (k - 1) as u64);
            proof {
                if n == 0 {
                    assert(k == 1) by (nonlinear_arith)
                        requires
                            padded.len() == k * pagesize,
                            padded.len() == pagesize,
                            pagesize >= 1,
                    ;
                    let h = crate::page::header_bytes(0, TYPE_LEAF, 0, 0);
                    assert(padded.subrange(0, PAGE_HEADER_LEN as int) =~= h);
                    assert(h.subrange(17, 25) =~= crate::codec::u64_be(0u64));
                    assert forall|m: int| 0 <= m < PAGE_HEADER_LEN implies out@[m] == h[m] by {
                        if 17 <= m < 25 {
                            assert(out@.subrange(17, 25)[m - 17] == crate::codec::u64_be(0u64)[m
                                - 17]);
                        } else {
                            assert(out@[m] == padded[m]);
                            assert(padded.subrange(0, PAGE_HEADER_LEN as int)[m] == h[m]);
                        }
                    }
                    assert(out@.subrange(0, PAGE_HEADER_LEN as int) =~= h);
                }
            }
            Ok(out)
        },
        Err(e) => Err(e),
    }
}

/// Appends all of `src` to `out`.
fn push_bytes(out: &mut Vec<u8>, src: &Vec<u8>)
    ensures
        final(out)@ == old(out)@ + src@,
{
    let n = src.len();
    let mut i: usize = 0;
    while i < n
        invariant
            0 <= i <= n,
            n == src@.len(),
            out@ == old(out)@ + src@.subrange(0, i as int),
        decreases n - i,
    {
        out.push(src[i]);
        proof {
            assert(out@ =~= old(out)@ + src@.subrange(0, i + 1));
        }
        i = i + 1;
    }
    proof {
        assert(out@ =~= old(out)@ + src@);
    }
}

/// Copies `buf[off .. off + len]` out as a fresh vector.
fn read_bytes(buf: &Vec<u8>, off: usize, len: usize) -> (r: Vec<u8>)
    requires
        off + len <= buf@.len(),
    ensures
        r@ == buf@.subrange(off as int, off + len),
{
    let total = buf.len();
    let mut out: Vec<u8> = Vec::new();
    let mut i: usize = 0;
    while i < len
        invariant
            0 <= i <= len,
            off + len <= total,
            total == buf@.len(),
            out@ == buf@.subrange(off as int, off + i),
        decreases len - i,
    {
        out.push(buf[off + i]);
        proof {
            assert(out@ =~= buf@.subrange(off as int, off + i + 1));
        }
        i = i + 1;
    }
    out
}

/// Adjacent strict ascent gives strict ascent between any two positions.
proof fn lemma_adjacent_sorted_entries(s: Seq<LeafEntry>)
    requires
        forall|i: int|
            0 <= i < s.len() - 1 ==> crate::codec::lex_lt(
                (#[trigger] s[i]).key@,
                s[i + 1].key@,
            ),
    ensures
        entries_sorted(s),
{
    assert forall|i: int, j: int|
        0 <= i < j < s.len() implies crate::codec::lex_lt(s[i].key@, s[j].key@) by {
        lemma_adjacent_sorted_entries_step(s, i, j);
    }
}

/// One pair of the adjacency-to-total argument, by induction on the gap.
proof fn lemma_adjacent_sorted_entries_step(s: Seq<LeafEntry>, i: int, j: int)
    requires
        forall|m: int|
            0 <= m < s.len() - 1 ==> crate::codec::lex_lt(
                (#[trigger] s[m]).key@,
                s[m + 1].key@,
            ),
        0 <= i < j < s.len(),
    ensures
        crate::codec::lex_lt(s[i].key@, s[j].key@),
    decreases j - i,
{
    if j == i + 1 {
        assert(crate::codec::lex_lt(s[i].key@, s[i + 1].key@));
    } else {
        lemma_adjacent_sorted_entries_step(s, i, j - 1);
        assert(crate::codec::lex_lt(s[j - 1].key@, s[j].key@));
        lemma_lex_trans(s[i].key@, s[j - 1].key@, s[j].key@);
    }
}

/// Checks that the entries are in strictly ascending key order.
pub fn check_entries_sorted(entries: &Vec<LeafEntry>) -> (r: bool)
    ensures
        r ==> entries_sorted(entries@),
{
    let n = entries.len();
    if n == 0 {
        return true;
    }
    let mut i: usize = 0;
    while i < n - 1
        invariant
            0 <= i <= n - 1,
            n == entries@.len(),
            n >= 1,
            forall|m: int|
                0 <= m < i ==> crate::codec::lex_lt(
                    (#[trigger] entries@[m]).key@,
                    entries@[m + 1].key@,
                ),
        decreases n - i,
    {
        match key_compare(&entries[i].key, &entries[i + 1].key) {
            KeyOrder::Less => {},
            _ => {
                return false;
            },
        }
        i = i + 1;
    }
    proof {
        lemma_adjacent_sorted_entries(entries@);
    }
    true
}

/// Parses one leaf block back into its entries, validating every bound,
/// the type tag and the strict key order; any violation is a corruption
/// error.
pub fn parse_leaf_block(block: &Vec<u8>) -> (r: Result<Vec<LeafEntry>, Error>)
    requires
        block@.len() >= PAGE_HEADER_LEN,
    ensures
        match r {
            Ok(es) => {
                &&& entries_sorted(es@)
                &&& block@[8] == TYPE_LEAF
                &&& es@.len() == u64_from_be(block@.subrange(9, 17))
            },
            Err(e) => e is InvalidDB,
        },
        block@[8] == TYPE_LEAF && u64_from_be(block@.subrange(9, 17)) == 0 ==> (r matches Ok(es)
            && es@.len() == 0),
{
    let total = block.len();
    let header = parse_header(block);
    if header.page_type != TYPE_LEAF {
        return Err(Error::InvalidDB(String::from_str("expected a leaf page")));
    }
    let count = header.count;
    let mut entries: Vec<LeafEntry> = Vec::new();
    let mut off: usize = PAGE_HEADER_LEN;
    let mut parsed: u64 = 0;
    while parsed < count
        invariant
            total == block@.len(),
            off <= total,
            parsed <= count,
            count == u64_from_be(block@.subrange(9, 17)),
            entries@.len() == parsed,
            entries_sorted(entries@),
            forall|m: int|
                0 <= m < entries@.len() - 1 ==> crate::codec::lex_lt(
                    (#[trigger] entries@[m]).key@,
                    entries@[m + 1].key@,
                ),
        decreases count - parsed,
    {
        if total - off < 17 {
            return Err(Error::InvalidDB(String::from_str("leaf entry header out of bounds")));
        }
        let kind = block[off];
        let key_len64 = read_u64_be(block, off + 1);
        let val_len64 = read_u64_be(block, off + 9);
        let rest = (total - off) - 17;
        if key_len64 > rest as u64 {
            return Err(Error::InvalidDB(String::from_str("leaf key out of bounds")));
        }
        let key_len = key_len64 as usize;
        if val_len64 > (rest - key_len) as u64 {
            return Err(Error::InvalidDB(String::from_str("leaf value out of bounds")));
        }
        let val_len = val_len64 as usize;
        let key = read_bytes(block, off + 17, key_len);
        let value: EntryValue = if kind == KIND_VALUE {
            EntryValue::Value(read_bytes(block, off + 17 + key_len, val_len))
        } else if kind == KIND_BUCKET {
            if val_len != 16 {
                return Err(Error::InvalidDB(String::from_str("bucket descriptor size")));
            }
            let root_page = read_u64_be(block, off + 17 + key_len);
            let next_int = read_u64_be(block, off + 17 + key_len + 8);
            EntryValue::Bucket(BucketMeta { root_page, next_int })
        } else {
            return Err(Error::InvalidDB(String::from_str("unknown leaf entry kind")));
        };
        if entries.len() > 0 {
            let prev = &entries[entries.len() - 1];
            match key_compare(&prev.key, &key) {
                KeyOrder::Less => {},
                _ => {
                    return Err(Error::InvalidDB(String::from_str("leaf keys out of order")));
                },
            }
        }
        let ghost olde = entries@;
        entries.push(LeafEntry { key, value });
        proof {
            assert(forall|m: int| 0 <= m < olde.len() ==> entries@[m] == olde[m]);
            assert forall|m: int|
                0 <= m < entries@.len() - 1 implies crate::codec::lex_lt(
                (#[trigger] entries@[m]).key@,
                entries@[m + 1].key@,
            ) by {
                if m < olde.len() - 1 {
                    assert(crate::codec::lex_lt(olde[m].key@, olde[m + 1].key@));
                }
            }
            lemma_adjacent_sorted_entries(entries@);
        }
        off = off + 17 + key_len + val_len;
        parsed = parsed + 1;
    }
    Ok(entries)
}

/// Serializes the branch node that points at the leaf blocks of one
/// bucket: for each child its key length, head page id and first key.
pub fn serialize_branch_block(
    children: &Vec<(Vec<u8>, u64)>,
    pagesize: usize,
) -> (r: Result<Vec<u8>, Error>)
    requires
        pagesize >= PAGE_HEADER_LEN,
    ensures
        match r {
            Ok(b) => {
                &&& b@.len() >= pagesize
                &&& b@.len() as int % pagesize as int == 0
            },
            Err(e) => e is Unsupported,
        },
{
    let mut out: Vec<u8> = Vec::new();
    push_header(&mut out, 0, crate::page::TYPE_BRANCH, children.len() as u64, 0);
    let n = children.len();
    let mut i: usize = 0;
    while i < n
        invariant
            0 <= i <= n,
            n == children@.len(),
            out@.len() >= 1,
        decreases n - i,
    {
        let child = &children[i];
        push_u64_be(&mut out, child.0.len() as u64);
        push_u64_be(&mut out, child.1);
        push_bytes(&mut out, &child.0);
        i = i + 1;
    }
    match pad_to_pages(&mut out, pagesize) {
        Ok(k) => {
            crate::codec::set_u64_be_at(&mut out, 17, (k - 1) as u64);
            Ok(out)
        },
        Err(e) => Err(e),
    }
}

/// Parses a branch block back into its (first key, child page id) list.
pub fn parse_branch_block(block: &Vec<u8>) -> (r: Result<Vec<(Vec<u8>, u64)>, Error>)
    requires
        block@.len() >= PAGE_HEADER_LEN,
    ensures
        match r {
            Ok(cs) => {
                &&& block@[8] == crate::page::TYPE_BRANCH
                &&& cs@.len() == u64_from_be(block@.subrange(9, 17))
            },
            Err(e) => e is InvalidDB,
        },
{
    let total = block.len();
    let header = parse_header(block);
    if header.page_type != crate::page::TYPE_BRANCH {
        return Err(Error::InvalidDB(String::from_str("expected a branch page")));
    }
    let count = header.count;
    let mut children: Vec<(Vec<u8>, u64)> = Vec::new();
    let mut off: usize = PAGE_HEADER_LEN;
    let mut parsed: u64 = 0;
    while parsed < count
        invariant
            total == block@.len(),
            off <= total,
            parsed <= count,
            count == u64_from_be(block@.subrange(9, 17)),
            block@[8] == crate::page::TYPE_BRANCH,
            children@.len() == parsed,
        decreases count - parsed,
    {
        if total - off < 16 {
            return Err(Error::InvalidDB(String::from_str("branch entry header out of bounds")));
        }
        let key_len64 = read_u64_be(block, off);
        let page_id = read_u64_be(block, off + 8);
        let rest = (total - off) - 16;
        if key_len64 > rest as u64 {
            return Err(Error::InvalidDB(String::from_str("branch key out of bounds")));
        }
        let key_len = key_len64 as usize;
        let key = read_bytes(block, off + 16, key_len);
        children.push((key, page_id));
        off = off + 16 + key_len;
        parsed = parsed + 1;
    }
    Ok(children)
}

/// The page ids the freelist payload denotes: `count` big-endian words
/// laid out right after the page header.
pub open spec fn freelist_ids_of(block: Seq<u8>, count: int) -> Seq<u64> {
    Seq::new(
        count as nat,
        |i: int|
            u64_from_be(
                block.subrange(PAGE_HEADER_LEN + 8 * i, PAGE_HEADER_LEN + 8 * i + 8),
            ),
    )
}

/// Serializes the freelist: a freelist header carrying the id count,
/// then the free page ids in ascending order. The block denotes exactly
/// the given ids.
pub fn serialize_freelist_block(ids: &Vec<u64>, pagesize: usize) -> (r: Result<Vec<u8>, Error>)
    requires
        pagesize >= PAGE_HEADER_LEN,
    ensures
        match r {
            Ok(b) => {
                &&& b@.len() >= pagesize
                &&& b@.len() as int % pagesize as int == 0
                &&& b@[8] == TYPE_FREELIST
                &&& u64_from_be(b@.subrange(9, 17)) == ids@.len()
                &&& (u64_from_be(b@.subrange(17, 25)) + 1) * pagesize == b@.len()
                &&& PAGE_HEADER_LEN + 8 * ids@.len() <= b@.len()
                &&& freelist_ids_of(b@, ids@.len() as int) == ids@
                &&& ids@.len() == 0 ==> b@.len() == pagesize && b@.subrange(
                    0,
                    PAGE_HEADER_LEN as int,
                ) == crate::page::header_bytes(0, TYPE_FREELIST, 0, 0)
            },
            Err(e) => e is Unsupported,
        },
        ids@.len() == 0 ==> r is Ok,
        PAGE_HEADER_LEN + 8 * ids@.len() + pagesize <= usize::MAX ==> r is Ok,
{
    let n = ids.len();
    let mut out: Vec<u8> = Vec::new();
    push_header(&mut out, 0, TYPE_FREELIST, ids.len() as u64, 0);
    let ghost header0 = out@;
    proof {
        if n == 0 {
            assert(out@ =~= crate::page::header_bytes(0, TYPE_FREELIST, 0, 0));
        }
    }
    let mut i: usize = 0;
    while i < n
        invariant
            0 <= i <= n,
            n == ids@.len(),
            out@.len() == PAGE_HEADER_LEN + 8 * i,
            out@.subrange(0, PAGE_HEADER_LEN as int) == header0,
            header0 == crate::page::header_bytes(0, TYPE_FREELIST, n as u64, 0),
            forall|j: int|
                0 <= j < i ==> #[trigger] out@.subrange(
                    PAGE_HEADER_LEN + 8 * j,
                    PAGE_HEADER_LEN + 8 * j + 8,
                ) == crate::codec::u64_be(ids@[j]),
            n == 0 ==> out@ == crate::page::header_bytes(0, TYPE_FREELIST, 0, 0),
        decreases n - i,
    {
        let ghost pre = out@;
        push_u64_be(&mut out, ids[i]);
        proof {
            assert(out@.subrange(0, PAGE_HEADER_LEN as int) =~= header0);
            assert(out@.subrange(PAGE_HEADER_LEN + 8 * i, PAGE_HEADER_LEN + 8 * i + 8)
                =~= crate::codec::u64_be(ids@[i as int]));
            assert forall|j: int|
                0 <= j < i + 1 implies #[trigger] out@.subrange(
                PAGE_HEADER_LEN + 8 * j,
                PAGE_HEADER_LEN + 8 * j + 8,
            ) == crate::codec::u64_be(ids@[j]) by {
                if j < i {
                    assert(out@.subrange(PAGE_HEADER_LEN + 8 * j, PAGE_HEADER_LEN + 8 * j + 8)
                        =~= pre.subrange(PAGE_HEADER_LEN + 8 * j, PAGE_HEADER_LEN + 8 * j + 8));
                }
            }
        }
        i = i + 1;
    }
    let ghost prepad = out@;
    match pad_to_pages(&mut out, pagesize) {
        Ok(k) => {
            let ghost padded = out@;
            crate::codec::set_u64_be_at(&mut out, 17, (k - 1) as u64);
            proof {
                crate::page::lemma_header_round_trip(0, TYPE_FREELIST, n as u64, 0);
                assert(padded.subrange(0, PAGE_HEADER_LEN as int) =~= prepad.subrange(
                    0,
                    PAGE_HEADER_LEN as int,
                ));
                assert(prepad.subrange(0, PAGE_HEADER_LEN as int) =~= header0);
                assert(out@[8] == padded[8]);
                assert(padded[8] == padded.subrange(0, PAGE_HEADER_LEN as int)[8]);
                assert(out@.subrange(9, 17) =~= padded.subrange(9, 17));
                assert(padded.subrange(9, 17) =~= header0.subrange(9, 17));
                assert(u64_from_be(out@.subrange(9, 17)) == n as u64);
                assert forall|j: int|
                    0 <= j < n implies #[trigger] out@.subrange(
                    PAGE_HEADER_LEN + 8 * j,
                    PAGE_HEADER_LEN + 8 * j + 8,
                ) == crate::codec::u64_be(ids@[j]) by {
                    assert(out@.subrange(PAGE_HEADER_LEN + 8 * j, PAGE_HEADER_LEN + 8 * j + 8)
                        =~= padded.subrange(PAGE_HEADER_LEN + 8 * j, PAGE_HEADER_LEN + 8 * j + 8));
                    assert(padded.subrange(PAGE_HEADER_LEN + 8 * j, PAGE_HEADER_LEN + 8 * j + 8)
                        =~= prepad.subrange(PAGE_HEADER_LEN + 8 * j, PAGE_HEADER_LEN + 8 * j + 8));
                }
                assert forall|j: int|
                    0 <= j < n implies #[trigger] freelist_ids_of(out@, n as int)[j]
                    == ids@[j] by {
                    crate::codec::lemma_u64_be_round_trip(ids@[j]);
                }
                assert(freelist_ids_of(out@, n as int) =~= ids@);
                assert(out@.subrange(17, 25) =~= crate::codec::u64_be((k - 1) as u64));
                crate::codec::lemma_u64_be_round_trip((k - 1) as u64);
                assert((u64_from_be(out@.subrange(17, 25)) + 1) * pagesize == out@.len())
                    by (nonlinear_arith)
                    requires
                        u64_from_be(out@.subrange(17, 25)) == (k - 1) as u64,
                        k >= 1,
                        (k - 1) as u64 == k - 1,
                        out@.len() == k * pagesize,
                ;
                if n == 0 {
                    assert(k == 1) by (nonlinear_arith)
                        requires
                            padded.len() == k * pagesize,
                            padded.len() == pagesize,
                            pagesize >= 1,
                    ;
                    let h = crate::page::header_bytes(0, TYPE_FREELIST, 0, 0);
                    assert(padded.subrange(0, PAGE_HEADER_LEN as int) =~= h);
                    assert(h.subrange(17, 25) =~= crate::codec::u64_be(0u64));
                    assert forall|m: int| 0 <= m < PAGE_HEADER_LEN implies out@[m] == h[m] by {
                        if 17 <= m < 25 {
                            assert(out@.subrange(17, 25)[m - 17] == crate::codec::u64_be(0u64)[m
                                - 17]);
                        } else {
                            assert(out@[m] == padded[m]);
                            assert(padded.subrange(0, PAGE_HEADER_LEN as int)[m] == h[m]);
                        }
                    }
                    assert(out@.subrange(0, PAGE_HEADER_LEN as int) =~= h);
                }
            }
            Ok(out)
        },
        Err(e) => Err(e),
    }
}

/// Parses the freelist block, validating the type tag, every bound and
/// the strictly ascending order the format requires.
pub fn parse_freelist_block(block: &Vec<u8>) -> (r: Result<Vec<u64>, Error>)
    requires
        block@.len() >= PAGE_HEADER_LEN,
    ensures
        match r {
            Ok(ids) => {
                &&& sorted_strict(ids@)
                &&& block@[8] == TYPE_FREELIST
                &&& ids@.len() == u64_from_be(block@.subrange(9, 17))
                &&& ids@ == freelist_ids_of(block@, ids@.len() as int)
            },
            Err(e) => e is InvalidDB,
        },
        block@[8] == TYPE_FREELIST && PAGE_HEADER_LEN + 8 * u64_from_be(
            block@.subrange(9, 17),
        ) <= block@.len() && sorted_strict(
            freelist_ids_of(block@, u64_from_be(block@.subrange(9, 17)) as int),
        ) ==> r is Ok,
{
    let ghost denoted = freelist_ids_of(block@, u64_from_be(block@.subrange(9, 17)) as int);
    let total = block.len();
    let header = parse_header(block);
    if header.page_type != TYPE_FREELIST {
        return Err(Error::InvalidDB(String::from_str("expected a freelist page")));
    }
    let count = header.count;
    let mut ids: Vec<u64> = Vec::new();
    let mut off: usize = PAGE_HEADER_LEN;
    let mut parsed: u64 = 0;
    while parsed < count
        invariant
            total == block@.len(),
            off == PAGE_HEADER_LEN + 8 * parsed,
            off <= total,
            parsed <= count,
            count == u64_from_be(block@.subrange(9, 17)),
            block@[8] == TYPE_FREELIST,
            denoted == freelist_ids_of(block@, count as int),
            ids@.len() == parsed,
            ids@ == freelist_ids_of(block@, parsed as int),
            sorted_strict(ids@),
            forall|m: int| 0 <= m < ids@.len() - 1 ==> #[trigger] ids@[m] < ids@[m + 1],
        decreases count - parsed,
    {
        if total - off < 8 {
            proof {
                assert(PAGE_HEADER_LEN + 8 * count > total) by (nonlinear_arith)
                    requires
                        total - off < 8,
                        off == PAGE_HEADER_LEN + 8 * (parsed as int),
                        parsed < count,
                        off <= total,
                ;
            }
            return Err(Error::InvalidDB(String::from_str("freelist entry out of bounds")));
        }
        let id = read_u64_be(block, off);
        proof {
            assert(id == denoted[parsed as int]);
        }
        if ids.len() > 0 {
            let prev = ids[ids.len() - 1];
            if prev >= id {
                proof {
                    assert(prev == denoted[parsed - 1]);
                    assert(!sorted_strict(denoted)) by {
                        if sorted_strict(denoted) {
                            assert(denoted[parsed - 1] < denoted[parsed as int]);
                        }
                    }
                }
                return Err(Error::InvalidDB(String::from_str("freelist ids out of order")));
            }
        }
        let ghost oldi = ids@;
        ids.push(id);
        proof {
            assert forall|m: int| 0 <= m < ids@.len() - 1 implies #[trigger] ids@[m] < ids@[m
                + 1] by {
                if m < oldi.len() - 1 {
                    assert(oldi[m] < oldi[m + 1]);
                }
            }
            lemma_adjacent_sorted_ids(ids@);
            assert(ids@ =~= freelist_ids_of(block@, parsed + 1));
        }
        off = off + 8;
        parsed = parsed + 1;
    }
    Ok(ids)
}

/// Adjacent strict ascent gives strict ascent between any two positions.
proof fn lemma_adjacent_sorted_ids(s: Seq<u64>)
    requires
        forall|m: int| 0 <= m < s.len() - 1 ==> #[trigger] s[m] < s[m + 1],
    ensures
        sorted_strict(s),
{
    assert forall|i: int, j: int| 0 <= i < j < s.len() implies s[i] < s[j] by {
        lemma_adjacent_sorted_ids_step(s, i, j);
    }
}

/// One pair of the adjacency-to-total argument, by induction on the gap.
proof fn lemma_adjacent_sorted_ids_step(s: Seq<u64>, i: int, j: int)
    requires
        forall|m: int| 0 <= m < s.len() - 1 ==> #[trigger] s[m] < s[m + 1],
        0 <= i < j < s.len(),
    ensures
        s[i] < s[j],
    decreases j - i,
{
    if j > i + 1 {
        lemma_adjacent_sorted_ids_step(s, i, j - 1);
    }
}

} // verus!
