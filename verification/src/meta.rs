//! The meta record: a fixed, hashable header stored redundantly in the
//! first two pages of the file. It describes one committed generation of
//! the database; the slot with the higher transaction id among the valid
//! ones is the current generation.
use crate::codec::{
    bytes_eq, lemma_u32_be_round_trip, lemma_u64_be_round_trip, push_u32_be, push_u64_be,
    read_u32_be, read_u64_be, u32_be, u32_from_be, u64_be, u64_from_be,
};
use crate::errors::Error;
use sha3::{Digest, Sha3_256};
use vstd::prelude::*;

verus! {

/// Constant that every well-formed meta record must carry.
pub const DATABASE_INTEGRITY_CHECK: u32 = 0x00ABCDEF;

/// Version of the file format written by this engine.
pub const VERSION: u32 = 1;

/// A page number; multiplying by the page size gives the file offset.
pub type PageId = u64;

/// Descriptor of one bucket: the page its tree is rooted at and the
/// next value of its auto-increment integer sequence.
#[derive(Clone, Copy, Debug, PartialEq, Eq, Structural)]
pub struct BucketMeta {
    pub root_page: PageId,
    pub next_int: u64,
}

/// One meta record. `hash` is a 256-bit digest over all preceding fields
/// in their serialized order.
#[derive(Debug)]
pub struct Meta {
    /// Which of the two meta slots (0 or 1) this record lives in.
    pub meta_page: u32,
    /// Must equal `DATABASE_INTEGRITY_CHECK`.
    pub integrity_code: u32,
    /// File format version.
    pub version: u32,
    /// Page size the file was created with.
    pub pagesize: u64,
    /// The root bucket.
    pub root: BucketMeta,
    /// Total number of pages in the file.
    pub num_pages: u64,
    /// Page holding the serialized freelist.
    pub freelist_page: PageId,
    /// Monotonically increasing transaction id.
    pub tx_id: u64,
    /// Digest over the fields above.
    pub hash: Vec<u8>,
}

/// Mathematical model of a meta record.
pub struct MetaView {
    pub meta_page: u32,
    pub integrity_code: u32,
    pub version: u32,
    pub pagesize: u64,
    pub root: BucketMeta,
    pub num_pages: u64,
    pub freelist_page: PageId,
    pub tx_id: u64,
    pub hash: Seq<u8>,
}

impl View for Meta {
    type V = MetaView;

    open spec fn view(&self) -> MetaView {
        MetaView {
            meta_page: self.meta_page,
            integrity_code: self.integrity_code,
            version: self.version,
            pagesize: self.pagesize,
            root: self.root,
            num_pages: self.num_pages,
            freelist_page: self.freelist_page,
            tx_id: self.tx_id,
            hash: self.hash@,
        }
    }
}

/// Number of bytes hashed: the nine fields before the digest.
pub const META_HASHED_LEN: usize = 60;

/// Number of bytes of a full serialized meta record, digest included.
pub const META_RECORD_LEN: usize = 92;

/// The digest of `data` as computed by SHA3-256.
pub uninterp spec fn sha3_256_of(data: Seq<u8>) -> Seq<u8>;

/// Relies on sha3::Sha3_256 (via the Digest trait): the digest is 32
/// bytes long and depends on the input bytes alone.
#[verifier::external_body]
fn sha3_256(data: &Vec<u8>) -> (r: Vec<u8>)
    ensures
        r@ == sha3_256_of(data@),
        r@.len() == 32,
{
    let mut hasher = Sha3_256::new();
    hasher.update(data.as_slice());
    hasher.finalize().to_vec()
}

/// The serialized form of the hashed fields, in their fixed big-endian
/// field order.
pub open spec fn meta_hashed_bytes(m: MetaView) -> Seq<u8> {
    u32_be(m.meta_page) + u32_be(m.integrity_code) + u32_be(m.version) + u64_be(m.pagesize)
        + u64_be(m.root.root_page) + u64_be(m.root.next_int) + u64_be(m.num_pages) + u64_be(
        m.freelist_page,
    ) + u64_be(m.tx_id)
}

/// The serialized form of a whole meta record: hashed fields, then digest.
pub open spec fn meta_record_bytes(m: MetaView) -> Seq<u8> {
    meta_hashed_bytes(m) + m.hash
}

/// Structural well-formedness: the digest field has digest length.
pub open spec fn meta_wf(m: MetaView) -> bool {
    m.hash.len() == 32
}

/// A meta record is valid iff its integrity code matches the expected
/// constant, its stored page size matches the runtime page size, and its
/// stored digest equals the digest recomputed over its own fields.
pub open spec fn meta_valid(m: MetaView, runtime_pagesize: u64) -> bool {
    &&& m.integrity_code == DATABASE_INTEGRITY_CHECK
    &&& m.pagesize == runtime_pagesize
    &&& m.hash == sha3_256_of(meta_hashed_bytes(m))
}

/// Code and digest check out, whatever page size the record names.
pub open spec fn meta_self_consistent(m: MetaView) -> bool {
    &&& m.integrity_code == DATABASE_INTEGRITY_CHECK
    &&& m.hash == sha3_256_of(meta_hashed_bytes(m))
}

/// The meta record that 92 stored bytes denote, field by field.
pub open spec fn meta_record_of(s: Seq<u8>) -> MetaView {
    MetaView {
        meta_page: u32_from_be(s.subrange(0, 4)),
        integrity_code: u32_from_be(s.subrange(4, 8)),
        version: u32_from_be(s.subrange(8, 12)),
        pagesize: u64_from_be(s.subrange(12, 20)),
        root: BucketMeta {
            root_page: u64_from_be(s.subrange(20, 28)),
            next_int: u64_from_be(s.subrange(28, 36)),
        },
        num_pages: u64_from_be(s.subrange(36, 44)),
        freelist_page: u64_from_be(s.subrange(44, 52)),
        tx_id: u64_from_be(s.subrange(52, 60)),
        hash: s.subrange(60, 92),
    }
}

/// The record `m` is what the 92 bytes `s` denote.
pub open spec fn meta_record_matches(s: Seq<u8>, m: MetaView) -> bool {
    &&& s.len() == META_RECORD_LEN
    &&& m.meta_page == u32_from_be(s.subrange(0, 4))
    &&& m.integrity_code == u32_from_be(s.subrange(4, 8))
    &&& m.version == u32_from_be(s.subrange(8, 12))
    &&& m.pagesize == u64_from_be(s.subrange(12, 20))
    &&& m.root.root_page == u64_from_be(s.subrange(20, 28))
    &&& m.root.next_int == u64_from_be(s.subrange(28, 36))
    &&& m.num_pages == u64_from_be(s.subrange(36, 44))
    &&& m.freelist_page == u64_from_be(s.subrange(44, 52))
    &&& m.tx_id == u64_from_be(s.subrange(52, 60))
    &&& m.hash == s.subrange(60, 92)
}

impl Meta {
    /// Serializes the hashed fields in their fixed big-endian order.
    pub fn bytes(&self) -> (r: Vec<u8>)
        ensures
            r@ == meta_hashed_bytes(self@),
            r@.len() == META_HASHED_LEN,
    {
        let mut out: Vec<u8> = Vec::new();
        push_u32_be(&mut out, self.meta_page);
        push_u32_be(&mut out, self.integrity_code);
        push_u32_be(&mut out, self.version);
        push_u64_be(&mut out, self.pagesize);
        push_u64_be(&mut out, self.root.root_page);
        push_u64_be(&mut out, self.root.next_int);
        push_u64_be(&mut out, self.num_pages);
        push_u64_be(&mut out, self.freelist_page);
        push_u64_be(&mut out, self.tx_id);
        proof {
            assert(out@ =~= meta_hashed_bytes(self@));
        }
        out
    }

    /// Digest over the record's own hashed fields.
    pub fn hash_self(&self) -> (r: Vec<u8>)
        ensures
            r@ == sha3_256_of(meta_hashed_bytes(self@)),
            r@.len() == 32,
    {
        let b = self.bytes();
        sha3_256(&b)
    }

    /// Checks the record against the runtime page size: integrity code,
    /// page size and recomputed digest must all match.
    pub fn valid(&self, runtime_pagesize: u64) -> (r: bool)
        ensures
            r == meta_valid(self@, runtime_pagesize),
    {
        if self.integrity_code != DATABASE_INTEGRITY_CHECK {
            return false;
        }
        if self.pagesize != runtime_pagesize {
            return false;
        }
        let expected = self.hash_self();
        bytes_eq(&self.hash, &expected)
    }

    /// Checks integrity code and digest only.
    pub fn self_consistent(&self) -> (r: bool)
        ensures
            r == meta_self_consistent(self@),
    {
        if self.integrity_code != DATABASE_INTEGRITY_CHECK {
            return false;
        }
        let expected = self.hash_self();
        bytes_eq(&self.hash, &expected)
    }

    /// A field-for-field copy of the record.
    pub fn duplicate(&self) -> (r: Meta)
        ensures
            r@ == self@,
    {
        let mut hash: Vec<u8> = Vec::new();
        let mut i: usize = 0;
        let n = self.hash.len();
        while i < n
            invariant
                0 <= i <= n,
                n == self.hash@.len(),
                hash@ == self.hash@.subrange(0, i as int),
            decreases n - i,
        {
            hash.push(self.hash[i]);
            proof {
                assert(hash@ =~= self.hash@.subrange(0, i + 1));
            }
            i = i + 1;
        }
        proof {
            assert(hash@ =~= self.hash@);
        }
        Meta {
            meta_page: self.meta_page,
            integrity_code: self.integrity_code,
            version: self.version,
            pagesize: self.pagesize,
            root: self.root,
            num_pages: self.num_pages,
            freelist_page: self.freelist_page,
            tx_id: self.tx_id,
            hash,
        }
    }

    /// Serializes the whole record, digest included.
    pub fn record_bytes(&self) -> (r: Vec<u8>)
        requires
            meta_wf(self@),
        ensures
            r@ == meta_record_bytes(self@),
            r@.len() == META_RECORD_LEN,
    {
        let mut out = self.bytes();
        let mut i: usize = 0;
        let n = self.hash.len();
        while i < n
            invariant
                0 <= i <= n,
                n == self.hash@.len(),
                out@ == meta_hashed_bytes(self@) + self.hash@.subrange(0, i as int),
            decreases n - i,
        {
            out.push(self.hash[i]);
            proof {
                assert(out@ =~= meta_hashed_bytes(self@) + self.hash@.subrange(0, i + 1));
            }
            i = i + 1;
        }
        proof {
            assert(self.hash@.subrange(0, n as int) =~= self.hash@);
            assert(out@ =~= meta_record_bytes(self@));
        }
        out
    }
}

/// Reads the meta record serialized at `buf[off .. off + 92]`.
pub fn parse_meta_record(buf: &Vec<u8>, off: usize) -> (r: Meta)
    requires
        off + META_RECORD_LEN <= buf@.len(),
    ensures
        meta_record_matches(buf@.subrange(off as int, off + META_RECORD_LEN), r@),
        r@ == meta_record_of(buf@.subrange(off as int, off + META_RECORD_LEN)),
        meta_wf(r@),
{
    let ghost s = buf@.subrange(off as int, off + META_RECORD_LEN);
    let n = buf.len();
    let meta_page = read_u32_be(buf, off);
    let integrity_code = read_u32_be(buf, off + 4);
    let version = read_u32_be(buf, off + 8);
    let pagesize = read_u64_be(buf, off + 12);
    let root_page = read_u64_be(buf, off + 20);
    let next_int = read_u64_be(buf, off + 28);
    let num_pages = read_u64_be(buf, off + 36);
    let freelist_page = read_u64_be(buf, off + 44);
    let tx_id = read_u64_be(buf, off + 52);
    let mut hash: Vec<u8> = Vec::new();
    let mut i: usize = 0;
    while i < 32
        invariant
            0 <= i <= 32,
            n == buf@.len(),
            off + META_RECORD_LEN <= n,
            hash@ == buf@.subrange(off + 60, off + 60 + i),
        decreases 32 - i,
    {
        hash.push(buf[off + 60 + i]);
        proof {
            assert(hash@ =~= buf@.subrange(off + 60, off + 60 + i + 1));
        }
        i = i + 1;
    }
    let r = Meta {
        meta_page,
        integrity_code,
        version,
        pagesize,
        root: BucketMeta { root_page, next_int },
        num_pages,
        freelist_page,
        tx_id,
        hash,
    };
    proof {
        assert(s.subrange(0, 4) =~= buf@.subrange(off as int, off + 4));
        assert(s.subrange(4, 8) =~= buf@.subrange(off + 4, off + 8));
        assert(s.subrange(8, 12) =~= buf@.subrange(off + 8, off + 12));
        assert(s.subrange(12, 20) =~= buf@.subrange(off + 12, off + 20));
        assert(s.subrange(20, 28) =~= buf@.subrange(off + 20, off + 28));
        assert(s.subrange(28, 36) =~= buf@.subrange(off + 28, off + 36));
        assert(s.subrange(36, 44) =~= buf@.subrange(off + 36, off + 44));
        assert(s.subrange(44, 52) =~= buf@.subrange(off + 44, off + 52));
        assert(s.subrange(52, 60) =~= buf@.subrange(off + 52, off + 60));
        assert(r.hash@ =~= s.subrange(60, 92));
        assert(r@ == meta_record_of(s));
    }
    r
}

/// Serializing a record and reading the bytes back denotes the record.
pub proof fn lemma_meta_record_round_trip(m: MetaView)
    requires
        meta_wf(m),
    ensures
        meta_record_matches(meta_record_bytes(m), m),
{
    let s = meta_record_bytes(m);
    lemma_u32_be_round_trip(m.meta_page);
    lemma_u32_be_round_trip(m.integrity_code);
    lemma_u32_be_round_trip(m.version);
    lemma_u64_be_round_trip(m.pagesize);
    lemma_u64_be_round_trip(m.root.root_page);
    lemma_u64_be_round_trip(m.root.next_int);
    lemma_u64_be_round_trip(m.num_pages);
    lemma_u64_be_round_trip(m.freelist_page);
    lemma_u64_be_round_trip(m.tx_id);
    assert(s.subrange(0, 4) =~= u32_be(m.meta_page));
    assert(s.subrange(4, 8) =~= u32_be(m.integrity_code));
    assert(s.subrange(8, 12) =~= u32_be(m.version));
    assert(s.subrange(12, 20) =~= u64_be(m.pagesize));
    assert(s.subrange(20, 28) =~= u64_be(m.root.root_page));
    assert(s.subrange(28, 36) =~= u64_be(m.root.next_int));
    assert(s.subrange(36, 44) =~= u64_be(m.num_pages));
    assert(s.subrange(44, 52) =~= u64_be(m.freelist_page));
    assert(s.subrange(52, 60) =~= u64_be(m.tx_id));
    assert(s.subrange(60, 92) =~= m.hash);
}

/// Serializing a record and taking the denotation of the bytes gives the
/// record back.
pub proof fn lemma_record_of_round_trip(m: MetaView)
    requires
        meta_wf(m),
    ensures
        meta_record_of(meta_record_bytes(m)) == m,
{
    lemma_meta_record_round_trip(m);
    let d = meta_record_of(meta_record_bytes(m));
    assert(d.hash =~= m.hash);
    assert(d.root == m.root);
    assert(d == m);
}

/// The serialization of the hashed fields is injective: two records with
/// the same hashed bytes agree on every hashed field. Changing any single
/// hashed field therefore changes the hashed bytes.
#[verifier::rlimit(50)]
pub proof fn lemma_meta_bytes_injective(m1: MetaView, m2: MetaView)
    requires
        meta_hashed_bytes(m1) == meta_hashed_bytes(m2),
    ensures
        m1.meta_page == m2.meta_page,
        m1.integrity_code == m2.integrity_code,
        m1.version == m2.version,
        m1.pagesize == m2.pagesize,
        m1.root == m2.root,
        m1.num_pages == m2.num_pages,
        m1.freelist_page == m2.freelist_page,
        m1.tx_id == m2.tx_id,
{
    let s1 = meta_hashed_bytes(m1);
    let s2 = meta_hashed_bytes(m2);
    lemma_u32_be_round_trip(m1.meta_page);
    lemma_u32_be_round_trip(m1.integrity_code);
    lemma_u32_be_round_trip(m1.version);
    lemma_u64_be_round_trip(m1.pagesize);
    lemma_u64_be_round_trip(m1.root.root_page);
    lemma_u64_be_round_trip(m1.root.next_int);
    lemma_u64_be_round_trip(m1.num_pages);
    lemma_u64_be_round_trip(m1.freelist_page);
    lemma_u64_be_round_trip(m1.tx_id);
    lemma_u32_be_round_trip(m2.meta_page);
    lemma_u32_be_round_trip(m2.integrity_code);
    lemma_u32_be_round_trip(m2.version);
    lemma_u64_be_round_trip(m2.pagesize);
    lemma_u64_be_round_trip(m2.root.root_page);
    lemma_u64_be_round_trip(m2.root.next_int);
    lemma_u64_be_round_trip(m2.num_pages);
    lemma_u64_be_round_trip(m2.freelist_page);
    lemma_u64_be_round_trip(m2.tx_id);
    assert(s1.subrange(0, 4) =~= u32_be(m1.meta_page));
    assert(s2.subrange(0, 4) =~= u32_be(m2.meta_page));
    assert(s1.subrange(4, 8) =~= u32_be(m1.integrity_code));
    assert(s2.subrange(4, 8) =~= u32_be(m2.integrity_code));
    assert(s1.subrange(8, 12) =~= u32_be(m1.version));
    assert(s2.subrange(8, 12) =~= u32_be(m2.version));
    assert(s1.subrange(12, 20) =~= u64_be(m1.pagesize));
    assert(s2.subrange(12, 20) =~= u64_be(m2.pagesize));
    assert(s1.subrange(20, 28) =~= u64_be(m1.root.root_page));
    assert(s2.subrange(20, 28) =~= u64_be(m2.root.root_page));
    assert(s1.subrange(28, 36) =~= u64_be(m1.root.next_int));
    assert(s2.subrange(28, 36) =~= u64_be(m2.root.next_int));
    assert(s1.subrange(36, 44) =~= u64_be(m1.num_pages));
    assert(s2.subrange(36, 44) =~= u64_be(m2.num_pages));
    assert(s1.subrange(44, 52) =~= u64_be(m1.freelist_page));
    assert(s2.subrange(44, 52) =~= u64_be(m2.freelist_page));
    assert(s1.subrange(52, 60) =~= u64_be(m1.tx_id));
    assert(s2.subrange(52, 60) =~= u64_be(m2.tx_id));
}

/// Hash integrity: a record that carries the digest of another record's
/// fields can itself pass the digest check only if the two field
/// serializations collide under the digest; if any hashed field differs,
/// the serializations themselves differ.
pub proof fn lemma_hash_detects_mutation(m1: MetaView, m2: MetaView)
    requires
        meta_self_consistent(m1),
        m2.hash == m1.hash,
        m1.meta_page != m2.meta_page || m1.integrity_code != m2.integrity_code || m1.version
            != m2.version || m1.pagesize != m2.pagesize || m1.root != m2.root || m1.num_pages
            != m2.num_pages || m1.freelist_page != m2.freelist_page || m1.tx_id != m2.tx_id,
    ensures
        meta_hashed_bytes(m1) != meta_hashed_bytes(m2),
        meta_self_consistent(m2) ==> sha3_256_of(meta_hashed_bytes(m1)) == sha3_256_of(
            meta_hashed_bytes(m2),
        ),
{
    if meta_hashed_bytes(m1) == meta_hashed_bytes(m2) {
        lemma_meta_bytes_injective(m1, m2);
    }
}

/// Meta slot selection: of two slot records, the current one is the valid
/// record with the higher transaction id. Two records that are internally
/// consistent but disagree on the page size are a corruption signal, as is
/// a pair with no valid record at all.
pub open spec fn read_current_spec(a: MetaView, b: MetaView, runtime_pagesize: u64) -> Option<
    MetaView,
> {
    if meta_self_consistent(a) && meta_self_consistent(b) && a.pagesize != b.pagesize {
        None
    } else if meta_valid(a, runtime_pagesize) && meta_valid(b, runtime_pagesize) {
        if a.tx_id >= b.tx_id {
            Some(a)
        } else {
            Some(b)
        }
    } else if meta_valid(a, runtime_pagesize) {
        Some(a)
    } else if meta_valid(b, runtime_pagesize) {
        Some(b)
    } else {
        None
    }
}

/// Scans the two meta slot records and selects the current one; fails
/// with a corruption error when neither can be trusted.
pub fn read_current(a: &Meta, b: &Meta, runtime_pagesize: u64) -> (r: Result<Meta, Error>)
    ensures
        match r {
            Ok(m) => {
                &&& read_current_spec(a@, b@, runtime_pagesize) is Some
                &&& m@ == read_current_spec(a@, b@, runtime_pagesize).unwrap()
                &&& meta_valid(m@, runtime_pagesize)
            },
            Err(e) => {
                &&& read_current_spec(a@, b@, runtime_pagesize) is None
                &&& e is InvalidDB
            },
        },
{
    if a.self_consistent() && b.self_consistent() && a.pagesize != b.pagesize {
        return Err(Error::InvalidDB(String::from_str("meta slots disagree on page size")));
    }
    let va = a.valid(runtime_pagesize);
    let vb = b.valid(runtime_pagesize);
    if va && vb {
        if a.tx_id >= b.tx_id {
            Ok(a.duplicate())
        } else {
            Ok(b.duplicate())
        }
    } else if va {
        Ok(a.duplicate())
    } else if vb {
        Ok(b.duplicate())
    } else {
        Err(Error::InvalidDB(String::from_str("no valid meta record")))
    }
}

} // verus!
