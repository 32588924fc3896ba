//! The database handle: owns the page region, the current meta record,
//! the canonical freelist and the open-readers registry, and runs the
//! transaction lifecycle. A commit writes every new page to freshly
//! allocated ids (copy-on-write), then publishes a new meta record in
//! the slot not currently in use; until then the previous generation
//! stays intact and durable.
use crate::bucket::BucketData;
use crate::errors::Error;
use crate::freelist::Freelist;
use crate::meta::{
    meta_record_bytes, meta_record_of, meta_valid, meta_wf, parse_meta_record, read_current,
    read_current_spec, BucketMeta, Meta, MetaView, PageId, DATABASE_INTEGRITY_CHECK,
    META_RECORD_LEN, VERSION,
};
use crate::node::{
    check_entries_sorted, parse_branch_block, parse_freelist_block, parse_leaf_block,
    serialize_branch_block, serialize_freelist_block, serialize_leaf_block,
};
use crate::page::{
    parse_header, push_header, PageStore, MIN_PAGE_SIZE, PAGE_HEADER_LEN, TYPE_META,
};
use crate::transaction::Tx;
use vstd::prelude::*;

verus! {

/// Page id of the first meta slot.
pub const META_PAGE_A: u64 = 0;

/// Page id of the second meta slot.
pub const META_PAGE_B: u64 = 1;

/// Page id of the initial freelist page.
pub const INITIAL_FREELIST_PAGE: u64 = 2;

/// Page id of the initial root bucket leaf.
pub const INITIAL_ROOT_PAGE: u64 = 3;

/// The fewest pages a database can be created with: two meta slots, a
/// freelist page and a root leaf page.
pub const MIN_NUM_PAGES: usize = 4;

/// The requested page size is supported: at least the minimum and a
/// power of two.
pub open spec fn pagesize_supported(pagesize: usize) -> bool {
    &&& pagesize >= MIN_PAGE_SIZE
    &&& (pagesize & (pagesize - 1) as usize) == 0
}

/// The open database.
pub struct Db {
    /// The page region, an in-memory image of the file.
    pub store: PageStore,
    /// The current meta record.
    pub meta: Meta,
    /// The canonical freelist; only a committing writer replaces it.
    pub freelist: Freelist,
    /// Transaction ids of the open read-only transactions.
    pub open_ro_txs: Vec<u64>,
    /// Whether a write transaction is active; at most one ever is.
    pub write_active: bool,
}

impl Db {
    /// The handle's invariant: sound page region, sound freelist, and a
    /// well-formed current meta that agrees with the region's page size.
    pub open spec fn wf(&self) -> bool {
        &&& self.store.wf()
        &&& self.store.spec_num_pages() >= MIN_NUM_PAGES
        &&& self.freelist.wf()
        &&& meta_wf(self.meta@)
        &&& self.meta@.pagesize == self.store.pagesize
    }

    /// The database's page size.
    pub fn pagesize(&self) -> (r: u64)
        ensures
            r == self.meta@.pagesize,
    {
        self.meta.pagesize
    }

    /// Creates a fresh database image: both meta slots hold identical
    /// valid records at transaction id zero, the freelist page is empty
    /// and the root bucket is an empty leaf.
    pub fn create(pagesize: usize, num_pages: usize) -> (r: Result<Db, Error>)
        ensures
            match r {
                Ok(db) => {
                    &&& pagesize_supported(pagesize)
                    &&& num_pages >= MIN_NUM_PAGES
                    &&& db.wf()
                    &&& db.store.pagesize == pagesize
                    &&& db.store.spec_num_pages() == num_pages
                    &&& db.meta@.tx_id == 0
                    &&& db.meta@.root == (BucketMeta {
                        root_page: INITIAL_ROOT_PAGE,
                        next_int: 0,
                    })
                    &&& db.meta@.freelist_page == INITIAL_FREELIST_PAGE
                    &&& meta_valid(db.meta@, pagesize as u64)
                    &&& meta_valid(
                        Db::stored_slot_record(db.store, META_PAGE_A as int),
                        pagesize as u64,
                    )
                    &&& meta_valid(
                        Db::stored_slot_record(db.store, META_PAGE_B as int),
                        pagesize as u64,
                    )
                    &&& Db::stored_slot_record(db.store, META_PAGE_A as int).tx_id == 0
                    &&& Db::stored_slot_record(db.store, META_PAGE_B as int).tx_id == 0
                    &&& read_current_spec(
                        Db::stored_slot_record(db.store, META_PAGE_A as int),
                        Db::stored_slot_record(db.store, META_PAGE_B as int),
                        pagesize as u64,
                    ) == Some(db.meta@)
                    &&& db.store.pages@[INITIAL_ROOT_PAGE as int]@.subrange(
                        0,
                        PAGE_HEADER_LEN as int,
                    ) == crate::page::header_bytes(INITIAL_ROOT_PAGE, crate::page::TYPE_LEAF, 0, 0)
                    &&& db.store.pages@[INITIAL_FREELIST_PAGE as int]@.subrange(
                        0,
                        PAGE_HEADER_LEN as int,
                    ) == crate::page::header_bytes(
                        INITIAL_FREELIST_PAGE,
                        crate::page::TYPE_FREELIST,
                        0,
                        0,
                    )
                    &&& stored_empty_leaf(db.store, INITIAL_ROOT_PAGE)
                    &&& stored_freelist_wf(db.store, INITIAL_FREELIST_PAGE)
                    &&& stored_freelist_ids(db.store, INITIAL_FREELIST_PAGE) == Seq::<u64>::empty()
                    &&& !db.write_active
                    &&& db.open_ro_txs@.len() == 0
                },
                Err(e) => e is Unsupported && !(pagesize_supported(pagesize) && num_pages
                    >= MIN_NUM_PAGES),
            },
    {
        if pagesize < MIN_PAGE_SIZE || (pagesize & (pagesize - 1)) != 0 {
            return Err(Error::Unsupported(String::from_str("page size not supported")));
        }
        if num_pages < MIN_NUM_PAGES {
            return Err(Error::Unsupported(String::from_str("too few initial pages")));
        }
        let mut store = PageStore::new(pagesize, num_pages);
        let empty_ids: Vec<u64> = Vec::new();
        let mut flb = match serialize_freelist_block(&empty_ids, pagesize) {
            Ok(b) => b,
            Err(e) => {
                proof {
                    assert(false);
                }
                return Err(e);
            },
        };
        let ghost flb0 = flb@;
        crate::codec::set_u64_be_at(&mut flb, 0, INITIAL_FREELIST_PAGE);
        proof {
            crate::page::lemma_header_id_patch(
                flb0,
                flb@,
                INITIAL_FREELIST_PAGE,
                crate::page::TYPE_FREELIST,
                0,
                0,
            );
        }
        store.write_block(INITIAL_FREELIST_PAGE as usize, &flb, 1);
        let empty_bucket = BucketData::new();
        let mut rlb = match serialize_leaf_block(&empty_bucket.entries, pagesize) {
            Ok(b) => b,
            Err(e) => {
                proof {
                    assert(false);
                }
                return Err(e);
            },
        };
        let ghost rlb0 = rlb@;
        crate::codec::set_u64_be_at(&mut rlb, 0, INITIAL_ROOT_PAGE);
        proof {
            crate::page::lemma_header_id_patch(
                rlb0,
                rlb@,
                INITIAL_ROOT_PAGE,
                crate::page::TYPE_LEAF,
                0,
                0,
            );
        }
        store.write_block(INITIAL_ROOT_PAGE as usize, &rlb, 1);
        let meta0 = finish_meta(
            0,
            pagesize as u64,
            BucketMeta { root_page: INITIAL_ROOT_PAGE, next_int: 0 },
            num_pages as u64,
            INITIAL_FREELIST_PAGE,
            0,
        );
        let meta1 = finish_meta(
            1,
            pagesize as u64,
            BucketMeta { root_page: INITIAL_ROOT_PAGE, next_int: 0 },
            num_pages as u64,
            INITIAL_FREELIST_PAGE,
            0,
        );
        let mp0 = build_meta_page(&meta0, pagesize);
        store.write_block(META_PAGE_A as usize, &mp0, 1);
        let mp1 = build_meta_page(&meta1, pagesize);
        store.write_block(META_PAGE_B as usize, &mp1, 1);
        proof {
            assert(crate::page::block_of(store.pages@, 0, 0) =~= Seq::<u8>::empty());
            assert(crate::page::block_of(store.pages@, 1, 0) =~= Seq::<u8>::empty());
            assert(crate::page::block_of(store.pages@, 2, 0) =~= Seq::<u8>::empty());
            assert(crate::page::block_of(store.pages@, 3, 0) =~= Seq::<u8>::empty());
            assert(store.pages@[0]@ =~= mp0@);
            assert(store.pages@[1]@ =~= mp1@);
            assert(store.pages@[2]@ =~= flb@);
            assert(store.pages@[3]@ =~= rlb@);
            crate::meta::lemma_record_of_round_trip(meta0@);
            crate::meta::lemma_record_of_round_trip(meta1@);
            assert(store.pages@[0]@.subrange(PAGE_HEADER_LEN as int, PAGE_HEADER_LEN
                + META_RECORD_LEN) =~= meta_record_bytes(meta0@));
            assert(store.pages@[1]@.subrange(PAGE_HEADER_LEN as int, PAGE_HEADER_LEN
                + META_RECORD_LEN) =~= meta_record_bytes(meta1@));
            assert(Db::stored_slot_record(store, 0) == meta0@);
            assert(Db::stored_slot_record(store, 1) == meta1@);
            crate::page::lemma_header_round_trip(INITIAL_ROOT_PAGE, crate::page::TYPE_LEAF, 0, 0);
            let h = crate::page::header_bytes(INITIAL_ROOT_PAGE, crate::page::TYPE_LEAF, 0, 0);
            let p3 = store.pages@[INITIAL_ROOT_PAGE as int]@;
            assert(p3.subrange(0, 8) =~= h.subrange(0, 8));
            assert(p3.subrange(9, 17) =~= h.subrange(9, 17));
            assert(p3.subrange(17, 25) =~= h.subrange(17, 25));
            assert(p3[8] == h[8]);
            assert(stored_empty_leaf(store, INITIAL_ROOT_PAGE));
            crate::page::lemma_header_round_trip(
                INITIAL_FREELIST_PAGE,
                crate::page::TYPE_FREELIST,
                0,
                0,
            );
            let hf = crate::page::header_bytes(
                INITIAL_FREELIST_PAGE,
                crate::page::TYPE_FREELIST,
                0,
                0,
            );
            let p2 = store.pages@[INITIAL_FREELIST_PAGE as int]@;
            assert(p2.subrange(0, 8) =~= hf.subrange(0, 8));
            assert(p2.subrange(9, 17) =~= hf.subrange(9, 17));
            assert(p2.subrange(17, 25) =~= hf.subrange(17, 25));
            assert(p2[8] == hf[8]);
            assert(stored_block_shape(store, INITIAL_FREELIST_PAGE));
            assert(crate::page::block_of(store.pages@, INITIAL_FREELIST_PAGE as int, 0)
                =~= Seq::<u8>::empty());
            assert(stored_block(store, INITIAL_FREELIST_PAGE) =~= p2);
            assert(stored_freelist_ids(store, INITIAL_FREELIST_PAGE) =~= Seq::<u64>::empty());
            assert(stored_freelist_wf(store, INITIAL_FREELIST_PAGE));
        }
        Ok(
            Db {
                store,
                meta: meta0,
                freelist: Freelist::new(),
                open_ro_txs: Vec::new(),
                write_active: false,
            },
        )
    }

    /// The meta record stored in the given slot page of the image.
    pub open spec fn stored_slot_record(store: PageStore, slot: int) -> MetaView {
        meta_record_of(
            store.pages@[slot]@.subrange(
                PAGE_HEADER_LEN as int,
                PAGE_HEADER_LEN + META_RECORD_LEN,
            ),
        )
    }

    /// Opens an existing database image: scans both meta slots, selects
    /// the current record exactly as the slot-selection rule says, and
    /// loads the freelist it points at. Fails with a corruption error
    /// when no meta record validates.
    #[verifier::rlimit(50)]
    pub fn open(store: PageStore) -> (r: Result<Db, Error>)
        requires
            store.wf(),
        ensures
            match r {
                Ok(db) => {
                    &&& db.wf()
                    &&& meta_valid(db.meta@, store.pagesize as u64)
                    &&& store.spec_num_pages() >= MIN_NUM_PAGES
                    &&& read_current_spec(
                        Db::stored_slot_record(store, META_PAGE_A as int),
                        Db::stored_slot_record(store, META_PAGE_B as int),
                        store.pagesize as u64,
                    ) == Some(db.meta@)
                    &&& db.freelist.free_pages@ == stored_freelist_ids(
                        store,
                        db.meta@.freelist_page,
                    )
                    &&& db.freelist.pending_pages@.len() == 0
                    &&& db.store.pages@ == store.pages@
                    &&& db.store.pagesize == store.pagesize
                    &&& !db.write_active
                    &&& db.open_ro_txs@.len() == 0
                },
                Err(e) => e is InvalidDB,
            },
            store.spec_num_pages() >= MIN_NUM_PAGES && read_current_spec(
                Db::stored_slot_record(store, META_PAGE_A as int),
                Db::stored_slot_record(store, META_PAGE_B as int),
                store.pagesize as u64,
            ) is None ==> r is Err,
            store.spec_num_pages() >= MIN_NUM_PAGES && (match read_current_spec(
                Db::stored_slot_record(store, META_PAGE_A as int),
                Db::stored_slot_record(store, META_PAGE_B as int),
                store.pagesize as u64,
            ) {
                Some(m) => stored_freelist_wf(store, m.freelist_page),
                None => false,
            }) ==> r is Ok,
    {
        if store.num_pages() < MIN_NUM_PAGES {
            return Err(Error::InvalidDB(String::from_str("image too small")));
        }
        let page_a = store.read_block(META_PAGE_A as usize, 1);
        let page_b = store.read_block(META_PAGE_B as usize, 1);
        proof {
            assert(crate::page::block_of(store.pages@, 0, 0) =~= Seq::<u8>::empty());
            assert(crate::page::block_of(store.pages@, 1, 0) =~= Seq::<u8>::empty());
            assert(page_a@ =~= store.pages@[0]@);
            assert(page_b@ =~= store.pages@[1]@);
        }
        let meta_a = parse_meta_record(&page_a, PAGE_HEADER_LEN);
        let meta_b = parse_meta_record(&page_b, PAGE_HEADER_LEN);
        proof {
            assert(meta_a@ == Db::stored_slot_record(store, META_PAGE_A as int));
            assert(meta_b@ == Db::stored_slot_record(store, META_PAGE_B as int));
        }
        let meta = match read_current(&meta_a, &meta_b, store.pagesize as u64) {
            Ok(m) => m,
            Err(e) => {
                return Err(e);
            },
        };
        let mut db = Db {
            store,
            meta,
            freelist: Freelist::new(),
            open_ro_txs: Vec::new(),
            write_active: false,
        };
        let ids = match load_block(&db.store, db.meta.freelist_page) {
            Ok(b) => match parse_freelist_block(&b) {
                Ok(ids) => ids,
                Err(e) => {
                    return Err(e);
                },
            },
            Err(e) => {
                return Err(e);
            },
        };
        db.freelist.init(&ids);
        Ok(db)
    }

    /// Opens a transaction. A read-only transaction snapshots the current
    /// meta and registers itself with the readers registry; the write
    /// transaction additionally takes a private copy of the canonical
    /// freelist - which stays untouched - with every pending generation
    /// below the reader watermark released, and records the blocks the
    /// snapshot occupies for retirement at commit. At most one write
    /// transaction is granted at a time: while one is active, the request
    /// surfaces the held lock as a would-block storage error.
    pub fn tx(&mut self, writable: bool) -> (r: Result<Tx, Error>)
        requires
            old(self).wf(),
        ensures
            final(self).wf(),
            final(self).meta@ == old(self).meta@,
            final(self).store.pages@ == old(self).store.pages@,
            final(self).freelist.free_pages@ == old(self).freelist.free_pages@,
            final(self).freelist.pending_pages@ == old(self).freelist.pending_pages@,
            writable && old(self).write_active ==> r matches Err(Error::Io(_, _)),
            !writable && (old(self).meta@.root.root_page == 0 || stored_empty_leaf(
                old(self).store,
                old(self).meta@.root.root_page,
            )) ==> r is Ok,
            writable && !old(self).write_active && old(self).meta@.tx_id < u64::MAX && (old(
                self,
            ).meta@.root.root_page == 0 || stored_empty_leaf(
                old(self).store,
                old(self).meta@.root.root_page,
            )) && stored_block_shape(old(self).store, old(self).meta@.freelist_page) ==> r is Ok,
            match r {
                Ok(t) => {
                    &&& t.wf()
                    &&& t.writable == writable
                    &&& t.meta@ == old(self).meta@
                    &&& (old(self).meta@.root.root_page == 0 || stored_empty_leaf(
                        old(self).store,
                        old(self).meta@.root.root_page,
                    ) ==> t.root.entries@.len() == 0)
                    &&& (writable ==> !old(self).write_active && t.tx_id == old(self).meta@.tx_id
                        + 1 && final(self).write_active && final(self).open_ro_txs@ == old(
                        self,
                    ).open_ro_txs@ && (forall|id: crate::meta::PageId|
                        #[trigger] t.freelist.in_free(id) ==> old(self).freelist.in_free(id) || old(
                            self,
                        ).freelist.in_pending(id)) && (exists|w: u64|
                        {
                            &&& #[trigger] crate::freelist::released_from(
                                &t.freelist,
                                &old(self).freelist,
                                w,
                            )
                            &&& (old(self).open_ro_txs@.len() == 0 ==> w == old(self).meta@.tx_id
                                + 1 || w == u64::MAX)
                            &&& (old(self).open_ro_txs@.len() > 0 ==> old(
                                self,
                            ).open_ro_txs@.contains(w) && (forall|i: int|
                                0 <= i < old(self).open_ro_txs@.len() ==> w <= #[trigger] old(
                                    self,
                                ).open_ro_txs@[i]))
                        }))
                    &&& (!writable ==> t.tx_id == old(self).meta@.tx_id && final(self).open_ro_txs@
                        == old(self).open_ro_txs@.push(t.tx_id) && final(self).write_active == old(
                        self,
                    ).write_active)
                },
                Err(e) => {
                    &&& final(self).write_active == old(self).write_active
                    &&& final(self).open_ro_txs@ == old(self).open_ro_txs@
                    &&& match e {
                        Error::Io(kind, _) => writable && old(self).write_active && kind
                            == crate::errors::IoKind::WouldBlock,
                        Error::Unsupported(_) => writable && old(self).meta@.tx_id == u64::MAX,
                        Error::InvalidDB(_) => true,
                        _ => false,
                    }
                },
            },
    {
        if writable {
            if self.write_active {
                return Err(
                    Error::Io(
                        crate::errors::IoKind::WouldBlock,
                        String::from_str("a write transaction is already active"),
                    ),
                );
            }
            let tx_id = match self.meta.tx_id.checked_add(1) {
                Some(t) => t,
                None => {
                    return Err(Error::Unsupported(String::from_str("transaction ids exhausted")));
                },
            };
            let (root, mut blocks) = match load_bucket(&self.store, self.meta.root) {
                Ok(p) => p,
                Err(e) => {
                    return Err(e);
                },
            };
            match block_span(&self.store, self.meta.freelist_page) {
                Ok(p) => blocks.push((self.meta.freelist_page, p.1)),
                Err(e) => {
                    return Err(e);
                },
            }
            let mut freelist = duplicate_freelist(&self.freelist);
            let ghost dup0 = freelist;
            let watermark = self.reader_watermark();
            freelist.release_pending(watermark);
            proof {
                assert forall|id: PageId|
                    freelist.in_free(id) <==> (self.freelist.in_free(id) || exists|i: int|
                        0 <= i < self.freelist.pending_pages@.len() && (
                        #[trigger] self.freelist.pending_pages@[i]).0 < watermark
                            && self.freelist.pending_pages@[i].1@.contains(id)) by {
                    if exists|i: int|
                        0 <= i < dup0.pending_pages@.len() && (
                        #[trigger] dup0.pending_pages@[i]).0 < watermark
                            && dup0.pending_pages@[i].1@.contains(id) {
                        let i = choose|i: int|
                            0 <= i < dup0.pending_pages@.len() && (
                            #[trigger] dup0.pending_pages@[i]).0 < watermark
                                && dup0.pending_pages@[i].1@.contains(id);
                        assert(self.freelist.pending_pages@[i].0 < watermark
                            && self.freelist.pending_pages@[i].1@.contains(id));
                    }
                    if exists|i: int|
                        0 <= i < self.freelist.pending_pages@.len() && (
                        #[trigger] self.freelist.pending_pages@[i]).0 < watermark
                            && self.freelist.pending_pages@[i].1@.contains(id) {
                        let i = choose|i: int|
                            0 <= i < self.freelist.pending_pages@.len() && (
                            #[trigger] self.freelist.pending_pages@[i]).0 < watermark
                                && self.freelist.pending_pages@[i].1@.contains(id);
                        assert(dup0.pending_pages@[i].0 < watermark
                            && dup0.pending_pages@[i].1@.contains(id));
                    }
                }
                assert forall|t2: u64, id: PageId| #[trigger]
                    freelist.in_pending_of(t2, id) <==> (self.freelist.in_pending_of(t2, id) && t2
                        >= watermark) by {
                    assert(freelist.in_pending_of(t2, id) <==> (dup0.in_pending_of(t2, id) && t2
                        >= watermark));
                    assert(dup0.in_pending_of(t2, id) == self.freelist.in_pending_of(t2, id));
                }
                assert(crate::freelist::released_from(&freelist, &self.freelist, watermark));
            }
            proof {
                assert forall|id: PageId| #[trigger]
                    freelist.in_free(id) implies self.freelist.in_free(id)
                    || self.freelist.in_pending(id) by {
                    if !dup0.in_free(id) {
                        let i = choose|i: int|
                            0 <= i < dup0.pending_pages@.len() && (
                            #[trigger] dup0.pending_pages@[i]).0 < watermark
                                && dup0.pending_pages@[i].1@.contains(id);
                        assert(dup0.in_pending_of(dup0.pending_pages@[i].0, id));
                        assert(self.freelist.in_pending_of(dup0.pending_pages@[i].0, id));
                        let j = choose|j: int|
                            0 <= j < self.freelist.pending_pages@.len()
                                && self.freelist.pending_pages@[j].0 == dup0.pending_pages@[i].0
                                && self.freelist.pending_pages@[j].1@.contains(id);
                        assert(self.freelist.in_pending(id));
                    }
                }
            }
            self.write_active = true;
            Ok(
                Tx {
                    writable: true,
                    tx_id,
                    meta: self.meta.duplicate(),
                    root,
                    freelist,
                    old_blocks: blocks,
                    subs: Vec::new(),
                },
            )
        } else {
            let (root, _) = match load_bucket(&self.store, self.meta.root) {
                Ok(p) => p,
                Err(e) => {
                    return Err(e);
                },
            };
            let tx_id = self.meta.tx_id;
            self.open_ro_txs.push(tx_id);
            Ok(
                Tx {
                    writable: false,
                    tx_id,
                    meta: self.meta.duplicate(),
                    root,
                    freelist: Freelist::new(),
                    old_blocks: Vec::new(),
                    subs: Vec::new(),
                },
            )
        }
    }

    /// Materializes the sub-bucket under `key` in the root bucket and
    /// hands back its handle within the transaction; the handle stays
    /// valid for the transaction's lifetime. Fails with `BucketMissing`
    /// when the key is absent and `IncompatibleValue` when it holds a
    /// plain value.
    pub fn open_bucket(&self, tx: &mut Tx, key: &Vec<u8>) -> (r: Result<usize, Error>)
        requires
            self.wf(),
            old(tx).wf(),
        ensures
            final(tx).wf(),
            final(tx).writable == old(tx).writable,
            final(tx).root.entries@ == old(tx).root.entries@,
            final(tx).root.next_int == old(tx).root.next_int,
            match r {
                Ok(h) => {
                    &&& h < final(tx).subs@.len()
                    &&& final(tx).subs@[h as int].0@ == key@
                    &&& old(tx).root.lookup(key@) matches Some(
                        crate::bucket::EntryValueView::Bucket(_),
                    )
                },
                Err(e) => match e {
                    Error::BucketMissing => old(tx).root.lookup(key@) is None,
                    Error::IncompatibleValue => old(tx).root.lookup(key@) matches Some(
                        crate::bucket::EntryValueView::Value(_),
                    ),
                    Error::InvalidDB(_) => old(tx).root.lookup(key@) matches Some(
                        crate::bucket::EntryValueView::Bucket(_),
                    ),
                    _ => false,
                },
            },
            (match old(tx).root.lookup(key@) {
                Some(crate::bucket::EntryValueView::Bucket(bm)) => bm.root_page == 0,
                _ => false,
            }) ==> r is Ok,
    {
        let m = match tx.root.bucket(key) {
            Ok(m) => m,
            Err(e) => {
                return Err(e);
            },
        };
        proof {
            assert(old(tx).root.lookup(key@) matches Some(
                crate::bucket::EntryValueView::Bucket(_),
            ));
        }
        let n = tx.subs.len();
        let mut i: usize = 0;
        while i < n
            invariant
                0 <= i <= n,
                n == tx.subs@.len(),
                tx.wf(),
                tx.writable == old(tx).writable,
                tx.subs@ == old(tx).subs@,
                tx.root.entries@ == old(tx).root.entries@,
                tx.root.next_int == old(tx).root.next_int,
                tx.old_blocks@ == old(tx).old_blocks@,
                old(tx).root.lookup(key@) == Some(crate::bucket::EntryValueView::Bucket(m)),
            decreases n - i,
        {
            if crate::codec::bytes_eq(&tx.subs[i].0, key) {
                return Ok(i);
            }
            i = i + 1;
        }
        let (data, blocks) = match load_bucket(&self.store, m) {
            Ok(p) => p,
            Err(e) => {
                return Err(e);
            },
        };
        if tx.writable {
            let nb = blocks.len();
            let mut b: usize = 0;
            while b < nb
                invariant
                    0 <= b <= nb,
                    nb == blocks@.len(),
                    tx.wf(),
                    tx.writable == old(tx).writable,
                    tx.root.entries@ == old(tx).root.entries@,
                    tx.root.next_int == old(tx).root.next_int,
                    tx.subs@ == old(tx).subs@,
                    old(tx).root.lookup(key@) matches Some(
                        crate::bucket::EntryValueView::Bucket(_),
                    ),
                decreases nb - b,
            {
                tx.old_blocks.push(blocks[b]);
                b = b + 1;
            }
        }
        tx.subs.push((crate::codec::copy_bytes(key), data));
        Ok(tx.subs.len() - 1)
    }

    /// The oldest transaction id an open reader still observes; pending
    /// pages retired strictly before it are safe to reuse. With no open
    /// reader, everything up to the current generation is safe.
    fn reader_watermark(&self) -> (r: u64)
        ensures
            self.open_ro_txs@.len() == 0 ==> r == self.meta@.tx_id + 1 || r == u64::MAX,
            self.open_ro_txs@.len() > 0 ==> self.open_ro_txs@.contains(r) && forall|i: int|
                0 <= i < self.open_ro_txs@.len() ==> r <= #[trigger] self.open_ro_txs@[i],
    {
        let n = self.open_ro_txs.len();
        if n == 0 {
            return match self.meta.tx_id.checked_add(1) {
                Some(w) => w,
                None => u64::MAX,
            };
        }
        let mut min = self.open_ro_txs[0];
        let mut i: usize = 1;
        while i < n
            invariant
                1 <= i <= n,
                n == self.open_ro_txs@.len(),
                self.open_ro_txs@.contains(min),
                forall|j: int| 0 <= j < i ==> min <= #[trigger] self.open_ro_txs@[j],
            decreases n - i,
        {
            if self.open_ro_txs[i] < min {
                min = self.open_ro_txs[i];
                proof {
                    assert(self.open_ro_txs@[i as int] == min);
                }
            }
            i = i + 1;
        }
        min
    }

    /// Commits a write transaction: writes the new bucket tree and
    /// freelist to freshly allocated pages, then publishes a new meta
    /// record in the slot not currently in use. The contract carries the
    /// copy-on-write discipline: every page the commit changes (beyond
    /// the slot it publishes) was in the writer's private free partition,
    /// the previously current slot's page is untouched, every pending
    /// generation survives into the published freelist, and on failure
    /// the current meta and canonical freelist stand as they were. A
    /// read-only transaction cannot commit.
    #[verifier::rlimit(100)]
    pub fn commit(&mut self, tx: Tx) -> (r: Result<(), Error>)
        requires
            old(self).wf(),
            tx.wf(),
        ensures
            final(self).wf(),
            final(self).store.pagesize == old(self).store.pagesize,
            final(self).store.spec_num_pages() >= old(self).store.spec_num_pages(),
            final(self).open_ro_txs@ == old(self).open_ro_txs@,
            r is Ok ==> forall|j: int|
                2 <= j < old(self).store.spec_num_pages() && (
                #[trigger] final(self).store.pages@[j])@ != old(self).store.pages@[j]@
                    ==> tx.freelist.in_free(j as u64),
            r is Ok ==> forall|t: u64, id: PageId|
                #[trigger] tx.freelist.in_pending_of(t, id) ==> final(self).freelist.in_pending_of(
                    t,
                    id,
                ),
            r is Ok ==> forall|i: int, o: int|
                0 <= i < tx.old_blocks@.len() && 0 <= o < tx.old_blocks@[i].1
                    && tx.old_blocks@[i].0 + o <= u64::MAX ==> tracked_or_retired(
                    final(self).freelist,
                    tx.freelist,
                    tx.tx_id,
                    #[trigger] block_page(tx.old_blocks@, i, o),
                ),
            r is Err ==> final(self).meta@ == old(self).meta@ && final(self).freelist.free_pages@
                == old(self).freelist.free_pages@ && final(self).freelist.pending_pages@ == old(
                self,
            ).freelist.pending_pages@,
            r is Err && !tx.writable ==> final(self).write_active == old(self).write_active
                && final(self).store.pages@ == old(self).store.pages@,
            r is Err && tx.writable ==> !final(self).write_active,
            match r {
                Ok(()) => {
                    &&& tx.writable
                    &&& old(self).meta@.meta_page <= 1 ==> (#[trigger] final(self).store.pages@[old(self).meta@.meta_page as int])@ == old(self).store.pages@[old(self).meta@.meta_page as int]@
                    &&& final(self).meta@.tx_id == tx.tx_id
                    &&& final(self).meta@.root.next_int == tx.root.next_int
                    &&& final(self).meta@.root.root_page >= 2
                    &&& final(self).meta@.freelist_page >= 2
                    &&& final(self).meta@.meta_page <= 1
                    &&& Db::stored_slot_record(
                        final(self).store,
                        final(self).meta@.meta_page as int,
                    ) == final(self).meta@
                    &&& stored_freelist_wf(final(self).store, final(self).meta@.freelist_page)
                    &&& stored_freelist_ids(final(self).store, final(self).meta@.freelist_page)
                        == final(self).freelist.free_pages@
                    &&& final(self).meta@.meta_page != old(self).meta@.meta_page
                    &&& meta_valid(final(self).meta@, final(self).store.pagesize as u64)
                    &&& !final(self).write_active
                },
                Err(e) => match e {
                    Error::ReadOnlyTx => !tx.writable,
                    Error::Unsupported(_) => tx.writable,
                    Error::BucketMissing => tx.writable && tx.subs@.len() > 0,
                    Error::IncompatibleValue => tx.writable && tx.subs@.len() > 0,
                    _ => false,
                },
            },
    {
        if !tx.writable {
            return Err(Error::ReadOnlyTx);
        }
        let tx_id = tx.tx_id;
        let mut fl = tx.freelist;
        let mut i: usize = 0;
        let nb = tx.old_blocks.len();
        while i < nb
            invariant
                0 <= i <= nb,
                nb == tx.old_blocks@.len(),
                fl.wf(),
                fl.free_pages@ == tx.freelist.free_pages@,
                tx_id == tx.tx_id,
                forall|t: u64, id2: PageId|
                    #[trigger] tx.freelist.in_pending_of(t, id2) ==> fl.in_pending_of(t, id2),
                forall|id2: PageId|
                    #[trigger] fl.in_pending(id2) ==> tx.freelist.in_pending(id2)
                        || fl.in_pending_of(tx.tx_id, id2),
                (exists|j: int|
                    0 <= j < fl.pending_pages@.len() && (#[trigger] fl.pending_pages@[j]).0
                        > tx.tx_id) ==> (exists|j2: int|
                    0 <= j2 < tx.freelist.pending_pages@.len() && (
                    #[trigger] tx.freelist.pending_pages@[j2]).0 > tx.tx_id),
                forall|i2: int, o2: int|
                    0 <= i2 < i && 0 <= o2 < tx.old_blocks@[i2].1 && tx.old_blocks@[i2].0 + o2
                        <= u64::MAX ==> tracked_or_retired(
                        fl,
                        tx.freelist,
                        tx.tx_id,
                        #[trigger] block_page(tx.old_blocks@, i2, o2),
                    ),
            decreases nb - i,
        {
            let head = tx.old_blocks[i].0;
            let span = tx.old_blocks[i].1;
            let mut o: usize = 0;
            while o < span
                invariant
                    0 <= o <= span,
                    0 <= i < nb,
                    nb == tx.old_blocks@.len(),
                    head == tx.old_blocks@[i as int].0,
                    span == tx.old_blocks@[i as int].1,
                    fl.wf(),
                    fl.free_pages@ == tx.freelist.free_pages@,
                    tx_id == tx.tx_id,
                    forall|t: u64, id2: PageId|
                        #[trigger] tx.freelist.in_pending_of(t, id2) ==> fl.in_pending_of(t, id2),
                    forall|id2: PageId|
                        #[trigger] fl.in_pending(id2) ==> tx.freelist.in_pending(id2)
                            || fl.in_pending_of(tx.tx_id, id2),
                    (exists|j: int|
                        0 <= j < fl.pending_pages@.len() && (#[trigger] fl.pending_pages@[j]).0
                            > tx.tx_id) ==> (exists|j2: int|
                        0 <= j2 < tx.freelist.pending_pages@.len() && (
                        #[trigger] tx.freelist.pending_pages@[j2]).0 > tx.tx_id),
                    forall|i2: int, o2: int|
                        0 <= i2 < i && 0 <= o2 < tx.old_blocks@[i2].1 && tx.old_blocks@[i2].0 + o2
                            <= u64::MAX ==> tracked_or_retired(
                            fl,
                            tx.freelist,
                            tx.tx_id,
                            #[trigger] block_page(tx.old_blocks@, i2, o2),
                        ),
                    forall|o2: int|
                        0 <= o2 < o && tx.old_blocks@[i as int].0 + o2 <= u64::MAX
                            ==> tracked_or_retired(
                            fl,
                            tx.freelist,
                            tx.tx_id,
                            #[trigger] block_page(tx.old_blocks@, i as int, o2),
                        ),
                decreases span - o,
            {
                let ghost fl_pre = fl;
                match head.checked_add(o as u64) {
                    Some(id) => {
                        let got = fl.retire(tx_id, id);
                        proof {
                            if !got {
                                if fl_pre.in_pending(id) && !tx.freelist.in_pending(id) {
                                    assert(fl_pre.in_pending_of(tx.tx_id, id));
                                }
                            } else {
                                assert forall|id2: PageId| #[trigger]
                                    fl.in_pending(id2) implies tx.freelist.in_pending(id2)
                                    || fl.in_pending_of(tx.tx_id, id2) by {
                                    if id2 != id {
                                        assert(fl_pre.in_pending(id2));
                                        if !tx.freelist.in_pending(id2) {
                                            assert(fl_pre.in_pending_of(tx.tx_id, id2));
                                            assert(fl.in_pending_of(tx.tx_id, id2));
                                        }
                                    } else {
                                        assert(fl.in_pending_of(tx.tx_id, id2));
                                    }
                                }
                            }
                            assert(tracked_or_retired(fl, tx.freelist, tx.tx_id, id));
                            assert(block_page(tx.old_blocks@, i as int, o as int) == id);
                        }
                    },
                    None => {},
                }
                proof {
                    assert forall|o2: int|
                        0 <= o2 < o + 1 && tx.old_blocks@[i as int].0 + o2 <= u64::MAX
                            implies tracked_or_retired(
                        fl,
                        tx.freelist,
                        tx.tx_id,
                        #[trigger] block_page(tx.old_blocks@, i as int, o2),
                    ) by {
                        if o2 < o {
                            assert(tracked_or_retired(
                                fl_pre,
                                tx.freelist,
                                tx.tx_id,
                                block_page(tx.old_blocks@, i as int, o2),
                            ));
                        }
                    }
                }
                o = o + 1;
            }
            i = i + 1;
        }
        let ghost fl_retired = fl;
        proof {
            assert(forall|id: PageId| #[trigger] fl.in_free(id) ==> tx.freelist.in_free(id));
        }
        let mut root = tx.root;
        let mut subs = tx.subs;
        while subs.len() > 0
            invariant
                subs@.len() <= tx.subs@.len(),
                fl.pending_pages@ == fl_retired.pending_pages@,
                fl.wf(),
                forall|i2: int, o2: int|
                    0 <= i2 < tx.old_blocks@.len() && 0 <= o2 < tx.old_blocks@[i2].1
                        && tx.old_blocks@[i2].0 + o2 <= u64::MAX ==> tracked_or_retired(
                        fl_retired,
                        tx.freelist,
                        tx.tx_id,
                        #[trigger] block_page(tx.old_blocks@, i2, o2),
                    ),
                self.wf(),
                fl.wf(),
                root.wf(),
                root.next_int == tx.root.next_int,
                self.store.pagesize == old(self).store.pagesize,
                self.store.spec_num_pages() >= old(self).store.spec_num_pages(),
                tx.writable,
                self.meta@ == old(self).meta@,
                self.open_ro_txs@ == old(self).open_ro_txs@,
                self.freelist.free_pages@ == old(self).freelist.free_pages@,
                self.freelist.pending_pages@ == old(self).freelist.pending_pages@,
                self.write_active == old(self).write_active,
                forall|j: int|
                    0 <= j < old(self).store.spec_num_pages() && (
                    #[trigger] self.store.pages@[j])@ != old(self).store.pages@[j]@
                        ==> tx.freelist.in_free(j as u64),
                forall|j: int|
                    0 <= j < 2 ==> (#[trigger] self.store.pages@[j])@ == old(
                        self,
                    ).store.pages@[j]@,
                forall|id: PageId| #[trigger] fl.in_free(id) ==> tx.freelist.in_free(id),
                forall|t: u64, id2: PageId|
                    #[trigger] tx.freelist.in_pending_of(t, id2) ==> fl.in_pending_of(t, id2),
                forall|i: int| 0 <= i < subs@.len() ==> (#[trigger] subs@[i]).1.wf(),
            decreases subs@.len(),
        {
            let pair = subs.remove(subs.len() - 1);
            let ghost pre_store = self.store;
            let ghost pre_fl = fl;
            let sub_meta = match store_bucket(&mut self.store, &mut fl, &pair.1) {
                Ok(m) => m,
                Err(e) => {
                    self.write_active = false;
                    return Err(e);
                },
            };
            proof {
                lemma_cow_compose(
                    old(self).store.pages@,
                    pre_store.pages@,
                    self.store.pages@,
                    tx.freelist,
                    pre_fl,
                    fl,
                );
            }
            match root.set_bucket_meta(&pair.0, sub_meta) {
                Ok(()) => {},
                Err(e) => {
                    self.write_active = false;
                    return Err(e);
                },
            }
        }
        let ghost pre_store = self.store;
        let ghost pre_fl = fl;
        let root_meta = match store_bucket(&mut self.store, &mut fl, &root) {
            Ok(m) => m,
            Err(e) => {
                self.write_active = false;
                return Err(e);
            },
        };
        proof {
            lemma_cow_compose(
                old(self).store.pages@,
                pre_store.pages@,
                self.store.pages@,
                tx.freelist,
                pre_fl,
                fl,
            );
        }
        let free_ids = fl.free_ids();
        let mut flb = match serialize_freelist_block(&free_ids, self.store.pagesize) {
            Ok(b) => b,
            Err(e) => {
                self.write_active = false;
                return Err(e);
            },
        };
        let ghost pre_store2 = self.store;
        let ghost flb0 = flb@;
        // The freelist block always goes on freshly grown pages: a page
        // named free by the block it is stored in must never be the
        // block's own page, or a crashed commit could corrupt the
        // fallback generation.
        let freelist_page = match append_block(&mut self.store, &mut flb) {
            Ok(id) => id,
            Err(e) => {
                self.write_active = false;
                return Err(e);
            },
        };
        proof {
            let psz = self.store.pagesize as int;
            let k = flb0.len() as int / psz;
            let fpi = freelist_page as int;
            assert forall|j: int|
                0 <= j < old(self).store.spec_num_pages() && (
                #[trigger] self.store.pages@[j])@ != old(self).store.pages@[j]@
                    implies tx.freelist.in_free(j as u64) by {
                assert(self.store.pages@[j]@ == pre_store2.pages@[j]@);
            }
            assert(forall|j: int|
                0 <= j < 2 ==> (#[trigger] self.store.pages@[j])@ == pre_store2.pages@[j]@);
            // The stored block denotes exactly the published free ids.
            let b = crate::page::block_of(self.store.pages@, fpi, k);
            assert(b == flb@);
            vstd::arithmetic::div_mod::lemma_fundamental_div_mod(flb0.len() as int, psz);
            assert(flb0.len() == k * psz) by (nonlinear_arith)
                requires
                    flb0.len() as int == psz * (flb0.len() as int / psz),
                    flb0.len() as int % psz == 0,
                    k == flb0.len() as int / psz,
            ;
            crate::page::lemma_block_of_first(self.store.pages@, fpi, k, psz);
            assert(self.store.pages@[fpi]@ == b.subrange(0, psz));
            assert(flb@.subrange(17, 25) =~= flb0.subrange(17, 25));
            assert(flb@.subrange(9, 17) =~= flb0.subrange(9, 17));
            assert(self.store.pages@[fpi]@.subrange(17, 25) =~= flb@.subrange(17, 25));
            assert((crate::codec::u64_from_be(flb0.subrange(17, 25)) + 1) == k)
                by (nonlinear_arith)
                requires
                    (crate::codec::u64_from_be(flb0.subrange(17, 25)) + 1) * psz == flb0.len(),
                    flb0.len() == k * psz,
                    psz >= 1,
            ;
            assert(stored_block(self.store, freelist_page) == b);
            assert forall|j: int|
                0 <= j < free_ids@.len() implies #[trigger] crate::node::freelist_ids_of(
                b,
                free_ids@.len() as int,
            )[j] == crate::node::freelist_ids_of(flb0, free_ids@.len() as int)[j] by {
                assert(b.subrange(PAGE_HEADER_LEN + 8 * j, PAGE_HEADER_LEN + 8 * j + 8)
                    =~= flb0.subrange(PAGE_HEADER_LEN + 8 * j, PAGE_HEADER_LEN + 8 * j + 8));
            }
            assert(crate::node::freelist_ids_of(b, free_ids@.len() as int) =~= free_ids@);
            assert(stored_freelist_ids(self.store, freelist_page) == free_ids@);
            assert(self.store.pages@[fpi]@.subrange(0, 8) =~= flb@.subrange(0, 8));
            crate::codec::lemma_u64_be_round_trip(freelist_page);
            assert(b.subrange(9, 17) =~= self.store.pages@[fpi]@.subrange(9, 17));
            assert(crate::codec::u64_from_be(b.subrange(9, 17)) == free_ids@.len());
            assert(stored_block_shape(self.store, freelist_page));
            assert(b[8] == flb0[8]);
            assert(stored_freelist_wf(self.store, freelist_page));
        }
        let new_slot: u32 = if self.meta.meta_page == 0 {
            1
        } else {
            0
        };
        let new_meta = finish_meta(
            new_slot,
            self.meta.pagesize,
            root_meta,
            self.store.num_pages() as u64,
            freelist_page,
            tx_id,
        );
        let mp = build_meta_page(&new_meta, self.store.pagesize);
        let ghost pre_meta_store = self.store;
        self.store.write_block(new_slot as usize, &mp, 1);
        proof {
            assert forall|j: int|
                2 <= j < old(self).store.spec_num_pages() && (#[trigger] self.store.pages@[j])@
                    != old(self).store.pages@[j]@ implies tx.freelist.in_free(j as u64) by {
                assert(self.store.pages@[j]@ == pre_meta_store.pages@[j]@);
            }
            if old(self).meta@.meta_page <= 1 {
                let slot = old(self).meta@.meta_page as int;
                assert(slot != new_slot as int);
                assert(self.store.pages@[slot]@ == pre_meta_store.pages@[slot]@);
                assert(pre_meta_store.pages@[slot]@ == old(self).store.pages@[slot]@);
            }
            // The published slot holds exactly the record it advertises.
            assert(crate::page::block_of(self.store.pages@, new_slot as int, 0)
                =~= Seq::<u8>::empty());
            assert(self.store.pages@[new_slot as int]@ =~= mp@);
            crate::meta::lemma_record_of_round_trip(new_meta@);
            assert(self.store.pages@[new_slot as int]@.subrange(PAGE_HEADER_LEN as int,
                PAGE_HEADER_LEN + META_RECORD_LEN) =~= meta_record_bytes(new_meta@));
            assert(Db::stored_slot_record(self.store, new_slot as int) == new_meta@);
            // The freelist block lies above the meta slots: untouched.
            let fpi2 = freelist_page as int;
            let span2 = crate::codec::u64_from_be(
                pre_meta_store.pages@[fpi2]@.subrange(17, 25),
            ) + 1;
            assert(self.store.pages@[fpi2]@ == pre_meta_store.pages@[fpi2]@);
            assert(forall|j: int|
                fpi2 <= j < fpi2 + span2 ==> (#[trigger] self.store.pages@[j])@
                    == pre_meta_store.pages@[j]@);
            crate::page::lemma_block_of_frame(
                self.store.pages@,
                pre_meta_store.pages@,
                fpi2,
                span2,
            );
            assert(stored_block(self.store, freelist_page) == stored_block(
                pre_meta_store,
                freelist_page,
            ));
            assert(stored_freelist_ids(self.store, freelist_page) == free_ids@);
            assert(stored_freelist_wf(self.store, freelist_page));
        }
        self.meta = new_meta;
        self.freelist = fl;
        self.write_active = false;
        Ok(())
    }

    /// Abandons a transaction: a reader leaves the registry, a writer
    /// discards its private freelist and allocations; the meta record,
    /// the canonical freelist and every committed page stay as they were.
    pub fn rollback(&mut self, tx: Tx)
        requires
            old(self).wf(),
        ensures
            final(self).wf(),
            final(self).meta@ == old(self).meta@,
            final(self).store.pages@ == old(self).store.pages@,
            final(self).freelist == old(self).freelist,
            tx.writable ==> !final(self).write_active && final(self).open_ro_txs@ == old(self).open_ro_txs@,
            !tx.writable ==> final(self).write_active == old(self).write_active,
            !tx.writable && old(self).open_ro_txs@.contains(tx.tx_id) ==> exists|i: int|
                0 <= i < old(self).open_ro_txs@.len() && old(self).open_ro_txs@[i] == tx.tx_id && (
                #[trigger] final(self).open_ro_txs@) == old(self).open_ro_txs@.remove(i),
            !tx.writable && !old(self).open_ro_txs@.contains(tx.tx_id) ==> final(self).open_ro_txs@ == old(self).open_ro_txs@,
    {
        if tx.writable {
            self.write_active = false;
        } else {
            let n = self.open_ro_txs.len();
            let mut i: usize = 0;
            let mut found = n;
            while i < n
                invariant
                    0 <= i <= n,
                    n == self.open_ro_txs@.len(),
                    self.open_ro_txs@ == old(self).open_ro_txs@,
                    self.write_active == old(self).write_active,
                    found == n || (found < n && self.open_ro_txs@[found as int] == tx.tx_id),
                    found == n ==> forall|j: int|
                        0 <= j < i ==> (#[trigger] self.open_ro_txs@[j]) != tx.tx_id,
                decreases n - i,
            {
                if self.open_ro_txs[i] == tx.tx_id {
                    found = i;
                    i = n;
                } else {
                    i = i + 1;
                }
            }
            if found < self.open_ro_txs.len() {
                let _ = self.open_ro_txs.remove(found);
            } else {
                proof {
                    if self.open_ro_txs@.contains(tx.tx_id) {
                        let j = choose|j: int|
                            0 <= j < self.open_ro_txs@.len() && self.open_ro_txs@[j] == tx.tx_id;
                    }
                }
            }
        }
    }
}

/// Builds a meta record for the given fields and seals it with its own
/// digest, so the result always validates against its page size.
fn finish_meta(
    meta_page: u32,
    pagesize: u64,
    root: BucketMeta,
    num_pages: u64,
    freelist_page: u64,
    tx_id: u64,
) -> (r: Meta)
    ensures
        meta_wf(r@),
        meta_valid(r@, pagesize),
        r@.meta_page == meta_page,
        r@.pagesize == pagesize,
        r@.root == root,
        r@.num_pages == num_pages,
        r@.freelist_page == freelist_page,
        r@.tx_id == tx_id,
{
    let mut m = Meta {
        meta_page,
        integrity_code: DATABASE_INTEGRITY_CHECK,
        version: VERSION,
        pagesize,
        root,
        num_pages,
        freelist_page,
        tx_id,
        hash: Vec::new(),
    };
    let h = m.hash_self();
    m.hash = h;
    m
}

/// Serializes a meta record as one full meta page: header, record, zero
/// padding.
fn build_meta_page(m: &Meta, pagesize: usize) -> (r: Vec<u8>)
    requires
        meta_wf(m@),
        pagesize >= MIN_PAGE_SIZE,
    ensures
        r@.len() == pagesize,
        r@.subrange(PAGE_HEADER_LEN as int, PAGE_HEADER_LEN + META_RECORD_LEN)
            == meta_record_bytes(m@),
{
    let mut out: Vec<u8> = Vec::new();
    push_header(&mut out, m.meta_page as u64, TYPE_META, 0, 0);
    let rec = m.record_bytes();
    let mut i: usize = 0;
    while i < META_RECORD_LEN
        invariant
            0 <= i <= META_RECORD_LEN,
            rec@.len() == META_RECORD_LEN,
            rec@ == meta_record_bytes(m@),
            out@.len() == PAGE_HEADER_LEN + i,
            out@.subrange(0, PAGE_HEADER_LEN as int) == header_prefix(m@.meta_page as u64),
            out@.subrange(PAGE_HEADER_LEN as int, out@.len() as int) == rec@.subrange(0, i as int),
        decreases META_RECORD_LEN - i,
    {
        out.push(rec[i]);
        proof {
            assert(out@.subrange(0, PAGE_HEADER_LEN as int) =~= header_prefix(m@.meta_page as u64));
            assert(out@.subrange(PAGE_HEADER_LEN as int, out@.len() as int) =~= rec@.subrange(
                0,
                i + 1,
            ));
        }
        i = i + 1;
    }
    let base = out.len();
    let mut j = base;
    while j < pagesize
        invariant
            base <= j <= pagesize || j == base,
            base == PAGE_HEADER_LEN + META_RECORD_LEN,
            base <= pagesize,
            out@.len() == j,
            out@.subrange(PAGE_HEADER_LEN as int, base as int) == rec@.subrange(
                0,
                META_RECORD_LEN as int,
            ),
            rec@ == meta_record_bytes(m@),
            rec@.len() == META_RECORD_LEN,
        decreases pagesize - j,
    {
        out.push(0u8);
        proof {
            assert(out@.subrange(PAGE_HEADER_LEN as int, base as int) =~= rec@.subrange(
                0,
                META_RECORD_LEN as int,
            ));
        }
        j = j + 1;
    }
    proof {
        assert(rec@.subrange(0, META_RECORD_LEN as int) =~= rec@);
    }
    out
}

/// The header bytes a meta page starts with.
pub open spec fn header_prefix(id: u64) -> Seq<u8> {
    crate::page::header_bytes(id, TYPE_META, 0, 0)
}

/// Reads the page span of the logical block headed at `id`: the head
/// page index and the page count (head plus overflow pages), checked
/// against the region's bounds. The head page's stored id field must
/// equal its own offset - the page-identity invariant of the format -
/// or the block is corrupt.
fn block_span(store: &PageStore, id: PageId) -> (r: Result<(usize, usize), Error>)
    requires
        store.wf(),
    ensures
        match r {
            Ok(p) => {
                &&& 1 <= p.1 && p.0 == id && p.0 + p.1 <= store.spec_num_pages()
                &&& crate::codec::u64_from_be(store.pages@[id as int]@.subrange(0, 8)) == id
                &&& p.1 == crate::codec::u64_from_be(
                    store.pages@[id as int]@.subrange(17, 25),
                ) + 1
            },
            Err(e) => e is InvalidDB,
        },
        id < store.spec_num_pages() && crate::codec::u64_from_be(
            store.pages@[id as int]@.subrange(0, 8),
        ) == id && crate::codec::u64_from_be(store.pages@[id as int]@.subrange(17, 25))
            < store.spec_num_pages() - id ==> r is Ok,
{
    let np = store.num_pages();
    if id >= np as u64 {
        return Err(Error::InvalidDB(String::from_str("block head out of range")));
    }
    let head_idx = id as usize;
    let head = store.read_block(head_idx, 1);
    proof {
        assert(crate::page::block_of(store.pages@, id as int, 0) =~= Seq::<u8>::empty());
        assert(head@ =~= store.pages@[id as int]@);
        assert(head@.len() >= PAGE_HEADER_LEN);
    }
    let header = parse_header(&head);
    if header.id != id {
        return Err(Error::InvalidDB(String::from_str("page id does not match its offset")));
    }
    let span64 = match header.overflow.checked_add(1) {
        Some(s) => s,
        None => {
            return Err(Error::InvalidDB(String::from_str("block span overflows")));
        },
    };
    if span64 > (np as u64) - id {
        return Err(Error::InvalidDB(String::from_str("block extends past the region")));
    }
    Ok((head_idx, span64 as usize))
}

/// Reads the whole logical block headed at `id`.
fn load_block(store: &PageStore, id: PageId) -> (r: Result<Vec<u8>, Error>)
    requires
        store.wf(),
    ensures
        match r {
            Ok(b) => b@.len() >= PAGE_HEADER_LEN && b@ == stored_block(*store, id),
            Err(e) => e is InvalidDB,
        },
        stored_block_shape(*store, id) ==> r is Ok,
{
    let (head_idx, span) = match block_span(store, id) {
        Ok(s) => s,
        Err(e) => {
            return Err(e);
        },
    };
    let b = store.read_block(head_idx, span);
    proof {
        assert(b@.len() >= store.pagesize) by (nonlinear_arith)
            requires
                b@.len() == span * store.pagesize,
                span >= 1,
                store.pagesize >= 0,
        ;
        assert(b@ == stored_block(*store, id));
    }
    Ok(b)
}

/// Materializes the bucket rooted at `bm`: an empty bucket for the null
/// root, otherwise the leaf block or the branch block and all its leaf
/// children. Returns the bucket and the blocks it occupies. Every
/// structural violation is a corruption error; a loaded bucket is always
/// correctly ordered.
pub fn load_bucket(store: &PageStore, bm: BucketMeta) -> (r: Result<
    (BucketData, Vec<(PageId, usize)>),
    Error,
>)
    requires
        store.wf(),
    ensures
        match r {
            Ok(p) => p.0.wf() && p.0.next_int == bm.next_int,
            Err(e) => e is InvalidDB,
        },
        bm.root_page == 0 ==> (r matches Ok(p) && p.0.entries@.len() == 0),
        stored_empty_leaf(*store, bm.root_page) ==> (r matches Ok(p) && p.0.entries@.len() == 0),
{
    if bm.root_page == 0 {
        let mut b = BucketData::new();
        b.next_int = bm.next_int;
        return Ok((b, Vec::new()));
    }
    let (root_idx, span) = match block_span(store, bm.root_page) {
        Ok(s) => s,
        Err(e) => {
            return Err(e);
        },
    };
    let block = store.read_block(root_idx, span);
    proof {
        if stored_empty_leaf(*store, bm.root_page) {
            assert(span == 1);
            assert(crate::page::block_of(store.pages@, root_idx as int, 0) =~= Seq::<u8>::empty());
            assert(block@ =~= store.pages@[root_idx as int]@);
            assert(block@[8] == crate::page::TYPE_LEAF);
            assert(crate::codec::u64_from_be(block@.subrange(9, 17)) == 0);
        }
    }
    proof {
        assert(block@.len() >= store.pagesize) by (nonlinear_arith)
            requires
                block@.len() == span * store.pagesize,
                span >= 1,
                store.pagesize >= 0,
        ;
    }
    let mut blocks: Vec<(PageId, usize)> = Vec::new();
    blocks.push((bm.root_page, span));
    let header = parse_header(&block);
    if header.page_type == crate::page::TYPE_LEAF {
        let entries = match parse_leaf_block(&block) {
            Ok(es) => es,
            Err(e) => {
                return Err(e);
            },
        };
        return Ok((BucketData { entries, next_int: bm.next_int }, blocks));
    }
    if header.page_type != crate::page::TYPE_BRANCH {
        return Err(Error::InvalidDB(String::from_str("unexpected page type at bucket root")));
    }
    let children = match parse_branch_block(&block) {
        Ok(cs) => cs,
        Err(e) => {
            return Err(e);
        },
    };
    let mut entries: Vec<crate::bucket::LeafEntry> = Vec::new();
    let nc = children.len();
    let mut c: usize = 0;
    while c < nc
        invariant
            0 <= c <= nc,
            nc == children@.len(),
            store.wf(),
            bm.root_page != 0,
            !stored_empty_leaf(*store, bm.root_page),
        decreases nc - c,
    {
        let child_id = children[c].1;
        let (cidx, cspan) = match block_span(store, child_id) {
            Ok(s) => s,
            Err(e) => {
                return Err(e);
            },
        };
        let cblock = store.read_block(cidx, cspan);
        proof {
            assert(cblock@.len() >= store.pagesize) by (nonlinear_arith)
                requires
                    cblock@.len() == cspan * store.pagesize,
                    cspan >= 1,
                    store.pagesize >= 0,
            ;
        }
        blocks.push((child_id, cspan));
        let cheader = parse_header(&cblock);
        if cheader.page_type != crate::page::TYPE_LEAF {
            return Err(Error::InvalidDB(String::from_str("branch child is not a leaf")));
        }
        let mut ces = match parse_leaf_block(&cblock) {
            Ok(es) => es,
            Err(e) => {
                return Err(e);
            },
        };
        while ces.len() > 0
            decreases ces@.len(),
        {
            let e = ces.remove(0);
            entries.push(e);
        }
        c = c + 1;
    }
    if !check_entries_sorted(&entries) {
        return Err(Error::InvalidDB(String::from_str("bucket entries out of order")));
    }
    Ok((BucketData { entries, next_int: bm.next_int }, blocks))
}

/// The `o`-th page of the `i`-th recorded block.
pub open spec fn block_page(blocks: Seq<(PageId, usize)>, i: int, o: int) -> PageId {
    (blocks[i].0 + o) as u64
}

/// After a commit, a snapshot page is pending under the committing
/// transaction's id, unless the writer's freelist already tracked it (or
/// carried a pending generation newer than the transaction, which a
/// sound handle never does).
pub open spec fn tracked_or_retired(
    published: Freelist,
    base: Freelist,
    tx_id: u64,
    id: PageId,
) -> bool {
    ||| published.in_pending_of(tx_id, id)
    ||| base.in_free(id)
    ||| base.in_pending(id)
    ||| exists|j: int|
        0 <= j < base.pending_pages@.len() && (#[trigger] base.pending_pages@[j]).0 > tx_id
}

/// The block headed at `id` is shaped well enough to read: the head is
/// in range, carries its own id, and the overflow pages fit the region.
pub open spec fn stored_block_shape(store: PageStore, id: PageId) -> bool {
    &&& id < store.spec_num_pages()
    &&& crate::codec::u64_from_be(store.pages@[id as int]@.subrange(0, 8)) == id
    &&& crate::codec::u64_from_be(store.pages@[id as int]@.subrange(17, 25))
        < store.spec_num_pages() - id
}

/// The whole logical block headed at `id`, head plus overflow pages.
pub open spec fn stored_block(store: PageStore, id: PageId) -> Seq<u8> {
    crate::page::block_of(
        store.pages@,
        id as int,
        crate::codec::u64_from_be(store.pages@[id as int]@.subrange(17, 25)) + 1,
    )
}

/// The free page ids the freelist block stored at `fp` denotes.
pub open spec fn stored_freelist_ids(store: PageStore, fp: PageId) -> Seq<u64> {
    crate::node::freelist_ids_of(
        stored_block(store, fp),
        crate::codec::u64_from_be(stored_block(store, fp).subrange(9, 17)) as int,
    )
}

/// The freelist block stored at `fp` is well formed: readable shape,
/// freelist type tag, id array within bounds and strictly ascending.
pub open spec fn stored_freelist_wf(store: PageStore, fp: PageId) -> bool {
    &&& stored_block_shape(store, fp)
    &&& stored_block(store, fp)[8] == crate::page::TYPE_FREELIST
    &&& PAGE_HEADER_LEN + 8 * crate::codec::u64_from_be(stored_block(store, fp).subrange(9, 17))
        <= stored_block(store, fp).len()
    &&& crate::freelist::sorted_strict(stored_freelist_ids(store, fp))
}

/// The page is a stored leaf with its own id, no overflow and no
/// entries: the shape of a freshly created empty bucket root.
pub open spec fn stored_empty_leaf(store: PageStore, id: PageId) -> bool {
    &&& 1 <= id < store.spec_num_pages()
    &&& crate::codec::u64_from_be(store.pages@[id as int]@.subrange(0, 8)) == id
    &&& store.pages@[id as int]@[8] == crate::page::TYPE_LEAF
    &&& crate::codec::u64_from_be(store.pages@[id as int]@.subrange(9, 17)) == 0
    &&& crate::codec::u64_from_be(store.pages@[id as int]@.subrange(17, 25)) == 0
}

/// Appends `block` as fresh pages at the region's end, stamping the head
/// page's id; the freelist is not consulted, so the block can never land
/// on a page any snapshot or free-list entry still tracks.
fn append_block(store: &mut PageStore, block: &mut Vec<u8>) -> (r: Result<PageId, Error>)
    requires
        old(store).wf(),
        old(store).spec_num_pages() >= 2,
        old(block)@.len() >= old(store).pagesize,
        old(block)@.len() as int % old(store).pagesize as int == 0,
    ensures
        final(store).wf(),
        final(store).pagesize == old(store).pagesize,
        final(store).spec_num_pages() >= old(store).spec_num_pages(),
        forall|j: int|
            0 <= j < old(store).spec_num_pages() ==> (#[trigger] final(store).pages@[j])@ == old(
                store,
            ).pages@[j]@,
        final(block)@.len() == old(block)@.len(),
        final(block)@.subrange(0, 8) == crate::codec::u64_be(old(store).spec_num_pages() as u64),
        forall|i: int| 8 <= i < old(block)@.len() ==> final(block)@[i] == old(block)@[i],
        old(store).spec_num_pages() + old(block)@.len() as int / old(store).pagesize as int
            <= usize::MAX ==> r is Ok,
        match r {
            Ok(start) => {
                &&& start == old(store).spec_num_pages()
                &&& start >= 2
                &&& start as int + old(block)@.len() as int / old(store).pagesize as int <= final(store).spec_num_pages()
                &&& crate::page::block_of(
                    final(store).pages@,
                    start as int,
                    old(block)@.len() as int / old(store).pagesize as int,
                ) == final(block)@
            },
            Err(e) => e is Unsupported,
        },
{
    let psz = store.pagesize;
    let k = block.len() / psz;
    proof {
        vstd::arithmetic::div_mod::lemma_fundamental_div_mod(block@.len() as int, psz as int);
        let q = block@.len() as int / psz as int;
        assert(block@.len() as int == psz * q);
        assert(block@.len() == k * psz) by (nonlinear_arith)
            requires
                block@.len() as int == psz as int * q,
                k as int == q,
        ;
        assert(k >= 1) by (nonlinear_arith)
            requires
                block@.len() >= psz,
                block@.len() == k * psz,
                psz >= 1,
        ;
    }
    let start = store.num_pages();
    crate::codec::set_u64_be_at(block, 0, start as u64);
    if start > usize::MAX - k {
        return Err(Error::Unsupported(String::from_str("region cannot grow further")));
    }
    store.grow(k);
    store.write_block(start, block, k);
    Ok(start as u64)
}

/// Writes `block` to freshly allocated pages: out of the freelist's
/// lowest sufficient run, or by growing the region at its end. The
/// copy-on-write discipline shows in the contract: every pre-existing
/// page this call changes was in the free partition when it started, so
/// a page a snapshot can still observe - allocated, or pending behind
/// the reader watermark - is never overwritten.
fn write_new_block(store: &mut PageStore, fl: &mut Freelist, block: &mut Vec<u8>) -> (r: Result<
    PageId,
    Error,
>)
    requires
        old(store).wf(),
        old(store).spec_num_pages() >= 2,
        old(fl).wf(),
        old(block)@.len() >= old(store).pagesize,
        old(block)@.len() as int % old(store).pagesize as int == 0,
    ensures
        final(store).wf(),
        final(fl).wf(),
        final(store).pagesize == old(store).pagesize,
        final(store).spec_num_pages() >= old(store).spec_num_pages(),
        forall|j: int|
            0 <= j < old(store).spec_num_pages() && (#[trigger] final(store).pages@[j])@ != old(
                store,
            ).pages@[j]@ ==> old(fl).in_free(j as u64),
        forall|j: int|
            0 <= j < 2 ==> (#[trigger] final(store).pages@[j])@ == old(store).pages@[j]@,
        forall|id: PageId| #[trigger] final(fl).in_free(id) ==> old(fl).in_free(id),
        final(fl).pending_pages@ == old(fl).pending_pages@,
        old(store).spec_num_pages() + old(block)@.len() as int / old(store).pagesize as int
            <= usize::MAX ==> r is Ok,
        r is Ok ==> r.unwrap() >= 2,
        r is Err ==> r.unwrap_err() is Unsupported,
{
    let psz = store.pagesize;
    let k = block.len() / psz;
    proof {
        vstd::arithmetic::div_mod::lemma_fundamental_div_mod(block@.len() as int, psz as int);
        let q = block@.len() as int / psz as int;
        assert(block@.len() as int == psz * q);
        assert(block@.len() == k * psz) by (nonlinear_arith)
            requires
                block@.len() as int == psz as int * q,
                k as int == q,
        ;
        assert(k >= 1) by (nonlinear_arith)
            requires
                block@.len() >= psz,
                block@.len() == k * psz,
                psz >= 1,
        ;
    }
    match fl.allocate(k) {
        Some(start) => {
            let np = store.num_pages();
            if start >= 2 && start <= (u64::MAX - k as u64) && start + (k as u64) <= np as u64 {
                crate::codec::set_u64_be_at(block, 0, start);
                store.write_block(start as usize, block, k);
                proof {
                    assert forall|j: int|
                        0 <= j < old(store).spec_num_pages() && (#[trigger] store.pages@[j])@
                            != old(store).pages@[j]@ implies old(fl).in_free(j as u64) by {
                        assert(start as usize <= j < start as usize + k);
                        let kk = (j - start) as u64;
                        assert(old(fl).in_free((start + kk) as u64));
                        assert((start + kk) as u64 == j as u64);
                    }
                }
                return Ok(start);
            }
            // A run beyond the region means the persisted freelist was
            // corrupt; fall through and place the block at the end.
        },
        None => {},
    }
    let start = store.num_pages();
    if start > usize::MAX - k {
        return Err(Error::Unsupported(String::from_str("region cannot grow further")));
    }
    crate::codec::set_u64_be_at(block, 0, start as u64);
    store.grow(k);
    store.write_block(start, block, k);
    Ok(start as u64)
}

/// Writes one bucket's tree copy-on-write: its entries chunked into leaf
/// blocks and, when more than one leaf is needed, a branch block that
/// points at them. Returns the bucket's new descriptor.
pub fn store_bucket(store: &mut PageStore, fl: &mut Freelist, bucket: &BucketData) -> (r: Result<
    BucketMeta,
    Error,
>)
    requires
        old(store).wf(),
        old(store).spec_num_pages() >= 2,
        old(fl).wf(),
        bucket.wf(),
    ensures
        final(store).wf(),
        final(fl).wf(),
        final(store).pagesize == old(store).pagesize,
        final(store).spec_num_pages() >= old(store).spec_num_pages(),
        forall|j: int|
            0 <= j < old(store).spec_num_pages() && (#[trigger] final(store).pages@[j])@ != old(
                store,
            ).pages@[j]@ ==> old(fl).in_free(j as u64),
        forall|j: int|
            0 <= j < 2 ==> (#[trigger] final(store).pages@[j])@ == old(store).pages@[j]@,
        forall|id: PageId| #[trigger] final(fl).in_free(id) ==> old(fl).in_free(id),
        final(fl).pending_pages@ == old(fl).pending_pages@,
        bucket.entries@.len() == 0 && old(store).spec_num_pages() + 1 <= usize::MAX ==> r is Ok,
        r is Ok ==> r.unwrap().next_int == bucket.next_int && r.unwrap().root_page >= 2,
        r is Err ==> r.unwrap_err() is Unsupported,
{
    let psz = store.pagesize;
    let n = bucket.entries.len();
    // Chunk the sorted entries greedily by payload size: a leaf closes
    // once it holds at least one entry and reaches a page's worth.
    let mut leaves: Vec<(Vec<u8>, PageId)> = Vec::new();
    let mut chunk: Vec<crate::bucket::LeafEntry> = Vec::new();
    let mut chunk_bytes: usize = 0;
    let mut i: usize = 0;
    while i < n
        invariant
            n == 0 ==> chunk@.len() == 0 && leaves@.len() == 0 && store.spec_num_pages() == old(
                store,
            ).spec_num_pages(),
            forall|j: int| 0 <= j < leaves@.len() ==> (#[trigger] leaves@[j]).1 >= 2,
            0 <= i <= n,
            n == bucket.entries@.len(),
            store.wf(),
            fl.wf(),
            store.pagesize == psz,
            psz == old(store).pagesize,
            store.spec_num_pages() >= old(store).spec_num_pages(),
            store.spec_num_pages() >= 2,
            forall|j: int|
                0 <= j < old(store).spec_num_pages() && (#[trigger] store.pages@[j])@ != old(
                    store,
                ).pages@[j]@ ==> old(fl).in_free(j as u64),
            forall|j: int|
                0 <= j < 2 ==> (#[trigger] store.pages@[j])@ == old(store).pages@[j]@,
            forall|id: PageId| #[trigger] fl.in_free(id) ==> old(fl).in_free(id),
            fl.pending_pages@ == old(fl).pending_pages@,
            bucket.wf(),
        decreases n - i,
    {
        let entry = &bucket.entries[i];
        let key = crate::codec::copy_bytes(&entry.key);
        let value = match &entry.value {
            crate::bucket::EntryValue::Value(v) => crate::bucket::EntryValue::Value(
                crate::codec::copy_bytes(v),
            ),
            crate::bucket::EntryValue::Bucket(m) => crate::bucket::EntryValue::Bucket(*m),
        };
        let entry_size = match entry_byte_size(entry) {
            Ok(s) => s,
            Err(e) => {
                return Err(e);
            },
        };
        chunk.push(crate::bucket::LeafEntry { key, value });
        chunk_bytes = match chunk_bytes.checked_add(entry_size) {
            Some(s) => s,
            None => {
                return Err(Error::Unsupported(String::from_str("bucket too large")));
            },
        };
        let at_end = i + 1 == n;
        if chunk_bytes >= psz - PAGE_HEADER_LEN || at_end {
            let mut blockb = match serialize_leaf_block(&chunk, psz) {
                Ok(b) => b,
                Err(e) => {
                    return Err(e);
                },
            };
            let ghost pre_store = *store;
            let ghost pre_fl = *fl;
            let head = match write_new_block(store, fl, &mut blockb) {
                Ok(h) => h,
                Err(e) => {
                    return Err(e);
                },
            };
            proof {
                lemma_cow_compose(old(store).pages@, pre_store.pages@, store.pages@, *old(fl), pre_fl, *fl);
            }
            let lead = crate::codec::copy_bytes(&chunk[0].key);
            leaves.push((lead, head));
            chunk = Vec::new();
            chunk_bytes = 0;
        }
        i = i + 1;
    }
    if leaves.len() == 0 {
        // An empty bucket still gets one (empty) leaf block.
        let mut blockb = match serialize_leaf_block(&chunk, psz) {
            Ok(b) => b,
            Err(e) => {
                return Err(e);
            },
        };
        proof {
            if n == 0 {
                assert(blockb@.len() as int / psz as int == 1) by (nonlinear_arith)
                    requires
                        blockb@.len() == psz,
                        psz >= 1,
                ;
            }
        }
        let ghost pre_store = *store;
        let ghost pre_fl = *fl;
        let head = match write_new_block(store, fl, &mut blockb) {
            Ok(h) => h,
            Err(e) => {
                return Err(e);
            },
        };
        proof {
            lemma_cow_compose(old(store).pages@, pre_store.pages@, store.pages@, *old(fl), pre_fl, *fl);
        }
        return Ok(BucketMeta { root_page: head, next_int: bucket.next_int });
    }
    if leaves.len() == 1 {
        let head = leaves[0].1;
        return Ok(BucketMeta { root_page: head, next_int: bucket.next_int });
    }
    let mut branchb = match serialize_branch_block(&leaves, psz) {
        Ok(b) => b,
        Err(e) => {
            return Err(e);
        },
    };
    let ghost pre_store = *store;
    let ghost pre_fl = *fl;
    let head = match write_new_block(store, fl, &mut branchb) {
        Ok(h) => h,
        Err(e) => {
            return Err(e);
        },
    };
    proof {
        lemma_cow_compose(old(store).pages@, pre_store.pages@, store.pages@, *old(fl), pre_fl, *fl);
    }
    Ok(BucketMeta { root_page: head, next_int: bucket.next_int })
}

/// Composing two copy-on-write steps: if every page changed in the
/// first step was free at its start, and every page changed in the
/// second was free at the first step's end (whose free partition only
/// shrank), then every page changed overall was free at the very start.
proof fn lemma_cow_compose(
    base: Seq<Vec<u8>>,
    mid_pages: Seq<Vec<u8>>,
    cur_pages: Seq<Vec<u8>>,
    base_fl: Freelist,
    mid_fl: Freelist,
    cur_fl: Freelist,
)
    requires
        mid_pages.len() >= base.len(),
        cur_pages.len() >= mid_pages.len(),
        forall|j: int|
            0 <= j < base.len() && (#[trigger] mid_pages[j])@ != base[j]@ ==> base_fl.in_free(
                j as u64,
            ),
        forall|j: int|
            0 <= j < mid_pages.len() && (#[trigger] cur_pages[j])@ != mid_pages[j]@
                ==> mid_fl.in_free(j as u64),
        forall|id: PageId| #[trigger] mid_fl.in_free(id) ==> base_fl.in_free(id),
        forall|id: PageId| #[trigger] cur_fl.in_free(id) ==> mid_fl.in_free(id),
    ensures
        forall|j: int|
            0 <= j < base.len() && (#[trigger] cur_pages[j])@ != base[j]@ ==> base_fl.in_free(
                j as u64,
            ),
        forall|id: PageId| #[trigger] cur_fl.in_free(id) ==> base_fl.in_free(id),
{
    assert forall|j: int|
        0 <= j < base.len() && (#[trigger] cur_pages[j])@ != base[j]@ implies base_fl.in_free(
        j as u64,
    ) by {
        if mid_pages[j]@ == base[j]@ {
            assert(cur_pages[j]@ != mid_pages[j]@);
            assert(mid_fl.in_free(j as u64));
        }
    }
}

/// The serialized size of one leaf entry.
fn entry_byte_size(entry: &crate::bucket::LeafEntry) -> (r: Result<usize, Error>)
    ensures
        r is Err ==> r.unwrap_err() is Unsupported,
{
    let vlen = match &entry.value {
        crate::bucket::EntryValue::Value(v) => v.len(),
        crate::bucket::EntryValue::Bucket(_) => 16,
    };
    match entry.key.len().checked_add(vlen) {
        Some(s) => match s.checked_add(17) {
            Some(t) => Ok(t),
            None => Err(Error::Unsupported(String::from_str("entry too large"))),
        },
        None => Err(Error::Unsupported(String::from_str("entry too large"))),
    }
}

/// Copies a freelist for a writer's private use.
fn duplicate_freelist(fl: &Freelist) -> (r: Freelist)
    requires
        fl.wf(),
    ensures
        r.wf(),
        r.free_pages@ == fl.free_pages@,
        r.pending_pages@.len() == fl.pending_pages@.len(),
        forall|j: int|
            0 <= j < fl.pending_pages@.len() ==> (#[trigger] r.pending_pages@[j]).0
                == fl.pending_pages@[j].0 && r.pending_pages@[j].1@ == fl.pending_pages@[j].1@,
        forall|tx: u64, id: PageId|
            #[trigger] r.in_pending_of(tx, id) == fl.in_pending_of(tx, id),
{
    let mut r = Freelist::new();
    r.init(&fl.free_ids());
    let np = fl.pending_pages.len();
    let mut i: usize = 0;
    while i < np
        invariant
            0 <= i <= np,
            np == fl.pending_pages@.len(),
            fl.wf(),
            r.free_pages@ == fl.free_pages@,
            r.pending_pages@.len() == i,
            forall|j: int|
                0 <= j < i ==> (#[trigger] r.pending_pages@[j]).0 == fl.pending_pages@[j].0
                    && r.pending_pages@[j].1@ == fl.pending_pages@[j].1@,
        decreases np - i,
    {
        let key = fl.pending_pages[i].0;
        let mut ids: Vec<PageId> = Vec::new();
        let nk = fl.pending_pages[i].1.len();
        let mut w: usize = 0;
        while w < nk
            invariant
                0 <= w <= nk,
                0 <= i < np,
                np == fl.pending_pages@.len(),
                nk == fl.pending_pages@[i as int].1@.len(),
                ids@ == fl.pending_pages@[i as int].1@.subrange(0, w as int),
            decreases nk - w,
        {
            ids.push(fl.pending_pages[i].1[w]);
            proof {
                assert(ids@ =~= fl.pending_pages@[i as int].1@.subrange(0, w + 1));
            }
            w = w + 1;
        }
        proof {
            assert(ids@ =~= fl.pending_pages@[i as int].1@);
        }
        r.pending_pages.push((key, ids));
        i = i + 1;
    }
    proof {
        assert forall|id: PageId| r.in_pending(id) == fl.in_pending(id) by {
            if r.in_pending(id) {
                let j = choose|j: int|
                    0 <= j < r.pending_pages@.len() && r.pending_pages@[j].1@.contains(id);
                assert(fl.pending_pages@[j].1@.contains(id));
            }
            if fl.in_pending(id) {
                let j = choose|j: int|
                    0 <= j < fl.pending_pages@.len() && fl.pending_pages@[j].1@.contains(id);
                assert(r.pending_pages@[j].1@.contains(id));
            }
        }
        assert forall|tx: u64, id: PageId|
            #[trigger] r.in_pending_of(tx, id) == fl.in_pending_of(tx, id) by {
            if r.in_pending_of(tx, id) {
                let j = choose|j: int|
                    0 <= j < r.pending_pages@.len() && r.pending_pages@[j].0 == tx
                        && r.pending_pages@[j].1@.contains(id);
                assert(fl.pending_pages@[j].0 == tx && fl.pending_pages@[j].1@.contains(id));
            }
            if fl.in_pending_of(tx, id) {
                let j = choose|j: int|
                    0 <= j < fl.pending_pages@.len() && fl.pending_pages@[j].0 == tx
                        && fl.pending_pages@[j].1@.contains(id);
                assert(r.pending_pages@[j].0 == tx && r.pending_pages@[j].1@.contains(id));
            }
        }
    }
    r
}

} // verus!
