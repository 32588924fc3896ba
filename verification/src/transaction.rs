//! The transaction: a bounded, isolated view of the database. A
//! read-only transaction works on its own materialized snapshot of the
//! root bucket; a read-write transaction additionally owns a private
//! freelist copy, and nothing it does is visible until the database
//! commits it by publishing a new meta record.
use crate::bucket::{BucketData, EntryValueView};
use crate::errors::Error;
use crate::freelist::Freelist;
use crate::meta::{BucketMeta, Meta, PageId};
use vstd::prelude::*;

verus! {

/// A transaction over one meta generation. Mutating operations demand
/// `writable`; on a read-only transaction they fail with `ReadOnlyTx`
/// and change nothing.
pub struct Tx {
    /// Whether this transaction may mutate.
    pub writable: bool,
    /// The generation this transaction works at: the snapshot's
    /// transaction id for readers, one above it for the writer.
    pub tx_id: u64,
    /// The meta record in effect when the transaction began.
    pub meta: Meta,
    /// The materialized root bucket of the snapshot.
    pub root: BucketData,
    /// The writer's private copy of the freelist.
    pub freelist: Freelist,
    /// The logical blocks (head page, page count) the snapshot tree and
    /// freelist occupy; a commit retires them.
    pub old_blocks: Vec<(PageId, usize)>,
    /// Sub-buckets materialized by this transaction, each under its key
    /// in the root bucket; a commit writes them back and re-points the
    /// root's descriptors.
    pub subs: Vec<(Vec<u8>, BucketData)>,
}

impl Tx {
    /// A transaction is sound when its bucket is ordered and its private
    /// freelist keeps the disjointness invariant.
    pub open spec fn wf(&self) -> bool {
        &&& self.root.wf()
        &&& self.freelist.wf()
        &&& forall|i: int| 0 <= i < self.subs@.len() ==> (#[trigger] self.subs@[i]).1.wf()
    }

    /// Reads the plain value under `key` in the snapshot.
    pub fn get(&self, key: &Vec<u8>) -> (r: Result<Vec<u8>, Error>)
        requires
            self.wf(),
        ensures
            match r {
                Ok(v) => self.root.lookup(key@) == Some(EntryValueView::Value(v@)),
                Err(e) => match e {
                    Error::KeyValueMissing => self.root.lookup(key@) is None,
                    Error::IncompatibleValue => self.root.lookup(key@) matches Some(
                        EntryValueView::Bucket(_),
                    ),
                    _ => false,
                },
            },
    {
        self.root.get(key)
    }

    /// Inserts or overwrites the value under `key`. On a read-only
    /// transaction this fails with `ReadOnlyTx` and changes nothing.
    pub fn put(&mut self, key: Vec<u8>, value: Vec<u8>) -> (r: Result<(), Error>)
        requires
            old(self).wf(),
        ensures
            final(self).wf(),
            final(self).writable == old(self).writable,
            final(self).tx_id == old(self).tx_id,
            final(self).root.next_int == old(self).root.next_int,
            !old(self).writable ==> r matches Err(Error::ReadOnlyTx),
            match r {
                Ok(()) => {
                    &&& old(self).writable
                    &&& !(old(self).root.lookup(key@) matches Some(EntryValueView::Bucket(_)))
                    &&& final(self).root.lookup(key@) == Some(EntryValueView::Value(value@))
                    &&& forall|k2: Seq<u8>|
                        k2 != key@ ==> #[trigger] final(self).root.lookup(k2) == old(
                            self,
                        ).root.lookup(k2)
                },
                Err(e) => {
                    &&& final(self).root.entries@ == old(self).root.entries@
                    &&& match e {
                        Error::ReadOnlyTx => !old(self).writable,
                        Error::IncompatibleValue => old(self).root.lookup(key@) matches Some(
                            EntryValueView::Bucket(_),
                        ),
                        _ => false,
                    }
                },
            },
    {
        if !self.writable {
            return Err(Error::ReadOnlyTx);
        }
        self.root.put(key, value)
    }

    /// Removes the value under `key`. On a read-only transaction this
    /// fails with `ReadOnlyTx` and changes nothing.
    pub fn delete(&mut self, key: &Vec<u8>) -> (r: Result<(), Error>)
        requires
            old(self).wf(),
        ensures
            final(self).wf(),
            final(self).writable == old(self).writable,
            final(self).tx_id == old(self).tx_id,
            final(self).root.next_int == old(self).root.next_int,
            !old(self).writable ==> r matches Err(Error::ReadOnlyTx),
            match r {
                Ok(()) => {
                    &&& old(self).writable
                    &&& old(self).root.lookup(key@) matches Some(EntryValueView::Value(_))
                    &&& final(self).root.lookup(key@) is None
                    &&& forall|k2: Seq<u8>|
                        k2 != key@ ==> #[trigger] final(self).root.lookup(k2) == old(
                            self,
                        ).root.lookup(k2)
                },
                Err(e) => {
                    &&& final(self).root.entries@ == old(self).root.entries@
                    &&& match e {
                        Error::ReadOnlyTx => !old(self).writable,
                        Error::KeyValueMissing => old(self).root.lookup(key@) is None,
                        Error::IncompatibleValue => old(self).root.lookup(key@) matches Some(
                            EntryValueView::Bucket(_),
                        ),
                        _ => false,
                    }
                },
            },
    {
        if !self.writable {
            return Err(Error::ReadOnlyTx);
        }
        self.root.delete(key)
    }

    /// Creates an empty sub-bucket under `key`; `BucketExists` when the
    /// key is already taken, `ReadOnlyTx` on a read-only transaction.
    pub fn create_bucket(&mut self, key: Vec<u8>) -> (r: Result<(), Error>)
        requires
            old(self).wf(),
        ensures
            final(self).wf(),
            final(self).writable == old(self).writable,
            final(self).tx_id == old(self).tx_id,
            final(self).root.next_int == old(self).root.next_int,
            !old(self).writable ==> r matches Err(Error::ReadOnlyTx),
            match r {
                Ok(()) => {
                    &&& old(self).writable
                    &&& old(self).root.lookup(key@) is None
                    &&& final(self).root.lookup(key@) == Some(
                        EntryValueView::Bucket(BucketMeta { root_page: 0, next_int: 0 }),
                    )
                    &&& forall|k2: Seq<u8>|
                        k2 != key@ ==> #[trigger] final(self).root.lookup(k2) == old(
                            self,
                        ).root.lookup(k2)
                },
                Err(e) => {
                    &&& final(self).root.entries@ == old(self).root.entries@
                    &&& match e {
                        Error::ReadOnlyTx => !old(self).writable,
                        Error::BucketExists => old(self).root.lookup(key@) is Some,
                        _ => false,
                    }
                },
            },
    {
        if !self.writable {
            return Err(Error::ReadOnlyTx);
        }
        self.root.create_bucket(key)
    }

    /// Opens the sub-bucket descriptor under `key`.
    pub fn bucket(&self, key: &Vec<u8>) -> (r: Result<BucketMeta, Error>)
        requires
            self.wf(),
        ensures
            match r {
                Ok(m) => self.root.lookup(key@) == Some(EntryValueView::Bucket(m)),
                Err(e) => match e {
                    Error::BucketMissing => self.root.lookup(key@) is None,
                    Error::IncompatibleValue => self.root.lookup(key@) matches Some(
                        EntryValueView::Value(_),
                    ),
                    _ => false,
                },
            },
    {
        self.root.bucket(key)
    }

    /// Reads the plain value under `key` in the materialized sub-bucket
    /// with the given handle.
    pub fn sub_get(&self, handle: usize, key: &Vec<u8>) -> (r: Result<Vec<u8>, Error>)
        requires
            self.wf(),
        ensures
            match r {
                Ok(v) => handle < self.subs@.len() && self.subs@[handle as int].1.lookup(key@)
                    == Some(EntryValueView::Value(v@)),
                Err(e) => match e {
                    Error::KeyValueMissing => handle < self.subs@.len() && self.subs@[handle as int].1.lookup(key@) is None,
                    Error::IncompatibleValue => handle < self.subs@.len() && self.subs@[handle as int].1.lookup(key@) matches Some(EntryValueView::Bucket(_)),
                    Error::BucketMissing => handle >= self.subs@.len(),
                    _ => false,
                },
            },
    {
        if handle >= self.subs.len() {
            return Err(Error::BucketMissing);
        }
        self.subs[handle].1.get(key)
    }

    /// Inserts or overwrites the value under `key` in the sub-bucket with
    /// the given handle; no other bucket and no other key changes.
    pub fn sub_put(&mut self, handle: usize, key: Vec<u8>, value: Vec<u8>) -> (r: Result<
        (),
        Error,
    >)
        requires
            old(self).wf(),
        ensures
            final(self).wf(),
            final(self).writable == old(self).writable,
            final(self).root.entries@ == old(self).root.entries@,
            final(self).root.next_int == old(self).root.next_int,
            final(self).subs@.len() == old(self).subs@.len(),
            !old(self).writable ==> r matches Err(Error::ReadOnlyTx),
            r is Err ==> forall|j: int|
                0 <= j < old(self).subs@.len() ==> (#[trigger] final(self).subs@[j]).0@ == old(
                    self,
                ).subs@[j].0@ && final(self).subs@[j].1.entries@ == old(self).subs@[j].1.entries@
                    && final(self).subs@[j].1.next_int == old(self).subs@[j].1.next_int,
            match r {
                Ok(()) => {
                    &&& old(self).writable
                    &&& handle < old(self).subs@.len()
                    &&& !(old(self).subs@[handle as int].1.lookup(key@) matches Some(
                        EntryValueView::Bucket(_),
                    ))
                    &&& final(self).subs@[handle as int].1.lookup(key@) == Some(
                        EntryValueView::Value(value@),
                    )
                    &&& forall|k2: Seq<u8>|
                        k2 != key@ ==> #[trigger] final(self).subs@[handle as int].1.lookup(k2)
                            == old(self).subs@[handle as int].1.lookup(k2)
                    &&& forall|j: int|
                        0 <= j < old(self).subs@.len() && j != handle ==> final(self).subs@[j]
                            == old(self).subs@[j]
                },
                Err(e) => match e {
                    Error::ReadOnlyTx => !old(self).writable,
                    Error::BucketMissing => handle >= old(self).subs@.len(),
                    Error::IncompatibleValue => handle < old(self).subs@.len() && old(
                        self,
                    ).subs@[handle as int].1.lookup(key@) matches Some(EntryValueView::Bucket(_)),
                    _ => false,
                },
            },
    {
        if !self.writable {
            return Err(Error::ReadOnlyTx);
        }
        let n = self.subs.len();
        if handle >= n {
            return Err(Error::BucketMissing);
        }
        let ghost olds = self.subs@;
        let mut pair = self.subs.remove(handle);
        let r = pair.1.put(key, value);
        self.subs.insert(handle, pair);
        proof {
            assert(forall|j: int|
                0 <= j < olds.len() && j != handle ==> #[trigger] self.subs@[j] == olds[j]);
        }
        match r {
            Ok(()) => Ok(()),
            Err(e) => Err(e),
        }
    }

    /// Removes the value under `key` in the sub-bucket with the given
    /// handle.
    pub fn sub_delete(&mut self, handle: usize, key: &Vec<u8>) -> (r: Result<(), Error>)
        requires
            old(self).wf(),
        ensures
            final(self).wf(),
            final(self).writable == old(self).writable,
            final(self).root.entries@ == old(self).root.entries@,
            final(self).root.next_int == old(self).root.next_int,
            final(self).subs@.len() == old(self).subs@.len(),
            !old(self).writable ==> r matches Err(Error::ReadOnlyTx),
            r is Err ==> forall|j: int|
                0 <= j < old(self).subs@.len() ==> (#[trigger] final(self).subs@[j]).0@ == old(
                    self,
                ).subs@[j].0@ && final(self).subs@[j].1.entries@ == old(self).subs@[j].1.entries@
                    && final(self).subs@[j].1.next_int == old(self).subs@[j].1.next_int,
            match r {
                Ok(()) => {
                    &&& old(self).writable
                    &&& handle < old(self).subs@.len()
                    &&& old(self).subs@[handle as int].1.lookup(key@) matches Some(
                        EntryValueView::Value(_),
                    )
                    &&& final(self).subs@[handle as int].1.lookup(key@) is None
                    &&& forall|k2: Seq<u8>|
                        k2 != key@ ==> #[trigger] final(self).subs@[handle as int].1.lookup(k2)
                            == old(self).subs@[handle as int].1.lookup(k2)
                    &&& forall|j: int|
                        0 <= j < old(self).subs@.len() && j != handle ==> final(self).subs@[j]
                            == old(self).subs@[j]
                },
                Err(e) => match e {
                    Error::ReadOnlyTx => !old(self).writable,
                    Error::BucketMissing => handle >= old(self).subs@.len(),
                    Error::KeyValueMissing => handle < old(self).subs@.len() && old(
                        self,
                    ).subs@[handle as int].1.lookup(key@) is None,
                    Error::IncompatibleValue => handle < old(self).subs@.len() && old(
                        self,
                    ).subs@[handle as int].1.lookup(key@) matches Some(EntryValueView::Bucket(_)),
                    _ => false,
                },
            },
    {
        if !self.writable {
            return Err(Error::ReadOnlyTx);
        }
        let n = self.subs.len();
        if handle >= n {
            return Err(Error::BucketMissing);
        }
        let ghost olds = self.subs@;
        let mut pair = self.subs.remove(handle);
        let r = pair.1.delete(key);
        self.subs.insert(handle, pair);
        proof {
            assert(forall|j: int|
                0 <= j < olds.len() && j != handle ==> #[trigger] self.subs@[j] == olds[j]);
        }
        match r {
            Ok(()) => Ok(()),
            Err(e) => Err(e),
        }
    }

    /// Returns the root bucket's auto-increment counter and advances it.
    pub fn next_id(&mut self) -> (r: Result<u64, Error>)
        requires
            old(self).wf(),
        ensures
            final(self).wf(),
            final(self).writable == old(self).writable,
            final(self).root.entries@ == old(self).root.entries@,
            !old(self).writable ==> r matches Err(Error::ReadOnlyTx),
            match r {
                Ok(v) => {
                    &&& old(self).writable
                    &&& v == old(self).root.next_int
                    &&& final(self).root.next_int == old(self).root.next_int + 1
                },
                Err(e) => {
                    &&& final(self).root.next_int == old(self).root.next_int
                    &&& match e {
                        Error::ReadOnlyTx => !old(self).writable,
                        Error::Unsupported(_) => old(self).root.next_int == u64::MAX,
                        _ => false,
                    }
                },
            },
    {
        if !self.writable {
            return Err(Error::ReadOnlyTx);
        }
        if self.root.next_int == u64::MAX {
            return Err(Error::Unsupported(String::from_str("sequence exhausted")));
        }
        Ok(self.root.next_id())
    }
}

} // verus!
