//! The bucket: an ordered key/value namespace with nested sub-buckets.
//! A transaction materializes a bucket as a strictly key-sorted entry
//! list; every operation is specified against a lookup over that list.
use crate::codec::{
    copy_bytes, key_compare, lemma_lex_trans, lemma_lex_trichotomy, lex_lt, KeyOrder,
};
use crate::errors::Error;
use crate::meta::BucketMeta;
use vstd::prelude::*;

verus! {

/// What a key maps to: a plain value or a nested bucket descriptor.
#[derive(Debug)]
pub enum EntryValue {
    Value(Vec<u8>),
    Bucket(BucketMeta),
}

/// Mathematical model of an entry's value.
pub enum EntryValueView {
    Value(Seq<u8>),
    Bucket(BucketMeta),
}

impl View for EntryValue {
    type V = EntryValueView;

    open spec fn view(&self) -> EntryValueView {
        match self {
            EntryValue::Value(v) => EntryValueView::Value(v@),
            EntryValue::Bucket(m) => EntryValueView::Bucket(*m),
        }
    }
}

/// One key together with its value or sub-bucket descriptor.
#[derive(Debug)]
pub struct LeafEntry {
    pub key: Vec<u8>,
    pub value: EntryValue,
}

/// The materialized contents of one bucket: its entries in strictly
/// ascending key order, and its auto-increment counter.
#[derive(Debug)]
pub struct BucketData {
    pub entries: Vec<LeafEntry>,
    pub next_int: u64,
}

/// Keys are strictly ascending in byte-lexicographic order; this is the
/// B-tree ordering invariant at the entry level.
pub open spec fn entries_sorted(s: Seq<LeafEntry>) -> bool {
    forall|i: int, j: int| 0 <= i < j < s.len() ==> lex_lt(s[i].key@, s[j].key@)
}

/// What `key` maps to in the entry list, scanning left to right.
pub open spec fn lookup_entries(s: Seq<LeafEntry>, key: Seq<u8>) -> Option<EntryValueView>
    decreases s.len(),
{
    if s.len() == 0 {
        None
    } else if s[0].key@ == key {
        Some(s[0].value@)
    } else {
        lookup_entries(s.drop_first(), key)
    }
}

/// In a sorted list, the lookup of the key at index `i` yields exactly
/// the value at index `i`.
pub proof fn lemma_lookup_found(s: Seq<LeafEntry>, i: int)
    requires
        entries_sorted(s),
        0 <= i < s.len(),
    ensures
        lookup_entries(s, s[i].key@) == Some(s[i].value@),
    decreases i,
{
    if i > 0 {
        assert(lex_lt(s[0].key@, s[i].key@));
        lemma_lex_trichotomy(s[0].key@, s[i].key@);
        assert(s[0].key@ != s[i].key@);
        lemma_lookup_found(s.drop_first(), i - 1);
        assert(s.drop_first()[i - 1] == s[i]);
    }
}

/// A key under no index looks up to nothing.
pub proof fn lemma_lookup_missing(s: Seq<LeafEntry>, key: Seq<u8>)
    requires
        forall|i: int| 0 <= i < s.len() ==> (#[trigger] s[i].key@) != key,
    ensures
        lookup_entries(s, key) is None,
    decreases s.len(),
{
    if s.len() > 0 {
        assert(s[0].key@ != key);
        assert(forall|i: int|
            0 <= i < s.drop_first().len() ==> (#[trigger] s.drop_first()[i]).key@ == s[i
                + 1].key@);
        lemma_lookup_missing(s.drop_first(), key);
    }
}

impl BucketData {
    /// The bucket's ordering invariant.
    pub open spec fn wf(&self) -> bool {
        entries_sorted(self.entries@)
    }

    /// What `key` maps to in this bucket.
    pub open spec fn lookup(&self, key: Seq<u8>) -> Option<EntryValueView> {
        lookup_entries(self.entries@, key)
    }

    /// An empty bucket with its counter at zero.
    pub fn new() -> (r: BucketData)
        ensures
            r.wf(),
            forall|key: Seq<u8>| #[trigger] r.lookup(key) is None,
            r.next_int == 0,
            r.entries@.len() == 0,
    {
        let r = BucketData { entries: Vec::new(), next_int: 0 };
        proof {
            assert forall|key: Seq<u8>| #[trigger] r.lookup(key) is None by {
                lemma_lookup_missing(r.entries@, key);
            }
        }
        r
    }

    /// Where `key` stands: `Ok(i)` when entry `i` holds exactly `key`,
    /// `Err(i)` when `key` is absent and `i` is its insertion point.
    fn find(&self, key: &Vec<u8>) -> (r: Result<usize, usize>)
        requires
            self.wf(),
        ensures
            match r {
                Ok(i) => i < self.entries@.len() && self.entries@[i as int].key@ == key@,
                Err(i) => {
                    &&& i <= self.entries@.len()
                    &&& forall|j: int|
                        0 <= j < i ==> lex_lt((#[trigger] self.entries@[j]).key@, key@)
                    &&& forall|j: int|
                        i <= j < self.entries@.len() ==> lex_lt(
                            key@,
                            (#[trigger] self.entries@[j]).key@,
                        )
                    &&& self.lookup(key@) is None
                },
            },
    {
        let n = self.entries.len();
        let mut i: usize = 0;
        while i < n
            invariant
                0 <= i <= n,
                n == self.entries@.len(),
                self.wf(),
                forall|j: int| 0 <= j < i ==> lex_lt((#[trigger] self.entries@[j]).key@, key@),
            decreases n - i,
        {
            match key_compare(&self.entries[i].key, key) {
                KeyOrder::Equal => {
                    return Ok(i);
                },
                KeyOrder::Less => {
                    i = i + 1;
                },
                KeyOrder::Greater => {
                    proof {
                        assert(lex_lt(key@, self.entries@[i as int].key@));
                        assert forall|j: int|
                            i <= j < self.entries@.len() implies lex_lt(
                            key@,
                            (#[trigger] self.entries@[j]).key@,
                        ) by {
                            if j > i {
                                lemma_lex_trans(
                                    key@,
                                    self.entries@[i as int].key@,
                                    self.entries@[j].key@,
                                );
                            }
                        }
                        assert forall|j: int|
                            0 <= j < self.entries@.len() implies (
                        #[trigger] self.entries@[j].key@) != key@ by {
                            lemma_lex_trichotomy(self.entries@[j].key@, key@);
                        }
                        lemma_lookup_missing(self.entries@, key@);
                    }
                    return Err(i);
                },
            }
        }
        proof {
            assert forall|j: int|
                0 <= j < self.entries@.len() implies (#[trigger] self.entries@[j].key@)
                != key@ by {
                lemma_lex_trichotomy(self.entries@[j].key@, key@);
            }
            lemma_lookup_missing(self.entries@, key@);
        }
        Err(n)
    }

    /// Reads the plain value under `key`; a missing pair and a key that
    /// holds a sub-bucket are the two failure cases.
    pub fn get(&self, key: &Vec<u8>) -> (r: Result<Vec<u8>, Error>)
        requires
            self.wf(),
        ensures
            match r {
                Ok(v) => self.lookup(key@) == Some(EntryValueView::Value(v@)),
                Err(e) => match e {
                    Error::KeyValueMissing => self.lookup(key@) is None,
                    Error::IncompatibleValue => self.lookup(key@) matches Some(
                        EntryValueView::Bucket(_),
                    ),
                    _ => false,
                },
            },
    {
        match self.find(key) {
            Ok(i) => {
                proof {
                    lemma_lookup_found(self.entries@, i as int);
                }
                match &self.entries[i].value {
                    EntryValue::Value(v) => Ok(copy_bytes(v)),
                    EntryValue::Bucket(_) => Err(Error::IncompatibleValue),
                }
            },
            Err(_) => Err(Error::KeyValueMissing),
        }
    }

    /// Inserts or overwrites the plain value under `key`; fails only when
    /// the key already names a sub-bucket, and changes no other key.
    pub fn put(&mut self, key: Vec<u8>, value: Vec<u8>) -> (r: Result<(), Error>)
        requires
            old(self).wf(),
        ensures
            final(self).wf(),
            final(self).next_int == old(self).next_int,
            match r {
                Ok(()) => {
                    &&& !(old(self).lookup(key@) matches Some(EntryValueView::Bucket(_)))
                    &&& final(self).lookup(key@) == Some(EntryValueView::Value(value@))
                    &&& forall|k2: Seq<u8>|
                        k2 != key@ ==> #[trigger] final(self).lookup(k2) == old(self).lookup(k2)
                },
                Err(e) => {
                    &&& e is IncompatibleValue
                    &&& old(self).lookup(key@) matches Some(EntryValueView::Bucket(_))
                    &&& final(self).entries@ == old(self).entries@
                },
            },
    {
        match self.find(&key) {
            Ok(i) => {
                proof {
                    lemma_lookup_found(self.entries@, i as int);
                }
                match &self.entries[i].value {
                    EntryValue::Bucket(_) => Err(Error::IncompatibleValue),
                    EntryValue::Value(_) => {
                        let ghost olds = self.entries@;
                        let entry = LeafEntry { key, value: EntryValue::Value(value) };
                        self.entries.set(i, entry);
                        proof {
                            let news = self.entries@;
                            assert(news[i as int].key@ == olds[i as int].key@);
                            assert forall|p: int, q: int|
                                0 <= p < q < news.len() implies lex_lt(
                                news[p].key@,
                                news[q].key@,
                            ) by {
                                assert(lex_lt(olds[p].key@, olds[q].key@));
                            }
                            lemma_lookup_found(news, i as int);
                            assert forall|k2: Seq<u8>|
                                k2 != news[i as int].key@ implies #[trigger] lookup_entries(
                                news,
                                k2,
                            ) == lookup_entries(olds, k2) by {
                                lemma_lookup_frame_set(olds, news, i as int, k2);
                            }
                        }
                        Ok(())
                    },
                }
            },
            Err(i) => {
                let ghost olds = self.entries@;
                let ghost keyv = key@;
                let entry = LeafEntry { key, value: EntryValue::Value(value) };
                self.entries.insert(i, entry);
                proof {
                    let news = self.entries@;
                    assert(news =~= olds.subrange(0, i as int).push(entry).add(
                        olds.subrange(i as int, olds.len() as int),
                    ));
                    assert forall|p: int, q: int|
                        0 <= p < q < news.len() implies lex_lt(news[p].key@, news[q].key@) by {
                        let ep = if p < i {
                            olds[p]
                        } else if p == i {
                            entry
                        } else {
                            olds[p - 1]
                        };
                        let eq = if q < i {
                            olds[q]
                        } else if q == i {
                            entry
                        } else {
                            olds[q - 1]
                        };
                        assert(news[p] == ep && news[q] == eq);
                    }
                    lemma_lookup_found(news, i as int);
                    assert forall|k2: Seq<u8>|
                        k2 != keyv implies #[trigger] lookup_entries(news, k2) == lookup_entries(
                        olds,
                        k2,
                    ) by {
                        lemma_lookup_frame_insert(olds, news, i as int, k2);
                    }
                }
                Ok(())
            },
        }
    }

    /// Removes the plain value under `key`; a missing pair and a key that
    /// holds a sub-bucket are the two failure cases. No other key changes.
    pub fn delete(&mut self, key: &Vec<u8>) -> (r: Result<(), Error>)
        requires
            old(self).wf(),
        ensures
            final(self).wf(),
            final(self).next_int == old(self).next_int,
            match r {
                Ok(()) => {
                    &&& old(self).lookup(key@) matches Some(EntryValueView::Value(_))
                    &&& final(self).lookup(key@) is None
                    &&& forall|k2: Seq<u8>|
                        k2 != key@ ==> #[trigger] final(self).lookup(k2) == old(self).lookup(k2)
                },
                Err(e) => {
                    &&& final(self).entries@ == old(self).entries@
                    &&& match e {
                        Error::KeyValueMissing => old(self).lookup(key@) is None,
                        Error::IncompatibleValue => old(self).lookup(key@) matches Some(
                            EntryValueView::Bucket(_),
                        ),
                        _ => false,
                    }
                },
            },
    {
        match self.find(key) {
            Ok(i) => {
                proof {
                    lemma_lookup_found(self.entries@, i as int);
                }
                match &self.entries[i].value {
                    EntryValue::Bucket(_) => Err(Error::IncompatibleValue),
                    EntryValue::Value(_) => {
                        let ghost olds = self.entries@;
                        let _ = self.entries.remove(i);
                        proof {
                            let news = self.entries@;
                            assert forall|p: int, q: int|
                                0 <= p < q < news.len() implies lex_lt(
                                news[p].key@,
                                news[q].key@,
                            ) by {
                                let sp: int = if p < i {
                                    p
                                } else {
                                    p + 1
                                };
                                let sq: int = if q < i {
                                    q
                                } else {
                                    q + 1
                                };
                                assert(news[p] == olds[sp] && news[q] == olds[sq]);
                            }
                            assert forall|j: int|
                                0 <= j < news.len() implies (#[trigger] news[j].key@) != key@ by {
                                let sj: int = if j < i {
                                    j
                                } else {
                                    j + 1
                                };
                                assert(news[j] == olds[sj]);
                                lemma_lex_trichotomy(olds[sj].key@, olds[i as int].key@);
                            }
                            lemma_lookup_missing(news, key@);
                            assert forall|k2: Seq<u8>|
                                k2 != key@ implies #[trigger] lookup_entries(news, k2)
                                == lookup_entries(olds, k2) by {
                                lemma_lookup_frame_remove(olds, news, i as int, k2);
                            }
                        }
                        Ok(())
                    },
                }
            },
            Err(_) => Err(Error::KeyValueMissing),
        }
    }

    /// Creates an empty sub-bucket under `key`; fails with `BucketExists`
    /// when the key already holds a value or a bucket.
    pub fn create_bucket(&mut self, key: Vec<u8>) -> (r: Result<(), Error>)
        requires
            old(self).wf(),
        ensures
            final(self).wf(),
            final(self).next_int == old(self).next_int,
            match r {
                Ok(()) => {
                    &&& old(self).lookup(key@) is None
                    &&& final(self).lookup(key@) == Some(
                        EntryValueView::Bucket(BucketMeta { root_page: 0, next_int: 0 }),
                    )
                    &&& forall|k2: Seq<u8>|
                        k2 != key@ ==> #[trigger] final(self).lookup(k2) == old(self).lookup(k2)
                },
                Err(e) => {
                    &&& e is BucketExists
                    &&& old(self).lookup(key@) is Some
                    &&& final(self).entries@ == old(self).entries@
                },
            },
    {
        match self.find(&key) {
            Ok(i) => {
                proof {
                    lemma_lookup_found(self.entries@, i as int);
                }
                Err(Error::BucketExists)
            },
            Err(i) => {
                let ghost olds = self.entries@;
                let ghost keyv = key@;
                let entry = LeafEntry {
                    key,
                    value: EntryValue::Bucket(BucketMeta { root_page: 0, next_int: 0 }),
                };
                self.entries.insert(i, entry);
                proof {
                    let news = self.entries@;
                    assert forall|p: int, q: int|
                        0 <= p < q < news.len() implies lex_lt(news[p].key@, news[q].key@) by {
                        let ep = if p < i {
                            olds[p]
                        } else if p == i {
                            entry
                        } else {
                            olds[p - 1]
                        };
                        let eq = if q < i {
                            olds[q]
                        } else if q == i {
                            entry
                        } else {
                            olds[q - 1]
                        };
                        assert(news[p] == ep && news[q] == eq);
                    }
                    lemma_lookup_found(news, i as int);
                    assert forall|k2: Seq<u8>|
                        k2 != keyv implies #[trigger] lookup_entries(news, k2) == lookup_entries(
                        olds,
                        k2,
                    ) by {
                        lemma_lookup_frame_insert(olds, news, i as int, k2);
                    }
                }
                Ok(())
            },
        }
    }

    /// Opens the sub-bucket descriptor under `key`; `BucketMissing` when
    /// absent and `IncompatibleValue` when the key holds a plain value.
    pub fn bucket(&self, key: &Vec<u8>) -> (r: Result<BucketMeta, Error>)
        requires
            self.wf(),
        ensures
            match r {
                Ok(m) => self.lookup(key@) == Some(EntryValueView::Bucket(m)),
                Err(e) => match e {
                    Error::BucketMissing => self.lookup(key@) is None,
                    Error::IncompatibleValue => self.lookup(key@) matches Some(
                        EntryValueView::Value(_),
                    ),
                    _ => false,
                },
            },
    {
        match self.find(key) {
            Ok(i) => {
                proof {
                    lemma_lookup_found(self.entries@, i as int);
                }
                match &self.entries[i].value {
                    EntryValue::Value(_) => Err(Error::IncompatibleValue),
                    EntryValue::Bucket(m) => Ok(*m),
                }
            },
            Err(_) => Err(Error::BucketMissing),
        }
    }

    /// Stores the sub-bucket descriptor under `key`, which must already
    /// hold a bucket; used when a commit assigns fresh root pages.
    pub fn set_bucket_meta(&mut self, key: &Vec<u8>, m: BucketMeta) -> (r: Result<(), Error>)
        requires
            old(self).wf(),
        ensures
            final(self).wf(),
            final(self).next_int == old(self).next_int,
            match r {
                Ok(()) => {
                    &&& old(self).lookup(key@) matches Some(EntryValueView::Bucket(_))
                    &&& final(self).lookup(key@) == Some(EntryValueView::Bucket(m))
                    &&& forall|k2: Seq<u8>|
                        k2 != key@ ==> #[trigger] final(self).lookup(k2) == old(self).lookup(k2)
                },
                Err(e) => {
                    &&& final(self).entries@ == old(self).entries@
                    &&& match e {
                        Error::BucketMissing => old(self).lookup(key@) is None,
                        Error::IncompatibleValue => old(self).lookup(key@) matches Some(
                            EntryValueView::Value(_),
                        ),
                        _ => false,
                    }
                },
            },
    {
        match self.find(key) {
            Ok(i) => {
                proof {
                    lemma_lookup_found(self.entries@, i as int);
                }
                match &self.entries[i].value {
                    EntryValue::Value(_) => Err(Error::IncompatibleValue),
                    EntryValue::Bucket(_) => {
                        let ghost olds = self.entries@;
                        let entry = LeafEntry { key: copy_bytes(key), value: EntryValue::Bucket(m) };
                        self.entries.set(i, entry);
                        proof {
                            let news = self.entries@;
                            assert(news[i as int].key@ == olds[i as int].key@);
                            assert forall|p: int, q: int|
                                0 <= p < q < news.len() implies lex_lt(
                                news[p].key@,
                                news[q].key@,
                            ) by {
                                assert(lex_lt(olds[p].key@, olds[q].key@));
                            }
                            lemma_lookup_found(news, i as int);
                            assert forall|k2: Seq<u8>|
                                k2 != news[i as int].key@ implies #[trigger] lookup_entries(
                                news,
                                k2,
                            ) == lookup_entries(olds, k2) by {
                                lemma_lookup_frame_set(olds, news, i as int, k2);
                            }
                        }
                        Ok(())
                    },
                }
            },
            Err(_) => Err(Error::BucketMissing),
        }
    }

    /// Returns the auto-increment counter and advances it by one.
    pub fn next_id(&mut self) -> (r: u64)
        requires
            old(self).wf(),
            old(self).next_int < u64::MAX,
        ensures
            final(self).wf(),
            r == old(self).next_int,
            final(self).next_int == old(self).next_int + 1,
            final(self).entries@ == old(self).entries@,
    {
        let r = self.next_int;
        self.next_int = self.next_int + 1;
        r
    }

    /// How many entries the bucket holds.
    pub fn len(&self) -> (r: usize)
        ensures
            r == self.entries@.len(),
    {
        self.entries.len()
    }
}

/// B-tree ordering: in a well-formed bucket, which every operation
/// preserves, the in-order traversal of the entries is strictly
/// ascending by key, with no duplicate keys.
pub proof fn lemma_entries_strictly_ascending(b: &BucketData)
    requires
        b.wf(),
    ensures
        forall|i: int, j: int|
            0 <= i < j < b.entries@.len() ==> lex_lt(b.entries@[i].key@, b.entries@[j].key@),
        forall|i: int, j: int|
            0 <= i < j < b.entries@.len() ==> (#[trigger] b.entries@[i]).key@ != (
            #[trigger] b.entries@[j]).key@,
{
    assert forall|i: int, j: int|
        0 <= i < j < b.entries@.len() implies (#[trigger] b.entries@[i]).key@ != (
    #[trigger] b.entries@[j]).key@ by {
        lemma_lex_trichotomy(b.entries@[i].key@, b.entries@[j].key@);
    }
}

/// The entry list after an insert-or-overwrite of `e`, at the model
/// level: `e` replaces an entry with its key or takes its sorted place.
pub open spec fn put_entries(s: Seq<LeafEntry>, e: LeafEntry) -> Seq<LeafEntry>
    decreases s.len(),
{
    if s.len() == 0 {
        seq![e]
    } else if lex_lt(e.key@, s[0].key@) {
        seq![e] + s
    } else if e.key@ == s[0].key@ {
        seq![e] + s.drop_first()
    } else {
        seq![s[0]] + put_entries(s.drop_first(), e)
    }
}

/// A strict lower bound on every key survives an insert whose key it
/// also bounds.
proof fn lemma_put_lower_bound(s: Seq<LeafEntry>, e: LeafEntry, b: Seq<u8>)
    requires
        forall|i: int| 0 <= i < s.len() ==> lex_lt(b, (#[trigger] s[i]).key@),
        lex_lt(b, e.key@),
    ensures
        forall|i: int|
            0 <= i < put_entries(s, e).len() ==> lex_lt(b, (#[trigger] put_entries(s, e)[i]).key@),
    decreases s.len(),
{
    let t = put_entries(s, e);
    if s.len() == 0 {
        assert(t =~= seq![e]);
    } else if lex_lt(e.key@, s[0].key@) {
        assert forall|i: int| 0 <= i < t.len() implies lex_lt(b, (#[trigger] t[i]).key@) by {
            if i > 0 {
                assert(t[i] == s[i - 1]);
            }
        }
    } else if e.key@ == s[0].key@ {
        assert forall|i: int| 0 <= i < t.len() implies lex_lt(b, (#[trigger] t[i]).key@) by {
            if i > 0 {
                assert(t[i] == s[i]);
            }
        }
    } else {
        assert(forall|i: int|
            0 <= i < s.drop_first().len() ==> lex_lt(b, (#[trigger] s.drop_first()[i]).key@));
        lemma_put_lower_bound(s.drop_first(), e, b);
        assert forall|i: int| 0 <= i < t.len() implies lex_lt(b, (#[trigger] t[i]).key@) by {
            if i > 0 {
                assert(t[i] == put_entries(s.drop_first(), e)[i - 1]);
            }
        }
    }
}

/// Round trip: in an ordered bucket, inserting or overwriting the pair
/// (key, value) keeps the order, makes the key look up to exactly that
/// value, and leaves every other key's lookup unchanged - so a `get` of
/// the key after a `put` returns the value, until it is overwritten or
/// deleted.
pub proof fn lemma_put_round_trip(s: Seq<LeafEntry>, e: LeafEntry)
    requires
        entries_sorted(s),
    ensures
        entries_sorted(put_entries(s, e)),
        lookup_entries(put_entries(s, e), e.key@) == Some(e.value@),
        forall|k2: Seq<u8>|
            k2 != e.key@ ==> #[trigger] lookup_entries(put_entries(s, e), k2) == lookup_entries(
                s,
                k2,
            ),
    decreases s.len(),
{
    let t = put_entries(s, e);
    if s.len() == 0 {
        assert(t =~= seq![e]);
        assert(t.drop_first() =~= Seq::<LeafEntry>::empty());
        assert forall|k2: Seq<u8>|
            k2 != e.key@ implies #[trigger] lookup_entries(t, k2) == lookup_entries(s, k2) by {
            assert(lookup_entries(t, k2) == lookup_entries(t.drop_first(), k2));
        }
    } else if lex_lt(e.key@, s[0].key@) {
        assert(t == seq![e] + s);
        assert(t.drop_first() =~= s);
        assert forall|p: int, q: int| 0 <= p < q < t.len() implies lex_lt(
            t[p].key@,
            t[q].key@,
        ) by {
            if p == 0 {
                assert(t[q] == s[q - 1]);
                if q > 1 {
                    lemma_lex_trans(e.key@, s[0].key@, s[q - 1].key@);
                }
            } else {
                assert(t[p] == s[p - 1] && t[q] == s[q - 1]);
            }
        }
        assert(lookup_entries(t, e.key@) == Some(e.value@));
        assert forall|k2: Seq<u8>|
            k2 != e.key@ implies #[trigger] lookup_entries(t, k2) == lookup_entries(s, k2) by {
            assert(lookup_entries(t, k2) == lookup_entries(s, k2));
        }
    } else if e.key@ == s[0].key@ {
        assert(t == seq![e] + s.drop_first());
        assert(t.drop_first() =~= s.drop_first());
        assert forall|p: int, q: int| 0 <= p < q < t.len() implies lex_lt(
            t[p].key@,
            t[q].key@,
        ) by {
            if p == 0 {
                assert(t[q] == s.drop_first()[q - 1]);
                assert(s.drop_first()[q - 1] == s[q]);
            } else {
                assert(t[p] == s[p] && t[q] == s[q]);
            }
        }
        assert(lookup_entries(t, e.key@) == Some(e.value@));
        assert forall|k2: Seq<u8>|
            k2 != e.key@ implies #[trigger] lookup_entries(t, k2) == lookup_entries(s, k2) by {
            assert(lookup_entries(t, k2) == lookup_entries(s.drop_first(), k2));
            assert(lookup_entries(s, k2) == lookup_entries(s.drop_first(), k2));
        }
    } else {
        lemma_lex_trichotomy(e.key@, s[0].key@);
        assert(lex_lt(s[0].key@, e.key@));
        let rest = s.drop_first();
        assert(entries_sorted(rest)) by {
            assert(forall|i: int, j: int|
                0 <= i < j < rest.len() ==> rest[i] == s[i + 1] && rest[j] == s[j + 1]);
        }
        lemma_put_round_trip(rest, e);
        let tr = put_entries(rest, e);
        assert(t == seq![s[0]] + tr);
        assert(t.drop_first() =~= tr);
        assert(forall|i: int| 0 <= i < rest.len() ==> lex_lt(s[0].key@, (#[trigger] rest[i]).key@))
            by {
            assert(forall|i: int| 0 <= i < rest.len() ==> rest[i] == s[i + 1]);
        }
        lemma_put_lower_bound(rest, e, s[0].key@);
        assert forall|p: int, q: int| 0 <= p < q < t.len() implies lex_lt(
            t[p].key@,
            t[q].key@,
        ) by {
            if p == 0 {
                assert(t[q] == tr[q - 1]);
            } else {
                assert(t[p] == tr[p - 1] && t[q] == tr[q - 1]);
            }
        }
        assert(t[0].key@ != e.key@);
        assert(lookup_entries(t, e.key@) == lookup_entries(tr, e.key@));
        assert forall|k2: Seq<u8>|
            k2 != e.key@ implies #[trigger] lookup_entries(t, k2) == lookup_entries(s, k2) by {
            if k2 == s[0].key@ {
                assert(lookup_entries(t, k2) == Some(t[0].value@));
                assert(lookup_entries(s, k2) == Some(s[0].value@));
            } else {
                assert(lookup_entries(t, k2) == lookup_entries(tr, k2));
                assert(lookup_entries(s, k2) == lookup_entries(rest, k2));
            }
        }
    }
}

/// Replacing the entry at `i` by one with the same key leaves the lookup
/// of every other key unchanged.
proof fn lemma_lookup_frame_set(olds: Seq<LeafEntry>, news: Seq<LeafEntry>, i: int, k2: Seq<u8>)
    requires
        entries_sorted(olds),
        entries_sorted(news),
        0 <= i < olds.len(),
        news.len() == olds.len(),
        forall|j: int| 0 <= j < news.len() && j != i ==> #[trigger] news[j] == olds[j],
        news[i].key@ == olds[i].key@,
        k2 != olds[i].key@,
    ensures
        lookup_entries(news, k2) == lookup_entries(olds, k2),
{
    assert forall|j: int|
        0 <= j < olds.len() && (#[trigger] olds[j].key@) == k2 implies exists|m: int|
        0 <= m < news.len() && (#[trigger] news[m].key@) == k2 && news[m].value@
            == olds[j].value@ by {
        assert(j != i);
        assert(news[j] == olds[j]);
        assert(news[j].key@ == k2 && news[j].value@ == olds[j].value@);
    }
    assert forall|j: int|
        0 <= j < news.len() && (#[trigger] news[j].key@) == k2 implies exists|m: int|
        0 <= m < olds.len() && (#[trigger] olds[m].key@) == k2 && olds[m].value@
            == news[j].value@ by {
        assert(j != i);
        assert(news[j] == olds[j]);
        assert(olds[j].key@ == k2 && olds[j].value@ == news[j].value@);
    }
    lemma_lookup_frame(olds, news, k2);
}

/// Inserting an entry at `i` leaves the lookup of every other key
/// unchanged.
proof fn lemma_lookup_frame_insert(
    olds: Seq<LeafEntry>,
    news: Seq<LeafEntry>,
    i: int,
    k2: Seq<u8>,
)
    requires
        entries_sorted(olds),
        entries_sorted(news),
        0 <= i < news.len(),
        news.len() == olds.len() + 1,
        forall|j: int| 0 <= j < i ==> #[trigger] news[j] == olds[j],
        forall|j: int| i < j < news.len() ==> #[trigger] news[j] == olds[j - 1],
        k2 != news[i].key@,
    ensures
        lookup_entries(news, k2) == lookup_entries(olds, k2),
{
    assert forall|j: int|
        0 <= j < olds.len() && (#[trigger] olds[j].key@) == k2 implies exists|m: int|
        0 <= m < news.len() && (#[trigger] news[m].key@) == k2 && news[m].value@
            == olds[j].value@ by {
        let m: int = if j < i {
            j
        } else {
            j + 1
        };
        assert(news[m] == olds[j]);
        assert(news[m].key@ == k2 && news[m].value@ == olds[j].value@);
    }
    assert forall|j: int|
        0 <= j < news.len() && (#[trigger] news[j].key@) == k2 implies exists|m: int|
        0 <= m < olds.len() && (#[trigger] olds[m].key@) == k2 && olds[m].value@
            == news[j].value@ by {
        assert(j != i);
        let m: int = if j < i {
            j
        } else {
            j - 1
        };
        assert(olds[m] == news[j]);
        assert(olds[m].key@ == k2 && olds[m].value@ == news[j].value@);
    }
    lemma_lookup_frame(olds, news, k2);
}

/// Removing the entry at `i` leaves the lookup of every other key
/// unchanged.
proof fn lemma_lookup_frame_remove(
    olds: Seq<LeafEntry>,
    news: Seq<LeafEntry>,
    i: int,
    k2: Seq<u8>,
)
    requires
        entries_sorted(olds),
        entries_sorted(news),
        0 <= i < olds.len(),
        news.len() == olds.len() - 1,
        forall|j: int| 0 <= j < i ==> #[trigger] news[j] == olds[j],
        forall|j: int| i <= j < news.len() ==> #[trigger] news[j] == olds[j + 1],
        k2 != olds[i].key@,
    ensures
        lookup_entries(news, k2) == lookup_entries(olds, k2),
{
    assert forall|j: int|
        0 <= j < olds.len() && (#[trigger] olds[j].key@) == k2 implies exists|m: int|
        0 <= m < news.len() && (#[trigger] news[m].key@) == k2 && news[m].value@
            == olds[j].value@ by {
        assert(j != i);
        let m: int = if j < i {
            j
        } else {
            j - 1
        };
        assert(news[m] == olds[j]);
        assert(news[m].key@ == k2 && news[m].value@ == olds[j].value@);
    }
    assert forall|j: int|
        0 <= j < news.len() && (#[trigger] news[j].key@) == k2 implies exists|m: int|
        0 <= m < olds.len() && (#[trigger] olds[m].key@) == k2 && olds[m].value@
            == news[j].value@ by {
        let m: int = if j < i {
            j
        } else {
            j + 1
        };
        assert(olds[m] == news[j]);
        assert(olds[m].key@ == k2 && olds[m].value@ == news[j].value@);
    }
    lemma_lookup_frame(olds, news, k2);
}

/// Two sorted entry lists that place `k2` identically look it up
/// identically: lookups only depend on which entry (if any) holds the key.
proof fn lemma_lookup_frame(olds: Seq<LeafEntry>, news: Seq<LeafEntry>, k2: Seq<u8>)
    requires
        entries_sorted(olds),
        entries_sorted(news),
        forall|j: int|
            0 <= j < olds.len() && (#[trigger] olds[j].key@) == k2 ==> exists|m: int|
                0 <= m < news.len() && (#[trigger] news[m].key@) == k2 && news[m].value@
                    == olds[j].value@,
        forall|j: int|
            0 <= j < news.len() && (#[trigger] news[j].key@) == k2 ==> exists|m: int|
                0 <= m < olds.len() && (#[trigger] olds[m].key@) == k2 && olds[m].value@
                    == news[j].value@,
    ensures
        lookup_entries(news, k2) == lookup_entries(olds, k2),
{
    if exists|j: int| 0 <= j < olds.len() && (#[trigger] olds[j].key@) == k2 {
        let j = choose|j: int| 0 <= j < olds.len() && (#[trigger] olds[j].key@) == k2;
        lemma_lookup_found(olds, j);
        let m = choose|m: int|
            0 <= m < news.len() && (#[trigger] news[m].key@) == k2 && news[m].value@
                == olds[j].value@;
        lemma_lookup_found(news, m);
    } else {
        assert forall|j: int| 0 <= j < olds.len() implies (#[trigger] olds[j].key@) != k2 by {}
        lemma_lookup_missing(olds, k2);
        assert forall|j: int| 0 <= j < news.len() implies (#[trigger] news[j].key@) != k2 by {
            if news[j].key@ == k2 {
                let m = choose|m: int|
                    0 <= m < olds.len() && (#[trigger] olds[m].key@) == k2 && olds[m].value@
                        == news[j].value@;
            }
        }
        lemma_lookup_missing(news, k2);
    }
}

} // verus!
