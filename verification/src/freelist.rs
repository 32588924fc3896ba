//! The freelist: tracker of reusable page ids, partitioned into pages
//! that are immediately free and pages pending reclamation, keyed by the
//! transaction generation that retired them. A pending page becomes free
//! only once no open reader can still observe it.
use crate::meta::PageId;
use vstd::prelude::*;

verus! {

/// Strictly ascending: sorted with no duplicates.
pub open spec fn sorted_strict(s: Seq<u64>) -> bool {
    forall|i: int, j: int| 0 <= i < j < s.len() ==> s[i] < s[j]
}

/// Tracks free pages and pages pending reclamation.
pub struct Freelist {
    /// Page ids no live meta or reader snapshot references, ascending.
    pub free_pages: Vec<PageId>,
    /// For each retiring transaction id, the pages it freed; keys ascending.
    pub pending_pages: Vec<(u64, Vec<PageId>)>,
}

impl Freelist {
    /// The page id is immediately reusable.
    pub open spec fn in_free(&self, id: PageId) -> bool {
        self.free_pages@.contains(id)
    }

    /// The page id awaits reclamation under some retiring transaction.
    pub open spec fn in_pending(&self, id: PageId) -> bool {
        exists|i: int|
            0 <= i < self.pending_pages@.len() && self.pending_pages@[i].1@.contains(id)
    }

    /// The page id awaits reclamation under the given transaction id.
    pub open spec fn in_pending_of(&self, tx_id: u64, id: PageId) -> bool {
        exists|i: int|
            0 <= i < self.pending_pages@.len() && self.pending_pages@[i].0 == tx_id
                && self.pending_pages@[i].1@.contains(id)
    }

    /// There are `n` consecutive free ids starting at `start`.
    pub open spec fn has_free_run(&self, start: PageId, n: int) -> bool {
        forall|k: u64| k < n ==> #[trigger] self.in_free((start + k) as u64)
    }

    /// The freelist's invariant: both partitions are strictly sorted, the
    /// pending generations are strictly ordered, and no page id is in two
    /// places at once.
    pub open spec fn wf(&self) -> bool {
        &&& sorted_strict(self.free_pages@)
        &&& (forall|i: int, j: int|
            0 <= i < j < self.pending_pages@.len() ==> self.pending_pages@[i].0
                < self.pending_pages@[j].0)
        &&& (forall|i: int|
            0 <= i < self.pending_pages@.len() ==> sorted_strict(
                #[trigger] self.pending_pages@[i].1@,
            ))
        &&& (forall|id: PageId| !(self.in_free(id) && self.in_pending(id)))
        &&& (forall|i: int, j: int, id: PageId|
            0 <= i < j < self.pending_pages@.len() ==> !(#[trigger] self.pending_pages@[i].1@
                .contains(id) && #[trigger] self.pending_pages@[j].1@.contains(id)))
    }

    /// An empty freelist.
    pub fn new() -> (r: Freelist)
        ensures
            r.wf(),
            forall|id: PageId| !r.in_free(id),
            forall|id: PageId| !r.in_pending(id),
            r.free_pages@.len() == 0,
            r.pending_pages@.len() == 0,
    {
        Freelist { free_pages: Vec::new(), pending_pages: Vec::new() }
    }

    /// Seeds the free partition from the ids read off the freelist page.
    /// The input must be strictly ascending - the shape the freelist
    /// page's ordered id array always has - and the list must still be
    /// fresh: seeding happens exactly once, when a database image is
    /// opened.
    pub fn init(&mut self, free_pages: &Vec<PageId>)
        requires
            old(self).wf(),
            old(self).free_pages@.len() == 0,
            old(self).pending_pages@.len() == 0,
            sorted_strict(free_pages@),
        ensures
            final(self).wf(),
            final(self).free_pages@ == free_pages@,
            final(self).pending_pages@ == old(self).pending_pages@,
    {
        let mut i: usize = 0;
        let n = free_pages.len();
        while i < n
            invariant
                0 <= i <= n,
                n == free_pages@.len(),
                sorted_strict(free_pages@),
                self.free_pages@ == free_pages@.subrange(0, i as int),
                self.pending_pages@ == old(self).pending_pages@,
            decreases n - i,
        {
            self.free_pages.push(free_pages[i]);
            proof {
                assert(self.free_pages@ =~= free_pages@.subrange(0, i + 1));
            }
            i = i + 1;
        }
        proof {
            assert(self.free_pages@ =~= free_pages@);
        }
    }

    /// The free partition, ascending, for serialization.
    pub fn free_ids(&self) -> (r: Vec<PageId>)
        ensures
            r@ == self.free_pages@,
    {
        let mut out: Vec<PageId> = Vec::new();
        let mut i: usize = 0;
        let n = self.free_pages.len();
        while i < n
            invariant
                0 <= i <= n,
                n == self.free_pages@.len(),
                out@ == self.free_pages@.subrange(0, i as int),
            decreases n - i,
        {
            out.push(self.free_pages[i]);
            proof {
                assert(out@ =~= self.free_pages@.subrange(0, i + 1));
            }
            i = i + 1;
        }
        proof {
            assert(out@ =~= self.free_pages@);
        }
        out
    }

    /// How many pages are immediately free.
    pub fn free_count(&self) -> (r: usize)
        ensures
            r == self.free_pages@.len(),
    {
        self.free_pages.len()
    }

    /// Allocates `n` contiguous pages out of the free partition: the run
    /// with the lowest starting id is taken, or `None` when no run of `n`
    /// consecutive free ids exists.
    pub fn allocate(&mut self, n: usize) -> (r: Option<PageId>)
        requires
            old(self).wf(),
            n >= 1,
        ensures
            final(self).wf(),
            final(self).pending_pages@ == old(self).pending_pages@,
            match r {
                Some(start) => {
                    &&& start + n - 1 <= u64::MAX
                    &&& forall|k: u64| k < n ==> #[trigger] old(self).in_free((start + k) as u64)
                    &&& forall|id: PageId|
                        final(self).in_free(id) <==> (old(self).in_free(id) && !(start <= id < start
                            + n))
                    &&& forall|k: u64|
                        k < n ==> !(#[trigger] old(self).in_pending((start + k) as u64))
                },
                None => {
                    &&& final(self).free_pages@ == old(self).free_pages@
                    &&& forall|start: PageId|
                        start + n - 1 <= u64::MAX ==> !(#[trigger] old(self).has_free_run(
                            start,
                            n as int,
                        ))
                },
            },
    {
        let len = self.free_pages.len();
        if n > len {
            proof {
                assert forall|start: PageId|
                    start + n - 1 <= u64::MAX implies !(#[trigger] old(self).has_free_run(
                    start,
                    n as int,
                )) by {
                    if old(self).has_free_run(start, n as int) {
                        assert forall|k: u64|
                            k < n implies #[trigger] old(self).free_pages@.contains(
                            (start + k) as u64,
                        ) by {
                            assert(old(self).in_free((start + k) as u64));
                        }
                        lemma_run_needs_length(old(self).free_pages@, start, n as u64);
                    }
                }
            }
            return None;
        }
        let mut i: usize = 0;
        while i <= len - n
            invariant
                old(self) == self,
                self.wf(),
                n >= 1,
                n <= len,
                0 <= i <= len - n + 1,
                len == self.free_pages@.len(),
                forall|j: int|
                    0 <= j < i ==> #[trigger] self.free_pages@[j + n - 1] != self.free_pages@[j] + (
                    n - 1),
            decreases len - i,
        {
            let base = self.free_pages[i];
            let last = self.free_pages[i + n - 1];
            if last - base == (n - 1) as u64 {
                proof {
                    lemma_window_is_run(self.free_pages@, i as int, n as int);
                }
                let start = base;
                let ghost old_free = self.free_pages@;
                let mut rest: Vec<PageId> = Vec::new();
                let mut j: usize = 0;
                while j < len
                    invariant
                        0 <= j <= len,
                        len == self.free_pages@.len(),
                        self.free_pages@ == old_free,
                        i + n <= len,
                        rest@ == if j <= i {
                            old_free.subrange(0, j as int)
                        } else if j <= i + n {
                            old_free.subrange(0, i as int)
                        } else {
                            old_free.subrange(0, i as int).add(old_free.subrange(i + n, j as int))
                        },
                    decreases len - j,
                {
                    if j < i || j >= i + n {
                        rest.push(self.free_pages[j]);
                    }
                    j = j + 1;
                    proof {
                        assert(rest@ =~= if j <= i {
                            old_free.subrange(0, j as int)
                        } else if j <= i + n {
                            old_free.subrange(0, i as int)
                        } else {
                            old_free.subrange(0, i as int).add(old_free.subrange(i + n, j as int))
                        });
                    }
                }
                self.free_pages = rest;
                proof {
                    lemma_remove_window(old_free, i as int, n as int, self.free_pages@, start);
                    assert forall|k: u64|
                        k < n implies #[trigger] old(self).in_free((start + k) as u64) && !(
                    #[trigger] old(self).in_pending((start + k) as u64)) by {
                        assert(old_free.contains((start + k) as u64));
                        assert(old(self).in_free((start + k) as u64));
                    }
                    assert forall|id: PageId| !(self.in_free(id) && self.in_pending(id)) by {
                        if self.in_free(id) {
                            assert(old_free.contains(id));
                            assert(old(self).in_free(id));
                        }
                    }
                }
                return Some(start);
            }
            i = i + 1;
        }
        proof {
            assert forall|start: PageId|
                start + n - 1 <= u64::MAX implies !(#[trigger] old(self).has_free_run(
                start,
                n as int,
            )) by {
                if old(self).has_free_run(start, n as int) {
                    assert forall|k: u64|
                        k < n implies #[trigger] old(self).free_pages@.contains(
                        (start + k) as u64,
                    ) by {
                        assert(old(self).in_free((start + k) as u64));
                    }
                    assert(old(self).free_pages@.contains((start + 0) as u64));
                    let j = choose|j: int|
                        0 <= j < old(self).free_pages@.len() && old(self).free_pages@[j] == start;
                    lemma_run_window(old(self).free_pages@, j, n as int);
                    assert(j + n <= len);
                    assert(j < i);
                    lemma_run_window_step(old(self).free_pages@, j, n as int, n - 1);
                    assert(old(self).free_pages@[j + n - 1] == old(self).free_pages@[j] + (n - 1));
                }
            }
        }
        None
    }

    /// Records that the writing transaction `tx_id` retired `page_id`:
    /// the page goes to `pending_pages[tx_id]`, not to the free partition,
    /// since an older reader snapshot may still reference it.
    pub fn free(&mut self, tx_id: u64, page_id: PageId)
        requires
            old(self).wf(),
            !old(self).in_free(page_id),
            !old(self).in_pending(page_id),
            forall|i: int|
                0 <= i < old(self).pending_pages@.len() ==> (
                #[trigger] old(self).pending_pages@[i]).0 <= tx_id,
        ensures
            final(self).wf(),
            final(self).free_pages@ == old(self).free_pages@,
            forall|id: PageId|
                final(self).in_pending(id) <==> (old(self).in_pending(id) || id == page_id),
            final(self).in_pending_of(tx_id, page_id),
            forall|t: u64, id: PageId|
                #[trigger] old(self).in_pending_of(t, id) ==> final(self).in_pending_of(t, id),
            forall|i: int|
                0 <= i < final(self).pending_pages@.len() ==> (
                #[trigger] final(self).pending_pages@[i]).0 <= tx_id,
    {
        let np = self.pending_pages.len();
        if np > 0 {
            let last_key = self.pending_pages[np - 1].0;
            if last_key == tx_id {
                let mut entry = self.pending_pages.remove(np - 1);
                let ghost trimmed = *self;
                insert_sorted(&mut entry.1, page_id);
                self.pending_pages.push(entry);
                proof {
                    let fl = *self;
                    let ofl = *old(self);
                    let n2 = fl.pending_pages@.len();
                    assert(n2 == np);
                    assert(forall|i: int|
                        0 <= i < n2 - 1 ==> fl.pending_pages@[i] == ofl.pending_pages@[i]);
                    assert(fl.pending_pages@[n2 - 1].0 == tx_id);
                    assert(fl.pending_pages@[n2 - 1].1@.contains(page_id));
                    assert(forall|id: PageId|
                        #[trigger] fl.pending_pages@[n2 - 1].1@.contains(id) <==> (
                        ofl.pending_pages@[n2 - 1].1@.contains(id) || id == page_id));
                    assert forall|id: PageId|
                        fl.in_pending(id) <==> (ofl.in_pending(id) || id == page_id) by {
                        if fl.in_pending(id) {
                            let i = choose|i: int|
                                0 <= i < n2 && fl.pending_pages@[i].1@.contains(id);
                            if i < n2 - 1 {
                                assert(ofl.pending_pages@[i].1@.contains(id));
                            }
                        }
                        if ofl.in_pending(id) {
                            let i = choose|i: int|
                                0 <= i < n2 && ofl.pending_pages@[i].1@.contains(id);
                            if i < n2 - 1 {
                                assert(fl.pending_pages@[i].1@.contains(id));
                            } else {
                                assert(fl.pending_pages@[n2 - 1].1@.contains(id));
                            }
                        }
                    }
                    assert forall|t: u64, id: PageId| #[trigger]
                        ofl.in_pending_of(t, id) implies fl.in_pending_of(t, id) by {
                        let i = choose|i: int|
                            0 <= i < ofl.pending_pages@.len() && ofl.pending_pages@[i].0 == t
                                && ofl.pending_pages@[i].1@.contains(id);
                        if i < n2 - 1 {
                            assert(fl.pending_pages@[i].0 == t && fl.pending_pages@[i].1@.contains(
                                id,
                            ));
                        } else {
                            assert(fl.pending_pages@[n2 - 1].0 == t);
                            assert(fl.pending_pages@[n2 - 1].1@.contains(id));
                        }
                    }
                }
                return ;
            }
        }
        let mut ids: Vec<PageId> = Vec::new();
        ids.push(page_id);
        self.pending_pages.push((tx_id, ids));
        proof {
            let fl = *self;
            let ofl = *old(self);
            let n2 = fl.pending_pages@.len();
            assert(fl.pending_pages@[n2 - 1].1@.contains(page_id)) by {
                assert(fl.pending_pages@[n2 - 1].1@[0] == page_id);
            }
            assert(sorted_strict(fl.pending_pages@[n2 - 1].1@));
            if np > 0 {
                assert(ofl.pending_pages@[np - 1].0 < tx_id);
            }
            assert forall|id: PageId|
                fl.in_pending(id) <==> (ofl.in_pending(id) || id == page_id) by {
                if fl.in_pending(id) {
                    let i = choose|i: int| 0 <= i < n2 && fl.pending_pages@[i].1@.contains(id);
                    if i < n2 - 1 {
                        assert(ofl.pending_pages@[i].1@.contains(id));
                    } else {
                        if id != page_id {
                            assert(fl.pending_pages@[n2 - 1].1@ =~= seq![page_id]);
                        }
                    }
                }
                if ofl.in_pending(id) {
                    let i = choose|i: int|
                        0 <= i < n2 - 1 && ofl.pending_pages@[i].1@.contains(id);
                    assert(fl.pending_pages@[i].1@.contains(id));
                }
            }
            assert forall|t: u64, id: PageId| #[trigger]
                ofl.in_pending_of(t, id) implies fl.in_pending_of(t, id) by {
                let i = choose|i: int|
                    0 <= i < ofl.pending_pages@.len() && ofl.pending_pages@[i].0 == t
                        && ofl.pending_pages@[i].1@.contains(id);
                assert(fl.pending_pages@[i].0 == t && fl.pending_pages@[i].1@.contains(id));
            }
        }
    }

    /// Whether the page id is in the free partition.
    pub fn contains_free(&self, id: PageId) -> (r: bool)
        ensures
            r == self.in_free(id),
    {
        let n = self.free_pages.len();
        let mut i: usize = 0;
        while i < n
            invariant
                0 <= i <= n,
                n == self.free_pages@.len(),
                forall|j: int| 0 <= j < i ==> self.free_pages@[j] != id,
            decreases n - i,
        {
            if self.free_pages[i] == id {
                return true;
            }
            i = i + 1;
        }
        false
    }

    /// Whether the page id is pending under any transaction.
    pub fn contains_pending(&self, id: PageId) -> (r: bool)
        ensures
            r == self.in_pending(id),
    {
        let n = self.pending_pages.len();
        let mut i: usize = 0;
        while i < n
            invariant
                0 <= i <= n,
                n == self.pending_pages@.len(),
                forall|j: int, w: int|
                    0 <= j < i && 0 <= w < self.pending_pages@[j].1@.len() ==> (
                    #[trigger] self.pending_pages@[j].1@[w]) != id,
            decreases n - i,
        {
            let entry_len = self.pending_pages[i].1.len();
            let mut w: usize = 0;
            while w < entry_len
                invariant
                    0 <= w <= entry_len,
                    0 <= i < n,
                    n == self.pending_pages@.len(),
                    entry_len == self.pending_pages@[i as int].1@.len(),
                    forall|m: int| 0 <= m < w ==> self.pending_pages@[i as int].1@[m] != id,
                decreases entry_len - w,
            {
                if self.pending_pages[i].1[w] == id {
                    proof {
                        assert(self.pending_pages@[i as int].1@.contains(id));
                    }
                    return true;
                }
                w = w + 1;
            }
            i = i + 1;
        }
        proof {
            if self.in_pending(id) {
                let j = choose|j: int|
                    0 <= j < self.pending_pages@.len() && self.pending_pages@[j].1@.contains(id);
                let w = choose|w: int|
                    0 <= w < self.pending_pages@[j].1@.len() && self.pending_pages@[j].1@[w] == id;
            }
        }
        false
    }

    /// Retires `page_id` under transaction `tx_id` after checking at run
    /// time that the page is tracked nowhere else and that `tx_id` is not
    /// older than any pending generation; returns whether it did. A
    /// refusal means the page is already tracked, or a newer generation
    /// is already pending.
    pub fn retire(&mut self, tx_id: u64, page_id: PageId) -> (r: bool)
        requires
            old(self).wf(),
        ensures
            final(self).wf(),
            r ==> final(self).in_pending_of(tx_id, page_id),
            r ==> forall|id: PageId|
                final(self).in_pending(id) <==> (old(self).in_pending(id) || id == page_id),
            r ==> forall|i: int|
                0 <= i < final(self).pending_pages@.len() ==> (
                #[trigger] final(self).pending_pages@[i]).0 <= tx_id,
            !r ==> *final(self) == *old(self),
            !r ==> old(self).in_free(page_id) || old(self).in_pending(page_id) || exists|i: int|
                0 <= i < old(self).pending_pages@.len() && (
                #[trigger] old(self).pending_pages@[i]).0 > tx_id,
            final(self).free_pages@ == old(self).free_pages@,
            forall|t: u64, id: PageId|
                #[trigger] old(self).in_pending_of(t, id) ==> final(self).in_pending_of(t, id),
    {
        if self.contains_free(page_id) || self.contains_pending(page_id) {
            return false;
        }
        let np = self.pending_pages.len();
        if np > 0 {
            let last_key = self.pending_pages[np - 1].0;
            if last_key > tx_id {
                return false;
            }
            proof {
                assert forall|i: int|
                    0 <= i < self.pending_pages@.len() implies (
                #[trigger] self.pending_pages@[i]).0 <= tx_id by {
                    if i < np - 1 {
                        assert(self.pending_pages@[i].0 < self.pending_pages@[np - 1].0);
                    }
                }
            }
        }
        self.free(tx_id, page_id);
        true
    }

    /// Moves every pending entry retired by a transaction strictly older
    /// than the watermark (the oldest open reader) into the free
    /// partition and drops the entry. This is the only path by which a
    /// page becomes reusable.
    pub fn release_pending(&mut self, watermark: u64)
        requires
            old(self).wf(),
        ensures
            released_from(final(self), old(self), watermark),
            final(self).wf(),
            forall|id: PageId|
                final(self).in_free(id) <==> (old(self).in_free(id) || exists|i: int|
                    0 <= i < old(self).pending_pages@.len() && (#[trigger] old(
                        self,
                    ).pending_pages@[i]).0 < watermark && old(self).pending_pages@[i].1@.contains(
                        id,
                    )),
            forall|i: int|
                0 <= i < final(self).pending_pages@.len() ==> (
                #[trigger] final(self).pending_pages@[i]).0 >= watermark,
            forall|tx: u64, id: PageId|
                #[trigger] final(self).in_pending_of(tx, id) <==> (old(self).in_pending_of(tx, id)
                    && tx >= watermark),
    {
        let ghost opp = old(self).pending_pages@;
        let ghost mut p: int = 0;
        let mut go = self.pending_pages.len() > 0 && self.pending_pages[0].0 < watermark;
        while go
            invariant
                0 <= p <= opp.len(),
                opp == old(self).pending_pages@,
                self.pending_pages@ == opp.skip(p),
                go == (self.pending_pages@.len() > 0 && self.pending_pages@[0].0 < watermark),
                old(self).wf(),
                self.wf(),
                forall|m: int| 0 <= m < p ==> (#[trigger] opp[m]).0 < watermark,
                forall|id: PageId|
                    self.in_free(id) <==> (old(self).in_free(id) || exists|m: int|
                        0 <= m < p && (#[trigger] opp[m]).1@.contains(id)),
            decreases self.pending_pages@.len(),
        {
            let entry = self.pending_pages.remove(0);
            proof {
                assert(entry == opp[p]);
                assert(self.pending_pages@ =~= opp.skip(p + 1));
            }
            let ghost before = *self;
            let mut k: usize = 0;
            let nk = entry.1.len();
            while k < nk
                invariant
                    0 <= k <= nk,
                    nk == entry.1@.len(),
                    0 <= p < opp.len(),
                    entry == opp[p as int],
                    opp == old(self).pending_pages@,
                    old(self).wf(),
                    sorted_strict(entry.1@),
                    sorted_strict(self.free_pages@),
                    self.pending_pages@ == before.pending_pages@,
                    free_extended(*self, before, entry.1@, k as int),
                    forall|id: PageId|
                        before.in_free(id) <==> (old(self).in_free(id) || exists|m: int|
                            0 <= m < p && (#[trigger] opp[m]).1@.contains(id)),
                decreases nk - k,
            {
                proof {
                    let id = entry.1@[k as int];
                    assert(entry.1@.contains(id));
                    assert(old(self).in_pending(id)) by {
                        assert(opp[p as int].1@.contains(id));
                    }
                    assert(!old(self).in_free(id));
                    assert(!self.free_pages@.contains(id)) by {
                        if self.in_free(id) {
                            if before.in_free(id) {
                                let m = choose|m: int|
                                    0 <= m < p && (#[trigger] opp[m]).1@.contains(id);
                                assert(false);
                            } else {
                                let m = choose|m: int| 0 <= m < k && entry.1@[m] == id;
                                assert(entry.1@[m] < entry.1@[k as int]);
                            }
                        }
                    }
                }
                let ghost mid = *self;
                insert_sorted(&mut self.free_pages, entry.1[k]);
                proof {
                    assert forall|id: PageId|
                        self.in_free(id) <==> (before.in_free(id) || exists|m: int|
                            0 <= m < k + 1 && entry.1@[m] == id) by {
                        assert(free_extended(mid, before, entry.1@, k as int));
                        if self.in_free(id) {
                            if id == entry.1@[k as int] {
                                assert(entry.1@[k as int] == id);
                            } else {
                                assert(mid.in_free(id));
                                if !before.in_free(id) {
                                    let m = choose|m: int| 0 <= m < k && entry.1@[m] == id;
                                    assert(0 <= m < k + 1 && entry.1@[m] == id);
                                }
                            }
                        }
                        if before.in_free(id) {
                            assert(mid.in_free(id));
                            assert(self.in_free(id));
                        }
                        if exists|m: int| 0 <= m < k + 1 && entry.1@[m] == id {
                            let m = choose|m: int| 0 <= m < k + 1 && entry.1@[m] == id;
                            if m < k {
                                assert(mid.in_free(id));
                                assert(self.in_free(id));
                            } else {
                                assert(id == entry.1@[k as int]);
                                assert(self.in_free(id));
                            }
                        }
                    }
                    assert(free_extended(*self, before, entry.1@, k + 1));
                }
                k = k + 1;
            }
            proof {
                assert(free_extended(*self, before, entry.1@, nk as int));
                p = p + 1;
                assert(entry == opp[p - 1]);
                assert forall|id: PageId|
                    self.in_free(id) <==> (old(self).in_free(id) || exists|m: int|
                        0 <= m < p && (#[trigger] opp[m]).1@.contains(id)) by {
                    if self.in_free(id) {
                        if !before.in_free(id) {
                            let m = choose|m: int| 0 <= m < nk && entry.1@[m] == id;
                            assert(opp[p - 1].1@.contains(id));
                        }
                    }
                    if old(self).in_free(id) {
                        assert(before.in_free(id));
                    }
                    if exists|m: int| 0 <= m < p && (#[trigger] opp[m]).1@.contains(id) {
                        let m = choose|m: int| 0 <= m < p && (#[trigger] opp[m]).1@.contains(id);
                        if m < p - 1 {
                            assert(before.in_free(id));
                        } else {
                            assert(m == p - 1);
                            assert(opp[m] == entry);
                            let w = choose|w: int| 0 <= w < opp[m].1@.len() && opp[m].1@[w] == id;
                            assert(entry.1@[w] == id);
                            assert(self.in_free(id));
                        }
                    }
                }
                assert forall|id: PageId| !(self.in_free(id) && self.in_pending(id)) by {
                    if self.in_free(id) && self.in_pending(id) {
                        let m = choose|m: int|
                            0 <= m < self.pending_pages@.len() && self.pending_pages@[m].1@
                                .contains(id);
                        assert(opp[m + p].1@.contains(id));
                        if old(self).in_free(id) {
                            assert(old(self).in_pending(id));
                        } else {
                            let m2 = choose|m2: int|
                                0 <= m2 < p && (#[trigger] opp[m2]).1@.contains(id);
                            assert(m2 < m + p);
                        }
                    }
                }
            }
            go = self.pending_pages.len() > 0 && self.pending_pages[0].0 < watermark;
        }
        proof {
            assert forall|m: int| 0 <= m < opp.len() implies ((#[trigger] opp[m]).0 < watermark
                <==> m < p) by {
                if m >= p {
                    assert(opp[m] == self.pending_pages@[m - p]);
                    if m > p {
                        assert(self.pending_pages@[0].0 < opp[m].0);
                    }
                }
            }
            assert forall|id: PageId|
                self.in_free(id) <==> (old(self).in_free(id) || exists|i: int|
                    0 <= i < opp.len() && (#[trigger] opp[i]).0 < watermark
                        && opp[i].1@.contains(id)) by {
                if exists|i: int|
                    0 <= i < opp.len() && (#[trigger] opp[i]).0 < watermark && opp[i].1@.contains(
                    id,
                ) {
                    let i = choose|i: int|
                        0 <= i < opp.len() && (#[trigger] opp[i]).0 < watermark
                            && opp[i].1@.contains(id);
                    assert(i < p);
                }
                if exists|m: int| 0 <= m < p && (#[trigger] opp[m]).1@.contains(id) {
                    let m = choose|m: int| 0 <= m < p && (#[trigger] opp[m]).1@.contains(id);
                    assert(opp[m].0 < watermark && opp[m].1@.contains(id));
                }
            }
            assert forall|tx: u64, id: PageId| #[trigger]
                self.in_pending_of(tx, id) <==> (old(self).in_pending_of(tx, id) && tx
                    >= watermark) by {
                if self.in_pending_of(tx, id) {
                    let i = choose|i: int|
                        0 <= i < self.pending_pages@.len() && self.pending_pages@[i].0 == tx
                            && self.pending_pages@[i].1@.contains(id);
                    assert(opp[i + p] == self.pending_pages@[i]);
                    assert(old(self).in_pending_of(tx, id));
                    assert(opp[i + p].0 >= watermark);
                }
                if old(self).in_pending_of(tx, id) && tx >= watermark {
                    let i = choose|i: int|
                        0 <= i < opp.len() && opp[i].0 == tx && opp[i].1@.contains(id);
                    assert(i >= p);
                    assert(self.pending_pages@[i - p] == opp[i]);
                    assert(self.in_pending_of(tx, id));
                }
            }
        }
    }
}

/// `cur` is `base` with exactly the pending generations strictly below
/// `w` released into the free partition: the release-at-watermark
/// relation between a writer's private freelist and the canonical one.
pub open spec fn released_from(cur: &Freelist, base: &Freelist, w: u64) -> bool {
    &&& forall|id: PageId|
        cur.in_free(id) <==> (base.in_free(id) || exists|i: int|
            0 <= i < base.pending_pages@.len() && (#[trigger] base.pending_pages@[i]).0 < w
                && base.pending_pages@[i].1@.contains(id))
    &&& forall|i: int|
        0 <= i < cur.pending_pages@.len() ==> (#[trigger] cur.pending_pages@[i]).0 >= w
    &&& forall|t: u64, id: PageId|
        #[trigger] cur.in_pending_of(t, id) <==> (base.in_pending_of(t, id) && t >= w)
}

/// Freelist disjointness: under the freelist's invariant, which every
/// operation preserves, no page id is ever both immediately free and
/// pending reclamation; and `allocate` only ever hands out ids that were
/// free, so no pending page is ever allocated.
pub proof fn lemma_freelist_disjoint(fl: &Freelist)
    requires
        fl.wf(),
    ensures
        forall|id: PageId| !(fl.in_free(id) && fl.in_pending(id)),
{
}

/// The free partition of `cur` is that of `base` extended by exactly the
/// first `k` ids of `ids`.
pub open spec fn free_extended(cur: Freelist, base: Freelist, ids: Seq<u64>, k: int) -> bool {
    forall|id: PageId|
        cur.in_free(id) <==> (base.in_free(id) || exists|m: int| 0 <= m < k && ids[m] == id)
}

/// A sorted window of `n` consecutive ids is a run in the id space.
proof fn lemma_window_is_run(s: Seq<u64>, i: int, n: int)
    requires
        sorted_strict(s),
        n >= 1,
        0 <= i,
        i + n <= s.len(),
        s[i + n - 1] - s[i] == n - 1,
    ensures
        forall|k: u64| k < n ==> #[trigger] s.contains((s[i] + k) as u64),
        s[i] + n - 1 <= u64::MAX,
{
    assert forall|k: u64| k < n implies #[trigger] s.contains((s[i] + k) as u64) by {
        lemma_window_dense(s, i, n, k as int);
        assert(s[i + k] == s[i] + k);
        assert(s[i + k] == (s[i] + k) as u64);
    }
    assert(s[i + n - 1] <= u64::MAX);
}

/// In a strictly sorted window whose ends differ by exactly its length,
/// every position is dense: `s[i + k] == s[i] + k`.
proof fn lemma_window_dense(s: Seq<u64>, i: int, n: int, k: int)
    requires
        sorted_strict(s),
        n >= 1,
        0 <= i,
        i + n <= s.len(),
        s[i + n - 1] - s[i] == n - 1,
        0 <= k < n,
    ensures
        s[i + k] == s[i] + k,
{
    lemma_sorted_gap(s, i, i + k);
    lemma_sorted_gap(s, i + k, i + n - 1);
}

/// Strict sortedness forces at least unit gaps between positions.
proof fn lemma_sorted_gap(s: Seq<u64>, i: int, j: int)
    requires
        sorted_strict(s),
        0 <= i <= j < s.len(),
    ensures
        s[j] >= s[i] + (j - i),
    decreases j - i,
{
    if i < j {
        lemma_sorted_gap(s, i, j - 1);
    }
}

/// If every id of a run starting at `s[j]` is present, the run occupies
/// the window right of `j`: `s[j + k] == s[j] + k`.
proof fn lemma_run_window(s: Seq<u64>, j: int, n: int)
    requires
        sorted_strict(s),
        n >= 1,
        0 <= j < s.len(),
        s[j] + n - 1 <= u64::MAX,
        forall|k: u64| k < n ==> #[trigger] s.contains((s[j] + k) as u64),
    ensures
        j + n <= s.len(),
        forall|k: int| 0 <= k < n ==> j + k < s.len() && #[trigger] s[j + k] == s[j] + k,
{
    assert forall|k: int| 0 <= k < n implies j + k < s.len() && #[trigger] s[j + k] == s[j]
        + k by {
        lemma_run_window_step(s, j, n, k);
    }
    lemma_run_window_step(s, j, n, n - 1);
    assert(j + n <= s.len());
}

/// One step of `lemma_run_window`, by induction over the offset.
proof fn lemma_run_window_step(s: Seq<u64>, j: int, n: int, k: int)
    requires
        sorted_strict(s),
        n >= 1,
        0 <= j < s.len(),
        s[j] + n - 1 <= u64::MAX,
        forall|kk: u64| kk < n ==> #[trigger] s.contains((s[j] + kk) as u64),
        0 <= k < n,
    ensures
        j + k < s.len(),
        s[j + k] == s[j] + k,
    decreases k,
{
    if k == 0 {
    } else {
        lemma_run_window_step(s, j, n, k - 1);
        assert(s.contains((s[j] + k as u64) as u64));
        assert((s[j] + k as u64) as u64 == s[j] + k);
        let m = choose|m: int| 0 <= m < s.len() && s[m] == s[j] + k;
        assert(m > j + k - 1) by {
            if m <= j + k - 1 {
                lemma_sorted_gap(s, m, j + k - 1);
            }
        }
        lemma_sorted_gap(s, j + k - 1, m);
        assert(s[m] >= s[j + k - 1] + (m - (j + k - 1)));
        assert(m == j + k);
    }
}

/// A run of `n` ids needs `n` distinct elements.
proof fn lemma_run_needs_length(s: Seq<u64>, start: u64, n: u64)
    requires
        sorted_strict(s),
        n >= 1,
        start + n - 1 <= u64::MAX,
        forall|k: u64| k < n ==> #[trigger] s.contains((start + k) as u64),
    ensures
        s.len() >= n,
{
    assert(s.contains((start + 0) as u64));
    let j = choose|j: int| 0 <= j < s.len() && s[j] == start;
    assert(s[j] == start);
    lemma_run_window(s, j, n as int);
}

/// Removing a dense window from a sorted sequence removes exactly the run.
proof fn lemma_remove_window(s: Seq<u64>, i: int, n: int, t: Seq<u64>, start: u64)
    requires
        sorted_strict(s),
        n >= 1,
        0 <= i,
        i + n <= s.len(),
        s[i + n - 1] - s[i] == n - 1,
        start == s[i],
        t == s.subrange(0, i).add(s.subrange(i + n, s.len() as int)),
    ensures
        sorted_strict(t),
        forall|id: u64| #[trigger] t.contains(id) <==> (s.contains(id) && !(start <= id < start + n)),
{
    assert forall|k: int| 0 <= k < n implies #[trigger] s[i + k] == s[i] + k by {
        lemma_window_dense(s, i, n, k);
    }
    assert forall|id: u64| #[trigger] t.contains(id) implies (s.contains(id) && !(start <= id
        < start + n)) by {
        let m = choose|m: int| 0 <= m < t.len() && t[m] == id;
        if m < i {
            assert(s[m] == id);
            assert(s.contains(id));
            if start <= id < start + n {
                lemma_sorted_gap(s, m, i);
            }
        } else {
            assert(s[m + n] == id);
            assert(s.contains(id));
            if start <= id < start + n {
                lemma_sorted_gap(s, i + n - 1, m + n);
            }
        }
    }
    assert forall|id: u64| (s.contains(id) && !(start <= id < start + n)) implies #[trigger] t
        .contains(id) by {
        let m = choose|m: int| 0 <= m < s.len() && s[m] == id;
        if m < i {
            assert(t[m] == id);
            assert(t.contains(id));
        } else if m >= i + n {
            assert(t[m - n] == id);
            assert(t.contains(id));
        } else {
            assert(s[m] == s[i] + (m - i));
        }
    }
    assert forall|p: int, q: int| 0 <= p < q < t.len() implies t[p] < t[q] by {
        let sp: int = if p < i {
            p
        } else {
            p + n
        };
        let sq: int = if q < i {
            q
        } else {
            q + n
        };
        assert(t[p] == s[sp] && t[q] == s[sq]);
    }
}

/// Inserts `id` into a strictly sorted vector, keeping it strictly sorted.
pub fn insert_sorted(v: &mut Vec<u64>, id: u64)
    requires
        sorted_strict(old(v)@),
        !old(v)@.contains(id),
    ensures
        sorted_strict(final(v)@),
        forall|x: u64| #[trigger] final(v)@.contains(x) <==> (old(v)@.contains(x) || x == id),
        final(v)@.len() == old(v)@.len() + 1,
{
    let n = v.len();
    let mut i: usize = 0;
    let mut scanning = i < n && v[i] < id;
    while scanning
        invariant
            0 <= i <= n,
            n == v@.len(),
            v@ == old(v)@,
            scanning == (i < n && v@[i as int] < id),
            forall|j: int| 0 <= j < i ==> v@[j] < id,
        decreases n - i,
    {
        i = i + 1;
        scanning = i < n && v[i] < id;
    }
    proof {
        if i < n {
            assert(v@.contains(v@[i as int]));
            assert(v@[i as int] != id);
            assert(v@[i as int] > id);
        }
    }
    v.insert(i, id);
    proof {
        let t = v@;
        let s = old(v)@;
        assert forall|p: int, q: int| 0 <= p < q < t.len() implies t[p] < t[q] by {
            assert(t[p] == if p < i {
                s[p]
            } else if p == i {
                id
            } else {
                s[p - 1]
            });
            assert(t[q] == if q < i {
                s[q]
            } else if q == i {
                id
            } else {
                s[q - 1]
            });
        }
        assert forall|x: u64| #[trigger] t.contains(x) implies (s.contains(x) || x == id) by {
            let m = choose|m: int| 0 <= m < t.len() && t[m] == x;
            if m < i {
                assert(s[m] == x);
                assert(s.contains(x));
            } else if m > i {
                assert(s[m - 1] == x);
                assert(s.contains(x));
            }
        }
        assert forall|x: u64| (s.contains(x) || x == id) implies #[trigger] t.contains(x) by {
            if x == id {
                assert(t[i as int] == x);
            } else {
                let m = choose|m: int| 0 <= m < s.len() && s[m] == x;
                if m < i {
                    assert(t[m] == x);
                } else {
                    assert(t[m + 1] == x);
                }
            }
        }
    }
}

} // verus!
