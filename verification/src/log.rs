//! The log of a node.

use crate::batch::{
    batches_fit, ends_at, full_batch, lemma_full_batch_agree, lemma_full_batch_monotone,
    lemma_full_batch_reaches, lemma_total_agree, lemma_total_first, lemma_total_split, total,
};
use crate::entry::{LogEntry, LogIndex, ProposeId};
use crate::fallback::FallbackContext;
use crate::ids::IdBag;
use crate::model::{
    contiguous, ids_of, indexes_of, lemma_ids_of_contains, lemma_ids_of_empty, lemma_ids_of_len,
    lemma_ids_of_push, lemma_ids_of_remove, lemma_leading, LogState,
};
use crate::range::LogRange;
use crate::snapshot::SnapshotMeta;
use crate::std_ext::set_at;
use std::collections::{HashMap, VecDeque};
use std::sync::Arc;
use vstd::prelude::*;

verus! {

broadcast use vstd::std_specs::hash::group_hash_axioms;

/// An entry in memory with the size of its encoding.
#[derive(Debug)]
pub struct Entry<C> {
    /// The entry
    pub inner: Arc<LogEntry<C>>,
    /// The size of its encoding
    pub size: u64,
}

/// The entries of the log that a node keeps in memory.
///
/// The entries have consecutive indexes, behind those of a prefix that is no longer in memory and
/// of which only the last index and term are known (`base_index`, `base_term`). Entries are sent
/// in batches whose sizes stay within `batch_limit`; where the batch from each entry ends is kept
/// up to date with every change of the log.
pub struct Log<C> {
    /// The entries in memory. The position of an entry is not its index.
    pub entries: VecDeque<Entry<C>>,
    /// For each entry the index of the last entry of the batch that starts with it, or 0 where
    /// the batch is still open
    pub batch_end: VecDeque<LogIndex>,
    /// The limit on the size of a batch
    pub batch_limit: u64,
    /// The position of the first entry whose batch is still open
    pub first_idx_in_cur_batch: usize,
    /// The sum of the sizes from that entry on
    pub cur_batch_size: u64,
    /// The index of the last entry that was compacted
    pub base_index: LogIndex,
    /// The term of the last entry that was compacted
    pub base_term: u64,
    /// The index of the highest entry known to be committed
    pub commit_index: LogIndex,
    /// The index of the highest entry handed to after-sync, at most `last_exe`
    pub last_as: LogIndex,
    /// The index of the highest entry handed to speculative execution, at least `last_as`
    pub last_exe: LogIndex,
    /// The contexts of the membership changes that may have to be undone
    pub fallback_contexts: HashMap<LogIndex, FallbackContext<C>>,
    /// The number of applied entries to keep in memory
    pub entries_cap: usize,
    /// The proposal ids of the entries
    pub cmd_ids: IdBag,
}

/// The value behind a pointer.
pub open spec fn pointee<T>(arc: Arc<T>) -> T {
    *arc
}

/// The values behind a sequence of pointers.
pub open spec fn pointees<T>(arcs: Seq<Arc<T>>) -> Seq<T> {
    arcs.map_values(|arc: Arc<T>| *arc)
}

/// The entries behind their pointers.
pub open spec fn inners<C>(entries: Seq<Entry<C>>) -> Seq<LogEntry<C>> {
    entries.map_values(|e: Entry<C>| *e.inner)
}

/// The sizes that are kept with the entries.
pub open spec fn kept_sizes<C>(entries: Seq<Entry<C>>) -> Seq<nat> {
    entries.map_values(|e: Entry<C>| e.size as nat)
}

impl<C> View for Log<C> {
    type V = LogState<C>;

    open spec fn view(&self) -> LogState<C> {
        LogState {
            entries: inners(self.entries@),
            sizes: kept_sizes(self.entries@),
            batch_limit: self.batch_limit as nat,
            entries_cap: self.entries_cap as nat,
            base_index: self.base_index as nat,
            base_term: self.base_term as nat,
            commit_index: self.commit_index as nat,
            last_as: self.last_as as nat,
            last_exe: self.last_exe as nat,
            fallback_contexts: self.fallback_contexts@,
        }
    }
}

impl<C> Log<C> {
    /// Whether the records of the batches and of the proposal ids are those of the entries.
    pub open spec fn consistent(&self) -> bool {
        &&& batches_fit(
            indexes_of(self@.entries),
            self@.sizes,
            self.batch_limit as nat,
            self.batch_end@,
            self.first_idx_in_cur_batch as int,
            self.cur_batch_size as int,
        )
        &&& self.cmd_ids.wf()
        &&& self.cmd_ids@ == ids_of(self@.entries)
    }

    /// Whether the log is well-formed if the index of the last compacted entry is `base`.
    pub open spec fn wf_behind(&self, base: int) -> bool {
        &&& contiguous(self@.entries, base)
        &&& self.consistent()
    }

    /// Whether the log is well-formed: the entries have consecutive indexes behind `base_index`,
    /// and the records of the batches and of the proposal ids are those of the entries.
    pub open spec fn wf(&self) -> bool {
        self.wf_behind(self.base_index as int)
    }

    /// Creates an empty log.
    pub fn new(batch_limit: u64, entries_cap: usize) -> (log: Self)
        ensures
            log.wf(),
            log@ == LogState::<C>::initial(batch_limit as nat, entries_cap as nat),
    {
        let log = Log {
            entries: VecDeque::new(),
            batch_end: VecDeque::new(),
            batch_limit,
            first_idx_in_cur_batch: 0,
            cur_batch_size: 0,
            base_index: 0,
            base_term: 0,
            commit_index: 0,
            last_as: 0,
            last_exe: 0,
            fallback_contexts: HashMap::new(),
            entries_cap,
            cmd_ids: IdBag::new(),
        };
        proof {
            lemma_ids_of_empty::<C>();
            assert(log@.entries =~= Seq::<LogEntry<C>>::empty());
            assert(log@.sizes =~= Seq::<nat>::empty());
        }
        log
    }

    /// Appends an entry of the given size.
    pub fn push_back(&mut self, inner: Arc<LogEntry<C>>, size: u64)
        requires
            old(self).consistent(),
            old(self).batch_limit > 0,
        ensures
            final(self).consistent(),
            final(self)@ == old(self)@.pushed(*inner, size as nat),
            old(self).wf() && inner.index == old(self).base_index + 1 + old(self).entries@.len()
                ==> final(self).wf(),
    {
        let ghost before = *self;
        let ghost entry = pointee(inner);
        let ghost n = self.entries@.len() as int;
        let ghost limit = self.batch_limit as nat;
        let id = inner.propose_id;
        self.entries.push_back(Entry { inner, size });
        self.batch_end.push_back(0);
        proof {
            lemma_ids_of_push(before@.entries, entry);
            lemma_ids_of_len(before@.entries);
            assert(self.entries.len() == n + 1);
        }
        self.cmd_ids.insert(id);
        let ghost grown = *self;
        let ghost sizes = self@.sizes;
        let ghost indexes = indexes_of(self@.entries);
        proof {
            assert(self@.entries =~= before@.entries.push(entry));
            assert(sizes =~= before@.sizes.push(size as nat));
            assert forall|i: int| 0 <= i <= n implies total(sizes, i, n) == total(
                before@.sizes,
                i,
                n,
            ) by {
                lemma_total_agree(sizes, before@.sizes, 0, i, n);
            }
            let first = before.first_idx_in_cur_batch as int;
            assert(total(sizes, first, n) == total(before@.sizes, first, n));
            assert forall|i: int| first <= i <= n implies total(sizes, i, n) < limit by {
                lemma_total_split(sizes, first, i, n);
            }
            assert forall|i: int| 0 <= i < first implies ends_at(
                indexes,
                sizes,
                limit,
                i,
                #[trigger] self.batch_end@[i],
            ) by {
                let end = before.batch_end@[i];
                let right = choose|right: int| #[trigger]
                    full_batch(before@.sizes, limit, i, right) && indexes_of(
                        before@.entries,
                    )[right] == end;
                lemma_full_batch_agree(before@.sizes, sizes, limit, 0, i, right);
                assert(indexes[right] == end);
            }
        }
        // the sum may exceed the range of a `u64` until full batches are closed
        let mut open_size: u128 = self.cur_batch_size as u128 + size as u128;
        while open_size >= self.batch_limit as u128
            invariant
                limit > 0,
                self.batch_limit == limit,
                self.entries@.len() == n + 1,
                sizes == kept_sizes(self.entries@),
                indexes == indexes_of(inners(self.entries@)),
                before.first_idx_in_cur_batch <= self.first_idx_in_cur_batch <= n + 1,
                open_size == total(sizes, self.first_idx_in_cur_batch as int, n + 1),
                self.batch_end@.len() == n + 1,
                forall|i: int|
                    before.first_idx_in_cur_batch <= i <= n ==> total(sizes, i, n) < limit,
                forall|i: int|
                    0 <= i < self.first_idx_in_cur_batch ==> ends_at(
                        indexes,
                        sizes,
                        limit,
                        i,
                        #[trigger] self.batch_end@[i],
                    ),
                forall|i: int|
                    self.first_idx_in_cur_batch <= i < n + 1 ==> #[trigger] self.batch_end@[i] == 0,
                *self == (Log {
                    batch_end: self.batch_end,
                    first_idx_in_cur_batch: self.first_idx_in_cur_batch,
                    ..grown
                }),
            decreases n + 1 - self.first_idx_in_cur_batch,
        {
            let first: usize = self.first_idx_in_cur_batch;
            assert(self.entries.len() == n + 1);
            let last: usize = self.entries.len() - 1;
            let right: usize = if open_size == self.batch_limit as u128 || first == last {
                last
            } else {
                last - 1
            };
            let end: LogIndex = self.entries[right].inner.index;
            set_at(&mut self.batch_end, first, end);
            proof {
                assert(total(sizes, first as int, n) < limit);
                if right == last {
                    assert(total(sizes, first as int, right as int) < limit);
                    assert(total(sizes, first as int, right + 1) == open_size);
                } else {
                    assert(total(sizes, first as int, n) == total(sizes, first as int, n - 1)
                        + sizes[n - 1]);
                    assert(total(sizes, first as int, right + 2) == open_size);
                }
                assert(full_batch(sizes, limit, first as int, right as int));
                assert(indexes[right as int] == end);
                lemma_total_first(sizes, first as int, n + 1);
            }
            open_size = open_size - self.entries[first].size as u128;
            self.first_idx_in_cur_batch = first + 1;
        }
        self.cur_batch_size = open_size as u64;
    }

    /// Shortens the log to its first `len` entries.
    pub fn truncate(&mut self, len: usize)
        requires
            old(self).wf(),
        ensures
            final(self).wf(),
            final(self)@ == old(self)@.truncated(len as nat),
    {
        if len >= self.entries.len() {
            return;
        }
        let ghost before = *self;
        let ghost base = self.base_index as int;
        let ghost limit = self.batch_limit as nat;
        let ghost all = self@.sizes;
        let ghost sizes = all.take(len as int);
        let ghost n = all.len() as int;
        proof {
            self.lemma_full_batches();
        }
        while self.entries.len() > len
            invariant
                len <= self.entries@.len() <= n,
                n == before.entries@.len(),
                self.entries@ == before.entries@.take(self.entries@.len() as int),
                self.cmd_ids.wf(),
                self.cmd_ids@ == ids_of(inners(self.entries@)),
                *self == (Log { entries: self.entries, cmd_ids: self.cmd_ids, ..before }),
            decreases self.entries@.len(),
        {
            let ghost entries = self.entries@;
            if let Some(entry) = self.entries.pop_back() {
                proof {
                    let last = entries.len() - 1;
                    lemma_ids_of_remove(inners(entries), last);
                    assert(inners(self.entries@) =~= inners(entries).remove(last));
                }
                self.cmd_ids.remove(entry.inner.propose_id);
            }
        }
        self.batch_end.truncate(len);
        if self.first_idx_in_cur_batch > len {
            self.first_idx_in_cur_batch = len;
        }
        let ghost cut = *self;
        proof {
            assert(kept_sizes(self.entries@) =~= sizes);
            let first = self.first_idx_in_cur_batch as int;
            if first < len {
                lemma_total_split(all, first, len as int, n);
            }
        }
        // the batches that ended behind the cut, or that were full only by the entry behind it,
        // are open again
        while self.first_idx_in_cur_batch > 0
            invariant
                base == self.base_index,
                limit == self.batch_limit,
                len < n <= usize::MAX,
                n == all.len(),
                sizes == all.take(len as int),
                self.entries@.len() == len,
                kept_sizes(self.entries@) == sizes,
                self.batch_end@.len() == len,
                self.first_idx_in_cur_batch <= len,
                self.first_idx_in_cur_batch < len ==> total(
                    all,
                    self.first_idx_in_cur_batch as int,
                    len as int,
                ) < limit,
                forall|i: int|
                    0 <= i < self.first_idx_in_cur_batch ==> base < #[trigger] self.batch_end@[i]
                        && full_batch(all, limit, i, self.batch_end@[i] - base - 1),
                forall|i: int|
                    self.first_idx_in_cur_batch <= i < len ==> #[trigger] self.batch_end@[i] == 0,
                *self == (Log {
                    batch_end: self.batch_end,
                    first_idx_in_cur_batch: self.first_idx_in_cur_batch,
                    ..cut
                }),
            ensures
                forall|i: int|
                    0 <= i < self.first_idx_in_cur_batch ==> base < #[trigger] self.batch_end@[i]
                        && full_batch(sizes, limit, i, self.batch_end@[i] - base - 1),
            decreases self.first_idx_in_cur_batch,
        {
            let left: usize = self.first_idx_in_cur_batch - 1;
            let end: usize = self.li_to_pi(self.batch_end[left]);
            let still_full: bool = if end < len - 1 {
                true
            } else if end > len - 1 {
                proof {
                    lemma_total_split(all, left as int, len as int, end as int);
                }
                false
            } else {
                proof {
                    lemma_total_agree(all, sizes, 0, left as int, len as int);
                    assert(total(sizes, left as int, left as int) == 0);
                }
                self.total_size(left, len) >= self.batch_limit
            };
            if still_full {
                assert forall|i: int| 0 <= i < self.first_idx_in_cur_batch implies base
                    < #[trigger] self.batch_end@[i] && full_batch(
                    sizes,
                    limit,
                    i,
                    self.batch_end@[i] - base - 1,
                ) by {
                    let right = self.batch_end@[i] - base - 1;
                    lemma_full_batch_monotone(all, limit, i, right, left as int, end as int);
                    if right == end {
                        lemma_total_split(all, i, left as int, right + 1);
                    }
                    lemma_full_batch_agree(all, sizes, limit, 0, i, right);
                }
                break;
            }
            set_at(&mut self.batch_end, left, 0);
            self.first_idx_in_cur_batch = left;
        }
        proof {
            lemma_total_agree(
                all,
                sizes,
                0,
                self.first_idx_in_cur_batch as int,
                len as int,
            );
        }
        self.cur_batch_size = self.total_size(self.first_idx_in_cur_batch, len);
        proof {
            assert(self@.entries =~= before@.entries.take(len as int));
            let indexes = indexes_of(self@.entries);
            assert forall|i: int| 0 <= i < self.first_idx_in_cur_batch implies ends_at(
                indexes,
                sizes,
                limit,
                i,
                #[trigger] self.batch_end@[i],
            ) by {
                let right = self.batch_end@[i] - base - 1;
                assert(full_batch(sizes, limit, i, right));
                assert(self@.entries[right].index == base + 1 + right);
                assert(indexes[right] == self.batch_end@[i]);
            }
        }
    }

    /// The sum of the sizes of the entries from position `from` up to, but without, `to`.
    fn total_size(&self, from: usize, to: usize) -> (sum: u64)
        requires
            from <= to <= self.entries@.len(),
            total(self@.sizes, from as int, to as int) <= u64::MAX,
        ensures
            sum == total(self@.sizes, from as int, to as int),
    {
        let mut sum: u64 = 0;
        let mut k: usize = from;
        while k < to
            invariant
                from <= k <= to <= self.entries@.len(),
                total(self@.sizes, from as int, to as int) <= u64::MAX,
                sum == total(self@.sizes, from as int, k as int),
            decreases to - k,
        {
            proof {
                lemma_total_split(self@.sizes, from as int, k + 1, to as int);
            }
            sum = sum + self.entries[k].size;
            k = k + 1;
        }
        sum
    }

    /// The position of the entry with the given index.
    pub fn li_to_pi(&self, i: LogIndex) -> (position: usize)
        requires
            i > self.base_index,
            i - self.base_index - 1 <= usize::MAX,
        ensures
            position == self@.position(i as int),
    {
        (i - self.base_index - 1) as usize
    }

    /// Removes the first entry. The caller moves `base_index` and `base_term` on to it.
    pub fn pop_front(&mut self) -> (front: Option<Arc<LogEntry<C>>>)
        requires
            old(self).consistent(),
        ensures
            final(self).consistent(),
            match front {
                Some(entry) => {
                    &&& old(self)@.entries.len() > 0
                    &&& *entry == old(self)@.entries[0]
                    &&& final(self)@ == old(self)@.popped()
                    &&& old(self).wf() ==> final(self).wf_behind(old(self).base_index + 1)
                },
                None => {
                    &&& old(self)@.entries.len() == 0
                    &&& final(self)@ == old(self)@
                },
            },
    {
        let ghost before = *self;
        let ghost all = self@.sizes;
        let ghost n = all.len() as int;
        let ghost limit = self.batch_limit as nat;
        match self.entries.pop_front() {
            Some(entry) => {
                let ghost sizes = kept_sizes(self.entries@);
                proof {
                    lemma_ids_of_remove(before@.entries, 0);
                    assert(inners(self.entries@) =~= before@.entries.remove(0));
                    assert(inners(self.entries@) =~= before@.entries.drop_first());
                    assert(sizes =~= all.drop_first());
                    lemma_total_first(all, 0, n);
                    let first = self.first_idx_in_cur_batch as int;
                    if first == 0 {
                        lemma_total_agree(all, sizes, 1, 0, n - 1);
                    } else {
                        lemma_total_agree(all, sizes, 1, first - 1, n - 1);
                    }
                }
                self.cmd_ids.remove(entry.inner.propose_id);
                if self.first_idx_in_cur_batch == 0 {
                    self.cur_batch_size = self.cur_batch_size - entry.size;
                } else {
                    self.first_idx_in_cur_batch = self.first_idx_in_cur_batch - 1;
                }
                let _ = self.batch_end.pop_front();
                proof {
                    assert(self@ =~= before@.popped());
                    let indexes = indexes_of(self@.entries);
                    assert forall|i: int| 0 <= i < self.first_idx_in_cur_batch implies ends_at(
                        indexes,
                        sizes,
                        limit,
                        i,
                        #[trigger] self.batch_end@[i],
                    ) by {
                        let end = before.batch_end@[i + 1];
                        let right = choose|right: int| #[trigger]
                            full_batch(all, limit, i + 1, right) && indexes_of(
                                before@.entries,
                            )[right] == end;
                        lemma_full_batch_agree(all, sizes, limit, 1, i, right - 1);
                        assert(indexes[right - 1] == end);
                    }
                }
                Some(entry.inner)
            },
            None => None,
        }
    }

    /// Removes all entries.
    pub fn clear(&mut self)
        ensures
            final(self).wf(),
            final(self)@ == old(self)@.cleared(),
    {
        self.entries.clear();
        self.batch_end.clear();
        self.cur_batch_size = 0;
        self.first_idx_in_cur_batch = 0;
        self.cmd_ids.clear();
        proof {
            lemma_ids_of_empty::<C>();
            assert(self@.entries =~= Seq::<LogEntry<C>>::empty());
            assert(self@.sizes =~= Seq::<nat>::empty());
        }
    }

    /// The open batch starts at the first position from which the limit is not reached.
    proof fn lemma_first_open(&self, left: int)
        requires
            self.consistent(),
            0 <= left < self.entries@.len(),
        ensures
            left < self.first_idx_in_cur_batch <==> self@.reaches_limit(left),
    {
        let first = self.first_idx_in_cur_batch as int;
        let limit = self.batch_limit as nat;
        if left < first {
            let end = self.batch_end@[left];
            let right = choose|right: int| #[trigger]
                full_batch(self@.sizes, limit, left, right) && indexes_of(self@.entries)[right]
                    == end;
            lemma_full_batch_reaches(self@.sizes, limit, left, right);
        } else {
            lemma_total_split(self@.sizes, first, left, self.entries@.len() as int);
        }
    }

    /// In a well-formed log the record of a full batch gives the position of its last entry.
    proof fn lemma_full_batches(&self)
        requires
            self.wf(),
        ensures
            forall|i: int|
                0 <= i < self.first_idx_in_cur_batch ==> self.base_index
                    < #[trigger] self.batch_end@[i] && full_batch(
                    self@.sizes,
                    self.batch_limit as nat,
                    i,
                    self@.position(self.batch_end@[i] as int),
                ),
    {
        let limit = self.batch_limit as nat;
        assert forall|i: int| 0 <= i < self.first_idx_in_cur_batch implies self.base_index
            < #[trigger] self.batch_end@[i] && full_batch(
            self@.sizes,
            limit,
            i,
            self@.position(self.batch_end@[i] as int),
        ) by {
            let end = self.batch_end@[i];
            let right = choose|right: int| #[trigger]
                full_batch(self@.sizes, limit, i, right) && indexes_of(self@.entries)[right]
                    == end;
            assert(self@.entries[right].index == end);
        }
    }

    /// The last position of the batch that starts at the position `left`.
    fn batch_right(&self, left: usize) -> (right: usize)
        requires
            self.wf(),
            left < self.entries@.len(),
        ensures
            left <= right < self.entries@.len(),
            self@.is_batch(left as int, right as int),
    {
        proof {
            self.lemma_first_open(left as int);
            self.lemma_full_batches();
            assert(self.entries.len() == self@.sizes.len());
        }
        if left >= self.first_idx_in_cur_batch {
            self.entries.len() - 1
        } else {
            self.li_to_pi(self.batch_end[left])
        }
    }

    /// The positions of the batch that starts at the position `left`, which are none behind the
    /// last entry. The sizes of a batch's entries do not exceed `batch_limit` together, unless it
    /// is a single entry.
    pub fn get_range_by_batch(&self, left: usize) -> (range: LogRange<usize>)
        requires
            self.wf(),
        ensures
            match range {
                LogRange::Range(r) => {
                    &&& left >= self@.entries.len()
                    &&& r.start == self@.entries.len()
                    &&& r.end == self@.entries.len()
                },
                LogRange::RangeInclusive(r) => {
                    &&& left < self@.entries.len()
                    &&& r@.start == left
                    &&& left <= r@.end < self@.entries.len()
                    &&& self@.is_batch(left as int, r@.end as int)
                    &&& !r@.exhausted
                },
            },
    {
        let len: usize = self.batch_end.len();
        if left >= len {
            return LogRange::Range(len..len);
        }
        LogRange::RangeInclusive(left..=self.batch_right(left))
    }

    /// The index of the last entry.
    pub fn last_log_index(&self) -> (index: LogIndex)
        ensures
            index == self@.last_index(),
    {
        let len: usize = self.entries.len();
        if len == 0 {
            self.base_index
        } else {
            self.entries[len - 1].inner.index
        }
    }

    /// The term of the last entry.
    pub fn last_log_term(&self) -> (term: u64)
        ensures
            term == self@.last_term(),
    {
        let len: usize = self.entries.len();
        if len == 0 {
            self.base_term
        } else {
            self.entries[len - 1].inner.term
        }
    }

    /// The entry with the given index, if it is in memory.
    pub fn get(&self, i: LogIndex) -> (entry: Option<&Arc<LogEntry<C>>>)
        ensures
            match entry {
                Some(e) => {
                    &&& self@.has(i as int)
                    &&& **e == self@.entry(i as int)
                    &&& self.wf() ==> e.index == i
                },
                None => !self@.has(i as int),
            },
    {
        if i > self.base_index && i - self.base_index - 1 < self.entries.len() as u64 {
            Some(&self.entries[self.li_to_pi(i)].inner)
        } else {
            None
        }
    }

    /// Whether the entries have consecutive indexes behind `base_index`.
    pub fn is_in_order(&self) -> (b: bool)
        ensures
            b == contiguous(self@.entries, self.base_index as int),
    {
        let mut i: usize = 0;
        while i < self.entries.len()
            invariant
                i <= self.entries@.len(),
                forall|j: int|
                    0 <= j < i ==> (#[trigger] self@.entries[j]).index == self.base_index + 1 + j,
            decreases self.entries@.len() - i,
        {
            let index: LogIndex = self.entries[i].inner.index;
            assert(self@.entries[i as int].index == index);
            if index <= self.base_index || index - self.base_index - 1 != i as u64 {
                return false;
            }
            i = i + 1;
        }
        true
    }

    /// Whether a candidate whose last entry has the given term and index has a log that is up to
    /// date: its last term is higher, or the same and its log is not shorter.
    pub fn log_up_to_date(&self, last_log_term: u64, last_log_index: LogIndex) -> (b: bool)
        ensures
            b == self@.up_to_date(last_log_term as nat, last_log_index as nat),
    {
        if last_log_term == self.last_log_term() {
            last_log_index >= self.last_log_index()
        } else {
            last_log_term > self.last_log_term()
        }
    }

    /// Whether the entries from the given index on reach `batch_limit`, so that they do not go
    /// into one open batch.
    pub fn has_next_batch(&self, li: LogIndex) -> (b: bool)
        requires
            self.consistent(),
            li > self.base_index,
        ensures
            b == (self@.has(li as int) && self@.reaches_limit(self@.position(li as int))),
    {
        if li - self.base_index - 1 < self.batch_end.len() as u64 {
            let left: usize = self.li_to_pi(li);
            proof {
                self.lemma_first_open(left as int);
            }
            left < self.first_idx_in_cur_batch
        } else {
            false
        }
    }

    /// The entries of the batch that starts with the entry of the given index, which are none
    /// behind the last entry.
    pub fn get_from(&self, li: LogIndex) -> (batch: Vec<Arc<LogEntry<C>>>)
        requires
            self.wf(),
            li > self.base_index,
        ensures
            batch@.len() > 0 <==> self@.has(li as int),
            self@.has(li as int) ==> self@.is_batch(
                self@.position(li as int),
                self@.position(li as int) + batch@.len() - 1,
            ),
            self@.has(li as int) ==> pointees(batch@) == self@.entries.subrange(
                self@.position(li as int),
                self@.position(li as int) + batch@.len(),
            ),
            forall|k: int|
                0 <= k < batch@.len() ==> {
                    &&& self@.has(li + k)
                    &&& *(#[trigger] batch@[k]) == self@.entry(li + k)
                    &&& batch@[k].index == li + k
                },
    {
        let mut batch: Vec<Arc<LogEntry<C>>> = Vec::new();
        if li - self.base_index - 1 < self.entries.len() as u64 {
            let left: usize = self.li_to_pi(li);
            let right: usize = self.batch_right(left);
            let mut i: usize = left;
            while i <= right
                invariant
                    left <= i <= right + 1,
                    right < self.entries@.len() <= usize::MAX,
                    pointees(batch@) == self@.entries.subrange(left as int, i as int),
                decreases right + 1 - i,
            {
                let ghost taken = batch@;
                batch.push(Arc::clone(&self.entries[i].inner));
                proof {
                    assert(pointees(batch@) =~= pointees(taken).push(self@.entries[i as int]));
                    assert(self@.entries.subrange(left as int, i + 1) =~= self@.entries.subrange(
                        left as int,
                        i as int,
                    ).push(self@.entries[i as int]));
                }
                i = i + 1;
            }
            assert forall|k: int| 0 <= k < batch@.len() implies {
                &&& self@.has(li + k)
                &&& *(#[trigger] batch@[k]) == self@.entry(li + k)
                &&& batch@[k].index == li + k
            } by {
                assert(pointees(batch@)[k] == self@.entries[left + k]);
            }
        }
        batch
    }

    /// Whether an entry has the given proposal id.
    pub fn contains_cmd_id(&self, id: &ProposeId) -> (found: bool)
        requires
            self.consistent(),
        ensures
            found == self@.proposed(*id),
    {
        proof {
            lemma_ids_of_contains(self@.entries, *id);
        }
        self.cmd_ids.contains(id)
    }

    /// The index and the term of the entry before the given index.
    pub fn get_prev_entry_info(&self, i: LogIndex) -> (info: (LogIndex, u64))
        requires
            i > 0,
            i - 1 == self.base_index || self@.has(i - 1),
        ensures
            self@.agrees(i - 1, info.1 as int),
            info.0 == if self@.has(i - 1) {
                self@.entry(i - 1).index
            } else {
                self.base_index
            },
            self.wf() ==> info.0 == i - 1,
    {
        if self.base_index == i - 1 {
            (self.base_index, self.base_term)
        } else {
            assert(self.entries.len() == self@.entries.len());
            let entry = &self.entries[self.li_to_pi(i - 1)].inner;
            assert(**entry == self@.entry(i - 1));
            (entry.index, entry.term)
        }
    }

    /// Drops all entries and starts behind a snapshot.
    pub fn reset_by_snapshot_meta(&mut self, meta: SnapshotMeta)
        ensures
            final(self).wf(),
            final(self)@ == old(self)@.reset(meta),
    {
        self.base_index = meta.last_included_index;
        self.base_term = meta.last_included_term;
        self.last_as = meta.last_included_index;
        self.last_exe = meta.last_included_index;
        self.commit_index = meta.last_included_index;
        self.clear();
    }

    /// Discards entries from the front of the log: of those that were handed to after-sync,
    /// `entries_cap` at most stay in memory, or one.
    pub fn compact(&mut self)
        requires
            old(self).consistent(),
        ensures
            final(self).consistent(),
            final(self)@ == old(self)@.compacted(),
            old(self).wf() ==> final(self).wf(),
            forall|base: int| #[trigger]
                contiguous(old(self)@.entries, base) && old(self)@.compactable() > 0
                    ==> final(self).wf(),
    {
        let ghost before = *self;
        assert(before@.discarded(0) =~= before@);
        if self.entries.len() == 0 {
            return;
        }
        let first: LogIndex = self.entries[0].inner.index;
        if self.last_as <= first || self.last_as - first < self.entries_cap as u64 {
            return;
        }
        let compact_from: LogIndex = self.last_as - self.entries_cap as u64;
        let ghost mut k: nat = 0;
        while self.entries.len() > 0 && self.entries[0].inner.index <= compact_from
            invariant
                self.consistent(),
                k <= before@.entries.len(),
                self@ == before@.discarded(k),
                forall|i: int|
                    0 <= i < k ==> (#[trigger] before@.entries[i]).index <= compact_from,
            decreases self.entries@.len(),
        {
            match self.pop_front() {
                Some(entry) => {
                    self.base_index = entry.index;
                    self.base_term = entry.term;
                    proof {
                        k = k + 1;
                        assert(self@ =~= before@.discarded(k));
                    }
                },
                None => {
                    return;
                },
            }
        }
        proof {
            if k < before@.entries.len() {
                assert(self@.entries[0] == before@.entries[k as int]);
            }
            lemma_leading(before@.entries, compact_from as int, k as int);
            assert(k == before@.compactable());
            assert forall|base: int| #[trigger] contiguous(before@.entries, base) && k
                > 0 implies self.wf() by {
                assert(before@.entries[k - 1].index == base + k);
                assert forall|i: int| 0 <= i < self@.entries.len() implies (
                #[trigger] self@.entries[i]).index == self.base_index + 1 + i by {
                    assert(self@.entries[i] == before@.entries[k + i]);
                }
            }
        }
    }

    /// Commits up to the given index and drops the contexts up to it, which are no longer needed.
    /// Returns these contexts, and how many of them were a learner's: those learners were
    /// promoted for good.
    pub fn commit_to(&mut self, commit_index: LogIndex) -> (settled: (
        HashMap<LogIndex, FallbackContext<C>>,
        usize,
    ))
        requires
            commit_index >= old(self).commit_index,
        ensures
            final(self)@ == old(self)@.committed(commit_index as nat),
            settled.0@ == old(self)@.settled(commit_index as nat),
            settled.1 == old(self)@.settled_learners(commit_index as nat).len(),
            old(self).consistent() ==> final(self).consistent(),
            old(self).wf() ==> final(self).wf(),
    {
        let ghost before = *self;
        let ghost contexts = self.fallback_contexts@;
        let mut keys: Vec<LogIndex> = Vec::new();
        for key in it: self.fallback_contexts.keys()
            invariant
                it.seq().unref().to_set() == contexts.dom(),
                it.seq().no_duplicates(),
                keys@.len() == it.index(),
                forall|j: int| 0 <= j < keys@.len() ==> keys@[j] == *(#[trigger] it.seq()[j]),
                it.index() == it.seq().len() ==> keys@ =~= it.seq().unref(),
        {
            keys.push(*key);
        }
        assert(keys@.to_set() =~= contexts.dom());
        assert(keys@.no_duplicates());
        self.commit_index = commit_index;
        let ghost settles = |i: LogIndex| i <= commit_index && contexts[i].is_learner;
        let mut settled: HashMap<LogIndex, FallbackContext<C>> = HashMap::new();
        let mut learners: usize = 0;
        let mut j: usize = 0;
        assert(keys@.take(0).filter(settles).len() == 0);
        assert(settled@ =~= contexts.restrict(keys@.take(0).to_set().filter(|i: LogIndex| i
            <= commit_index)));
        while j < keys.len()
            invariant
                j <= keys@.len(),
                learners <= j,
                keys@.to_set() == contexts.dom(),
                keys@.no_duplicates(),
                settles == (|i: LogIndex| i <= commit_index && contexts[i].is_learner),
                learners == keys@.take(j as int).filter(settles).len(),
                self.fallback_contexts@ == contexts.remove_keys(
                    keys@.take(j as int).to_set().filter(|i: LogIndex| i <= commit_index),
                ),
                settled@ == contexts.restrict(
                    keys@.take(j as int).to_set().filter(|i: LogIndex| i <= commit_index),
                ),
                *self == (Log {
                    commit_index,
                    fallback_contexts: self.fallback_contexts,
                    ..before
                }),
            decreases keys@.len() - j,
        {
            let key: LogIndex = keys[j];
            if key <= commit_index {
                if let Some(context) = self.fallback_contexts.remove(&key) {
                    if context.is_learner {
                        learners = learners + 1;
                    }
                    let _ = settled.insert(key, context);
                }
            }
            proof {
                let seen = keys@.take(j as int);
                let now = keys@.take(j + 1);
                reveal(Seq::filter);
                assert(now.drop_last() =~= seen);
                assert(now.last() == key);
                assert(now.to_set() =~= seen.to_set().insert(key));
                assert(contexts.dom().contains(key)) by {
                    assert(keys@.contains(key));
                }
                assert(!seen.to_set().contains(key));
                let small = |i: LogIndex| i <= commit_index;
                assert(self.fallback_contexts@ =~= contexts.remove_keys(
                    now.to_set().filter(small),
                ));
                assert(settled@ =~= contexts.restrict(now.to_set().filter(small)));
            }
            j = j + 1;
        }
        proof {
            lemma_filter_len(keys@, settles);
            assert(keys@.take(j as int) =~= keys@);
            assert(self.fallback_contexts@ =~= before@.committed(
                commit_index as nat,
            ).fallback_contexts);
            assert(settled@ =~= before@.settled(commit_index as nat));
            assert(keys@.to_set().filter(settles) =~= before@.settled_learners(
                commit_index as nat,
            ));
        }
        (settled, learners)
    }

    /// Replaces the limit on the size of a batch and computes the batches anew.
    pub fn set_batch_limit(&mut self, batch_limit: u64)
        requires
            batch_limit > 0 || old(self)@.entries.len() == 0,
        ensures
            final(self).consistent(),
            old(self).wf() ==> final(self).wf(),
            final(self)@ == (LogState { batch_limit: batch_limit as nat, ..old(self)@ }),
    {
        let ghost before = *self;
        let mut entries: VecDeque<Entry<C>> = VecDeque::new();
        std::mem::swap(&mut entries, &mut self.entries);
        self.batch_limit = batch_limit;
        self.clear();
        let ghost mut k: int = 0;
        proof {
            assert(entries@ =~= before.entries@.skip(0));
            assert(self@.entries =~= before@.entries.take(0));
            assert(self@.sizes =~= before@.sizes.take(0));
        }
        while entries.len() > 0
            invariant
                0 <= k <= before.entries@.len(),
                entries@ == before.entries@.skip(k),
                batch_limit > 0 || before@.entries.len() == 0,
                self.consistent(),
                self@ == (LogState {
                    batch_limit: batch_limit as nat,
                    entries: before@.entries.take(k),
                    sizes: before@.sizes.take(k),
                    ..before@
                }),
            decreases entries@.len(),
        {
            if let Some(entry) = entries.pop_front() {
                self.push_back(entry.inner, entry.size);
                proof {
                    assert(self@.entries =~= before@.entries.take(k + 1));
                    assert(self@.sizes =~= before@.sizes.take(k + 1));
                    k = k + 1;
                    assert(entries@ =~= before.entries@.skip(k));
                }
            }
        }
        proof {
            assert(self@.entries =~= before@.entries);
            assert(self@.sizes =~= before@.sizes);
        }
    }
}

/// Of a sequence without duplicates, as many elements pass a filter as of the set of its
/// elements.
proof fn lemma_filter_len<A>(s: Seq<A>, pred: spec_fn(A) -> bool)
    requires
        s.no_duplicates(),
    ensures
        s.filter(pred).len() == s.to_set().filter(pred).len(),
    decreases s.len(),
{
    reveal(Seq::filter);
    if s.len() == 0 {
        assert(s.to_set().filter(pred) =~= Set::empty());
    } else {
        let rest = s.drop_last();
        let last = s.last();
        lemma_filter_len(rest, pred);
        assert(s.to_set() =~= rest.to_set().insert(last)) by {
            assert(s =~= rest.push(last));
        }
        assert(!rest.to_set().contains(last));
        if pred(last) {
            assert(s.to_set().filter(pred) =~= rest.to_set().filter(pred).insert(last));
        } else {
            assert(s.to_set().filter(pred) =~= rest.to_set().filter(pred));
        }
    }
}

} // verus!
