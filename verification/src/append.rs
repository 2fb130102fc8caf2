//! The operations by which entries get into the log: a leader pushes them, a follower appends
//! those of the leader, and a restarted node restores its own.

use crate::entry::{EncodeError, EntryData, LogEntry, LogIndex, ProposeId};
use crate::log::{pointees, Log};
use crate::model::{
    all_encodable, conf_change_indexes, conf_changes, contiguous, lemma_matching, matching,
    sizes_of, LogState,
};
use crate::std_ext::arc_make_mut;
use std::collections::HashSet;
use std::sync::Arc;
use vstd::prelude::*;

verus! {

broadcast use vstd::std_specs::hash::group_hash_axioms;

/// An entry that was allocated and measured before the log is locked. Its index is a placeholder
/// until it is pushed.
pub struct PreparedEntry<C> {
    /// The entry
    pub entry: Arc<LogEntry<C>>,
    /// The size of its encoding, which does not depend on the index
    pub size: u64,
}

/// What a successful append returns: the entries that are new to the log, in order; the
/// membership changes among them; and the indexes of the membership changes that were dropped
/// from the log and have to be undone.
pub type AppendSuccess<C> = (Vec<Arc<LogEntry<C>>>, Vec<Arc<LogEntry<C>>>, HashSet<LogIndex>);

impl<C> Log<C> {
    /// Allocates an entry and computes its size, which needs no access to a log. The entry gets
    /// its index in `push_prepared`.
    pub fn prepare_entry(term: u64, propose_id: ProposeId, entry_data: EntryData<C>) -> (prepared:
        PreparedEntry<C>)
        requires
            entry_data.size() is Ok,
        ensures
            *prepared.entry == (LogEntry { term, index: 0, propose_id, entry_data }),
            prepared.entry.size() == Ok::<nat, EncodeError>(prepared.size as nat),
    {
        let entry = Arc::new(LogEntry::new(0, term, propose_id, entry_data));
        match entry.serialized_size() {
            Ok(size) => PreparedEntry { entry, size },
            Err(_) => vstd::pervasive::unreached(),
        }
    }

    /// Pushes a prepared entry, which gets the next index.
    pub fn push_prepared(&mut self, prepared: PreparedEntry<C>) -> (entry: Arc<LogEntry<C>>)
        requires
            old(self).consistent(),
            old(self).batch_limit > 0,
            old(self)@.last_index() < u64::MAX,
        ensures
            final(self).consistent(),
            old(self).wf() ==> final(self).wf(),
            *entry == prepared.entry.at((old(self)@.last_index() + 1) as u64),
            final(self)@ == old(self)@.pushed(*entry, prepared.size as nat),
    {
        let index: LogIndex = self.last_log_index() + 1;
        let mut entry = prepared.entry;
        arc_make_mut(&mut entry).index = index;
        proof {
            if self.wf() && self@.entries.len() > 0 {
                assert(self@.entries[self@.entries.len() - 1].index == self.base_index
                    + self@.entries.len());
            }
        }
        self.push_back(Arc::clone(&entry), prepared.size);
        entry
    }

    /// Prepares and pushes an entry.
    pub fn push(&mut self, term: u64, propose_id: ProposeId, entry_data: EntryData<C>) -> (entry:
        Arc<LogEntry<C>>)
        requires
            old(self).consistent(),
            old(self).batch_limit > 0,
            old(self)@.last_index() < u64::MAX,
            entry_data.size() is Ok,
        ensures
            final(self).consistent(),
            old(self).wf() ==> final(self).wf(),
            *entry == (LogEntry {
                term,
                index: (old(self)@.last_index() + 1) as u64,
                propose_id,
                entry_data,
            }),
            entry.size() is Ok,
            final(self)@ == old(self)@.pushed(*entry, entry.size()->Ok_0),
    {
        let prepared = Self::prepare_entry(term, propose_id, entry_data);
        self.push_prepared(prepared)
    }

    /// Replaces the entries of the log, wherever they begin. Where an entry cannot be encoded, its
    /// error is returned and the log holds the entries before it.
    pub fn restore(&mut self, entries: Vec<LogEntry<C>>) -> (result: Result<(), EncodeError>)
        requires
            old(self).batch_limit > 0 || entries@.len() == 0,
        ensures
            final(self).consistent(),
            forall|base: int| #[trigger]
                contiguous(entries@, base) ==> final(self).wf_behind(base),
            match result {
                Ok(_) => {
                    &&& all_encodable(entries@)
                    &&& final(self)@ == old(self)@.restored(entries@)
                },
                Err(error) => exists|k: int|
                    {
                        &&& 0 <= k < entries@.len()
                        &&& (#[trigger] entries@[k]).size() == Err::<nat, EncodeError>(error)
                        &&& all_encodable(entries@.take(k))
                        &&& final(self)@ == old(self)@.restored(entries@.take(k))
                    },
            },
    {
        let ghost before = *self;
        let ghost all = entries@;
        self.clear();
        assert(self@ =~= before@.restored(all.take(0)));
        for entry in it: entries
            invariant
                it.seq() == all,
                all == entries@,
                before == *old(self),
                before.batch_limit > 0 || all.len() == 0,
                self.consistent(),
                all_encodable(all.take(it.index() as int)),
                self@ == before@.restored(all.take(it.index() as int)),
        {
            let ghost k = it.index() as int;
            let entry = Arc::new(entry);
            match entry.serialized_size() {
                Ok(size) => {
                    self.push_back(entry, size);
                    proof {
                        assert(all.take(k + 1) =~= all.take(k).push(all[k]));
                        assert(self@ =~= before@.restored(all.take(k + 1)));
                        assert forall|i: int| 0 <= i < k + 1 implies (#[trigger] all.take(
                            k + 1,
                        )[i]).size() is Ok by {
                            if i < k {
                                assert(all.take(k)[i].size() is Ok);
                            }
                        }
                    }
                },
                Err(error) => {
                    assert(all[k].size() == Err::<nat, EncodeError>(error));
                    assert(self@ == before@.restored(all.take(k)));
                    assert forall|base: int| #[trigger] contiguous(
                        all,
                        base,
                    ) implies self.wf_behind(base) by {
                        assert forall|i: int| 0 <= i < k implies (
                        #[trigger] self@.entries[i]).index == base + 1 + i by {
                            assert(all[i].index == base + 1 + i);
                        }
                    }
                    return Err(error);
                },
            }
        }
        assert(all.take(all.len() as int) =~= all);
        Ok(())
    }

    /// Restores the entries of a log and compacts it. For a well-formed log they must be in order
    /// and begin directly behind `base_index`, unless compaction moves it on to one of them.
    pub fn restore_entries(&mut self, entries: Vec<LogEntry<C>>) -> (result: Result<
        (),
        EncodeError,
    >)
        requires
            old(self).batch_limit > 0 || entries@.len() == 0,
        ensures
            final(self).consistent(),
            contiguous(entries@, old(self).base_index as int) ==> final(self).wf(),
            forall|base: int| #[trigger]
                contiguous(entries@, base) && result is Ok && old(self)@.restored(
                    entries@,
                ).compactable() > 0 ==> final(self).wf(),
            forall|base: int| #[trigger]
                contiguous(entries@, base) && (result is Err || old(self)@.restored(
                    entries@,
                ).compactable() == 0) ==> final(self).wf_behind(base),
            match result {
                Ok(_) => {
                    &&& all_encodable(entries@)
                    &&& final(self)@ == old(self)@.restored(entries@).compacted()
                },
                Err(error) => exists|k: int|
                    {
                        &&& 0 <= k < entries@.len()
                        &&& (#[trigger] entries@[k]).size() == Err::<nat, EncodeError>(error)
                        &&& all_encodable(entries@.take(k))
                        &&& final(self)@ == old(self)@.restored(entries@.take(k))
                    },
            },
    {
        match self.restore(entries) {
            Ok(_) => {
                assert(self@.discarded(0) =~= self@);
                self.compact();
                Ok(())
            },
            Err(error) => Err(error),
        }
    }

    /// Appends entries behind the entry of the given index and term.
    ///
    /// Where the log holds no such entry, nothing changes and the entries are handed back.
    /// Otherwise the entries of the log from the first on that differs from the given ones by its
    /// term are dropped, and those of the given ones that are then missing are pushed. The log
    /// stays well-formed if these are in order.
    pub fn try_append_entries(
        &mut self,
        entries: Vec<LogEntry<C>>,
        prev_log_index: LogIndex,
        prev_log_term: u64,
    ) -> (result: Result<AppendSuccess<C>, Vec<LogEntry<C>>>)
        requires
            old(self).wf(),
            old(self)@.can_append(prev_log_index as int, prev_log_term as int, entries@),
        ensures
            final(self).consistent(),
            result is Err || old(self)@.in_order(prev_log_index as int, entries@)
                ==> final(self).wf(),
            result is Ok <==> old(self)@.agrees(prev_log_index as int, prev_log_term as int),
            match result {
                Ok((to_persist, conf, undo)) => {
                    let fresh = old(self)@.fresh(prev_log_index as int, entries@);
                    let kept = old(self)@.kept(prev_log_index as int, entries@);
                    &&& final(self)@ == old(self)@.appended(prev_log_index as int, entries@)
                    &&& pointees(to_persist@) == fresh
                    &&& pointees(conf@) == conf_changes(fresh)
                    &&& undo@ == conf_change_indexes(old(self)@.entries.skip(kept as int))
                },
                Err(rejected) => rejected == entries && final(self)@ == old(self)@,
            },
    {
        let ghost before = *self;
        let ghost new = entries@;
        let ghost prev = prev_log_index as int;
        if !self.agrees_with(prev_log_index, prev_log_term) {
            return Err(entries);
        }
        assert(self.entries.len() == self@.entries.len());
        let start: usize = self.li_to_pi(prev_log_index + 1);
        let k: usize = self.count_matching(start, &entries);
        let ghost fresh = before@.fresh(prev, new);
        // the membership changes among the entries to be dropped have to be undone
        let kept: usize = start + k;
        let undo = self.conf_changes_from(kept);
        self.truncate(kept);
        let mut matched = entries;
        let rest = matched.split_off(k);
        let mut to_persist: Vec<Arc<LogEntry<C>>> = Vec::new();
        let mut conf: Vec<Arc<LogEntry<C>>> = Vec::new();
        let ghost cut = *self;
        for entry in it: rest
            invariant
                it.seq() == fresh,
                all_encodable(fresh),
                cut.batch_limit > 0 || fresh.len() == 0,
                self.consistent(),
                self@ == (LogState {
                    entries: cut@.entries + fresh.take(it.index() as int),
                    sizes: cut@.sizes + sizes_of(fresh.take(it.index() as int)),
                    ..cut@
                }),
                pointees(to_persist@) == fresh.take(it.index() as int),
                pointees(conf@) == conf_changes(fresh.take(it.index() as int)),
        {
            let ghost j = it.index() as int;
            let ghost (persist_before, conf_before) = (to_persist@, conf@);
            let entry = Arc::new(entry);
            proof {
                assert(fresh[j].size() is Ok);
                assert(fresh.take(j + 1) =~= fresh.take(j).push(fresh[j]));
            }
            if entry.entry_data.is_conf_change() {
                conf.push(Arc::clone(&entry));
                assert(pointees(conf@) =~= pointees(conf_before).push(fresh[j]));
            }
            let size: u64 = match entry.serialized_size() {
                Ok(size) => size,
                Err(_) => vstd::pervasive::unreached(),
            };
            self.push_back(Arc::clone(&entry), size);
            to_persist.push(entry);
            proof {
                reveal(Seq::filter);
                assert(fresh.take(j + 1).drop_last() =~= fresh.take(j));
                assert(pointees(to_persist@) =~= pointees(persist_before).push(fresh[j]));
                assert(self@.entries =~= cut@.entries + fresh.take(j + 1));
                assert(self@.sizes =~= cut@.sizes + sizes_of(fresh.take(j + 1)));
            }
        }
        assert(fresh.take(fresh.len() as int) =~= fresh);
        proof {
            assert(self@ =~= before@.appended(prev, new));
            if before@.in_order(prev, new) {
                assert forall|i: int| 0 <= i < self@.entries.len() implies (
                #[trigger] self@.entries[i]).index == self.base_index + 1 + i by {
                    if i < kept {
                        assert(self@.entries[i] == before@.entries[i]);
                    } else {
                        assert(self@.entries[i] == fresh[i - kept]);
                    }
                }
            }
        }
        Ok((to_persist, conf, undo))
    }

    /// Whether `try_append_entries` can be called with the given entries: it refuses them, or
    /// those that are new to the log have an encoding and fit into batches.
    pub fn can_append(
        &self,
        entries: &Vec<LogEntry<C>>,
        prev_log_index: LogIndex,
        prev_log_term: u64,
    ) -> (b: bool)
        ensures
            b == self@.can_append(prev_log_index as int, prev_log_term as int, entries@),
    {
        if !self.agrees_with(prev_log_index, prev_log_term) {
            return true;
        }
        if prev_log_index == u64::MAX {
            return false;
        }
        let ghost fresh = self@.fresh(prev_log_index as int, entries@);
        assert(self.entries.len() == self@.entries.len());
        let start: usize = self.li_to_pi(prev_log_index + 1);
        let k: usize = self.count_matching(start, entries);
        if self.batch_limit == 0 && k < entries.len() {
            return false;
        }
        let mut i: usize = k;
        while i < entries.len()
            invariant
                k <= i <= entries@.len(),
                fresh == entries@.skip(k as int),
                fresh == self@.fresh(prev_log_index as int, entries@),
                self@.agrees(prev_log_index as int, prev_log_term as int),
                forall|j: int| 0 <= j < i - k ==> (#[trigger] fresh[j]).size() is Ok,
            decreases entries@.len() - i,
        {
            assert(fresh[i - k] == entries@[i as int]);
            match entries[i].serialized_size() {
                Ok(_) => {},
                Err(_) => {
                    return false;
                },
            }
            i = i + 1;
        }
        true
    }

    /// Whether the log holds an entry of the given index and term.
    fn agrees_with(&self, index: LogIndex, term: u64) -> (b: bool)
        ensures
            b == self@.agrees(index as int, term as int),
    {
        match self.get(index) {
            Some(entry) => entry.term == term,
            None => self.base_index == index && self.base_term == term,
        }
    }

    /// How many of the given entries match those from position `start` on by their terms.
    fn count_matching(&self, start: usize, entries: &Vec<LogEntry<C>>) -> (k: usize)
        requires
            start <= self.entries@.len(),
        ensures
            k == matching(self@.entries.skip(start as int), entries@),
            k <= entries@.len(),
            start + k <= self.entries@.len(),
    {
        let ghost tail = self@.entries.skip(start as int);
        assert(self.entries.len() == self@.entries.len());
        let mut k: usize = 0;
        while k < entries.len() && start + k < self.entries.len() && self.entries[start
            + k].inner.term == entries[k].term
            invariant
                start <= self.entries@.len() <= usize::MAX,
                tail == self@.entries.skip(start as int),
                k <= entries@.len(),
                k <= tail.len(),
                forall|i: int| 0 <= i < k ==> (#[trigger] tail[i]).term == entries@[i].term,
            decreases entries@.len() - k,
        {
            assert(tail[k as int] == self@.entries[start + k]);
            k = k + 1;
        }
        proof {
            lemma_matching(tail, entries@, k as int);
        }
        k
    }

    /// The indexes of the membership changes from the given position on.
    fn conf_changes_from(&self, from: usize) -> (indexes: HashSet<LogIndex>)
        requires
            from <= self.entries@.len(),
        ensures
            indexes@ == conf_change_indexes(self@.entries.skip(from as int)),
    {
        let mut indexes: HashSet<LogIndex> = HashSet::new();
        let mut i: usize = from;
        let ghost all = self@.entries;
        assert(conf_changes(all.subrange(from as int, from as int)) =~= Seq::empty()) by {
            reveal(Seq::filter);
        }
        assert(indexes@ =~= conf_change_indexes(all.subrange(from as int, from as int)));
        while i < self.entries.len()
            invariant
                from <= i <= self.entries@.len(),
                all == self@.entries,
                indexes@ == conf_change_indexes(all.subrange(from as int, i as int)),
            decreases self.entries@.len() - i,
        {
            let entry = &self.entries[i].inner;
            if entry.entry_data.is_conf_change() {
                let _ = indexes.insert(entry.index);
            }
            proof {
                reveal(Seq::filter);
                let seen = all.subrange(from as int, i as int);
                let now = all.subrange(from as int, i + 1);
                assert(now.drop_last() =~= seen);
                assert(now.last() == all[i as int]);
                let index = |e: LogEntry<C>| e.index;
                if all[i as int].entry_data.spec_is_conf_change() {
                    let a = conf_changes(seen).map_values(index);
                    let b = conf_changes(now).map_values(index);
                    assert(b =~= a.push(all[i as int].index));
                    assert(b.to_set() =~= a.to_set().insert(all[i as int].index)) by {
                        assert forall|x: LogIndex| b.to_set().contains(x) <==> a.to_set().insert(
                            all[i as int].index,
                        ).contains(x) by {
                            if a.contains(x) {
                                let j = choose|j: int| 0 <= j < a.len() && a[j] == x;
                                assert(b[j] == x);
                            }
                            assert(b[a.len() as int] == all[i as int].index);
                        }
                    }
                }
            }
            i = i + 1;
        }
        assert(all.subrange(from as int, i as int) =~= all.skip(from as int));
        indexes
    }
}

} // verus!
