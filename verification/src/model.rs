//! The log as a mathematical value, and what each operation makes of it.

use crate::batch::{is_batch, reaches_limit};
use crate::entry::{LogEntry, LogIndex, ProposeId};
use crate::fallback::FallbackContext;
use crate::snapshot::SnapshotMeta;
use vstd::multiset::Multiset;
use vstd::prelude::*;

verus! {

/// The value of a log.
#[verifier::ext_equal]
pub struct LogState<C> {
    /// The entries in memory, in the order of their indexes
    pub entries: Seq<LogEntry<C>>,
    /// The size of each entry
    pub sizes: Seq<nat>,
    /// The limit on the size of a batch
    pub batch_limit: nat,
    /// The number of applied entries to keep in memory
    pub entries_cap: nat,
    /// The index of the last entry that is no longer in memory
    pub base_index: nat,
    /// The term of that entry
    pub base_term: nat,
    /// The highest index known to be committed
    pub commit_index: nat,
    /// The highest index that was handed to after-sync
    pub last_as: nat,
    /// The highest index that was handed to speculative execution
    pub last_exe: nat,
    /// The contexts of the membership changes that may have to be undone
    pub fallback_contexts: Map<LogIndex, FallbackContext<C>>,
}

/// The proposal ids of a sequence of entries.
pub open spec fn ids_of<C>(entries: Seq<LogEntry<C>>) -> Multiset<ProposeId> {
    entries.map_values(|e: LogEntry<C>| e.propose_id).to_multiset()
}

/// The indexes of a sequence of entries.
pub open spec fn indexes_of<C>(entries: Seq<LogEntry<C>>) -> Seq<LogIndex> {
    entries.map_values(|e: LogEntry<C>| e.index)
}

/// The sizes of the encodings of a sequence of entries.
pub open spec fn sizes_of<C>(entries: Seq<LogEntry<C>>) -> Seq<nat> {
    entries.map_values(|e: LogEntry<C>| e.size()->Ok_0)
}

/// Whether every entry of a sequence has an encoding.
pub open spec fn all_encodable<C>(entries: Seq<LogEntry<C>>) -> bool {
    forall|i: int| 0 <= i < entries.len() ==> (#[trigger] entries[i]).size() is Ok
}

/// Whether the entries have the indexes `base + 1`, `base + 2` and so on.
pub open spec fn contiguous<C>(entries: Seq<LogEntry<C>>, base: int) -> bool {
    forall|i: int| 0 <= i < entries.len() ==> (#[trigger] entries[i]).index == base + 1 + i
}

/// How many entries at the start of a sequence have indexes up to `bound`.
pub open spec fn leading<C>(entries: Seq<LogEntry<C>>, bound: int) -> nat
    decreases entries.len(),
{
    if entries.len() == 0 || entries[0].index > bound {
        0
    } else {
        1 + leading(entries.drop_first(), bound)
    }
}

/// How many entries at the start of both sequences have the same terms.
pub open spec fn matching<C>(a: Seq<LogEntry<C>>, b: Seq<LogEntry<C>>) -> nat
    decreases a.len(),
{
    if a.len() == 0 || b.len() == 0 || a[0].term != b[0].term {
        0
    } else {
        1 + matching(a.drop_first(), b.drop_first())
    }
}

/// The membership changes among a sequence of entries.
pub open spec fn conf_changes<C>(entries: Seq<LogEntry<C>>) -> Seq<LogEntry<C>> {
    entries.filter(|e: LogEntry<C>| e.entry_data.spec_is_conf_change())
}

/// The indexes of the membership changes among a sequence of entries.
pub open spec fn conf_change_indexes<C>(entries: Seq<LogEntry<C>>) -> Set<LogIndex> {
    conf_changes(entries).map_values(|e: LogEntry<C>| e.index).to_set()
}

impl<C> LogState<C> {
    /// The log of a node that starts with nothing.
    pub open spec fn initial(batch_limit: nat, entries_cap: nat) -> Self {
        LogState {
            entries: Seq::empty(),
            sizes: Seq::empty(),
            batch_limit,
            entries_cap,
            base_index: 0,
            base_term: 0,
            commit_index: 0,
            last_as: 0,
            last_exe: 0,
            fallback_contexts: Map::empty(),
        }
    }

    /// Whether this is the value of a log: each entry has a size, and the entries have
    /// consecutive indexes.
    pub open spec fn valid(self) -> bool {
        &&& self.sizes.len() == self.entries.len()
        &&& contiguous(self.entries, self.base_index as int)
    }

    /// The index of the last entry: in memory, or else the last that no longer is.
    pub open spec fn last_index(self) -> nat {
        if self.entries.len() == 0 {
            self.base_index
        } else {
            self.entries.last().index as nat
        }
    }

    /// The term of that entry.
    pub open spec fn last_term(self) -> nat {
        if self.entries.len() == 0 {
            self.base_term
        } else {
            self.entries.last().term as nat
        }
    }

    /// The position of the entry with the given index.
    pub open spec fn position(self, index: int) -> int {
        index - self.base_index - 1
    }

    /// Whether the entry with the given index is in memory.
    pub open spec fn has(self, index: int) -> bool {
        0 <= self.position(index) < self.entries.len()
    }

    /// The entry with the given index.
    pub open spec fn entry(self, index: int) -> LogEntry<C>
        recommends
            self.has(index),
    {
        self.entries[self.position(index)]
    }

    /// Whether the log holds an entry of the given index and term, be it in memory or the last
    /// that no longer is.
    pub open spec fn agrees(self, index: int, term: int) -> bool {
        if self.has(index) {
            self.entry(index).term == term
        } else {
            self.base_index == index && self.base_term == term
        }
    }

    /// Whether an entry has the given proposal id.
    pub open spec fn proposed(self, id: ProposeId) -> bool {
        exists|i: int| 0 <= i < self.entries.len() && (#[trigger] self.entries[i]).propose_id == id
    }

    /// Whether the entries from the given position on reach the limit of a batch.
    pub open spec fn reaches_limit(self, left: int) -> bool {
        reaches_limit(self.sizes, self.batch_limit, left)
    }

    /// Whether `right` is the last position of the batch that starts at the position `left`.
    pub open spec fn is_batch(self, left: int, right: int) -> bool {
        is_batch(self.sizes, self.batch_limit, left, right)
    }

    /// Whether a log whose last entry has the given term and index is up to date.
    pub open spec fn up_to_date(self, term: nat, index: nat) -> bool {
        term > self.last_term() || (term == self.last_term() && index >= self.last_index())
    }

    /// The log with an entry more.
    pub open spec fn pushed(self, entry: LogEntry<C>, size: nat) -> Self {
        LogState { entries: self.entries.push(entry), sizes: self.sizes.push(size), ..self }
    }

    /// The log with its first `len` entries only.
    pub open spec fn truncated(self, len: nat) -> Self {
        if len < self.entries.len() {
            LogState {
                entries: self.entries.take(len as int),
                sizes: self.sizes.take(len as int),
                ..self
            }
        } else {
            self
        }
    }

    /// The log without its first entry.
    pub open spec fn popped(self) -> Self {
        LogState { entries: self.entries.drop_first(), sizes: self.sizes.drop_first(), ..self }
    }

    /// The log without any entry.
    pub open spec fn cleared(self) -> Self {
        LogState { entries: Seq::empty(), sizes: Seq::empty(), ..self }
    }

    /// The log after its first `n` entries were discarded.
    pub open spec fn discarded(self, n: nat) -> Self {
        LogState {
            entries: self.entries.skip(n as int),
            sizes: self.sizes.skip(n as int),
            base_index: if n == 0 {
                self.base_index
            } else {
                self.entries[n - 1].index as nat
            },
            base_term: if n == 0 {
                self.base_term
            } else {
                self.entries[n - 1].term as nat
            },
            ..self
        }
    }

    /// How many entries compaction discards: those from the first on whose indexes are
    /// `last_as - entries_cap` at most, if the first lies before `last_as` and is one of them.
    pub open spec fn compactable(self) -> nat {
        if self.entries.len() == 0 || self.last_as <= self.entries[0].index || self.last_as
            - self.entries[0].index < self.entries_cap {
            0
        } else {
            leading(self.entries, self.last_as - self.entries_cap)
        }
    }

    /// The compacted log.
    pub open spec fn compacted(self) -> Self {
        self.discarded(self.compactable())
    }

    /// The log that starts behind a snapshot.
    pub open spec fn reset(self, meta: SnapshotMeta) -> Self {
        LogState {
            base_index: meta.last_included_index as nat,
            base_term: meta.last_included_term as nat,
            last_as: meta.last_included_index as nat,
            last_exe: meta.last_included_index as nat,
            commit_index: meta.last_included_index as nat,
            ..self.cleared()
        }
    }

    /// The log after a commit: the contexts up to the committed index are no longer needed.
    pub open spec fn committed(self, index: nat) -> Self {
        LogState {
            commit_index: index,
            fallback_contexts: self.fallback_contexts.restrict(
                Set::new(|i: LogIndex| i > index),
            ),
            ..self
        }
    }

    /// The contexts up to the given index.
    pub open spec fn settled(self, index: nat) -> Map<LogIndex, FallbackContext<C>> {
        self.fallback_contexts.restrict(Set::new(|i: LogIndex| i <= index))
    }

    /// The indexes up to the given one at which a learner's configuration was to be restored.
    pub open spec fn settled_learners(self, index: nat) -> Set<LogIndex> {
        self.fallback_contexts.dom().filter(
            |i: LogIndex| i <= index && self.fallback_contexts[i].is_learner,
        )
    }

    /// How many entries stay when the given entries are appended behind the index `prev`: those
    /// up to `prev`, and those after it as long as the new ones have the same terms.
    pub open spec fn kept(self, prev: int, new: Seq<LogEntry<C>>) -> nat {
        (prev - self.base_index + matching(self.entries.skip(prev - self.base_index), new)) as nat
    }

    /// Which of the given entries are new when they are appended behind the index `prev`.
    pub open spec fn fresh(self, prev: int, new: Seq<LogEntry<C>>) -> Seq<LogEntry<C>> {
        new.skip(matching(self.entries.skip(prev - self.base_index), new) as int)
    }

    /// Whether an attempt can be made to append the given entries behind the entry of index
    /// `prev` and term `term`. Where the log holds that entry, those that are new have to have an
    /// encoding and to go into batches.
    pub open spec fn can_append(self, prev: int, term: int, new: Seq<LogEntry<C>>) -> bool {
        self.agrees(prev, term) ==> {
            &&& prev < u64::MAX
            &&& all_encodable(self.fresh(prev, new))
            &&& self.batch_limit > 0 || self.fresh(prev, new).len() == 0
        }
    }

    /// Whether the given entries are in order behind the index `prev` as far as they are new: they
    /// then follow those that are kept.
    pub open spec fn in_order(self, prev: int, new: Seq<LogEntry<C>>) -> bool {
        contiguous(self.fresh(prev, new), (self.base_index + self.kept(prev, new)) as int)
    }

    /// The log after the given entries were appended behind the index `prev`.
    pub open spec fn appended(self, prev: int, new: Seq<LogEntry<C>>) -> Self {
        let kept = self.kept(prev, new) as int;
        let fresh = self.fresh(prev, new);
        LogState {
            entries: self.entries.take(kept) + fresh,
            sizes: self.sizes.take(kept) + sizes_of(fresh),
            ..self
        }
    }

    /// The log after the given entries were pushed one after the other.
    pub open spec fn pushed_all(self, entries: Seq<LogEntry<C>>) -> Self
        decreases entries.len(),
    {
        if entries.len() == 0 {
            self
        } else {
            self.pushed_all(entries.drop_last()).pushed(
                entries.last(),
                entries.last().size()->Ok_0,
            )
        }
    }

    /// The log with the given entries in place of its own.
    pub open spec fn restored(self, entries: Seq<LogEntry<C>>) -> Self {
        LogState { entries, sizes: sizes_of(entries), ..self }
    }
}

/// Without entries there are no ids.
pub proof fn lemma_ids_of_empty<C>()
    ensures
        ids_of(Seq::<LogEntry<C>>::empty()) == Multiset::<ProposeId>::empty(),
{
    broadcast use vstd::seq_lib::group_to_multiset_ensures;

    let none = Seq::<LogEntry<C>>::empty().map_values(|e: LogEntry<C>| e.propose_id);
    assert(none.to_multiset().len() == 0);
}

/// There are as many ids as entries.
pub proof fn lemma_ids_of_len<C>(entries: Seq<LogEntry<C>>)
    ensures
        ids_of(entries).len() == entries.len(),
{
    broadcast use vstd::seq_lib::group_to_multiset_ensures;

}

/// An id occurs among the ids exactly if an entry has it.
pub proof fn lemma_ids_of_contains<C>(entries: Seq<LogEntry<C>>, id: ProposeId)
    ensures
        ids_of(entries).contains(id) <==> exists|i: int|
            0 <= i < entries.len() && (#[trigger] entries[i]).propose_id == id,
{
    broadcast use vstd::seq_lib::group_to_multiset_ensures;

    let ids = entries.map_values(|e: LogEntry<C>| e.propose_id);
    assert(ids.to_multiset().contains(id) <==> ids.contains(id));
    if ids.contains(id) {
        let i = choose|i: int| 0 <= i < ids.len() && ids[i] == id;
        assert(entries[i].propose_id == id);
    }
    if exists|i: int| 0 <= i < entries.len() && (#[trigger] entries[i]).propose_id == id {
        let i = choose|i: int|
            0 <= i < entries.len() && (#[trigger] entries[i]).propose_id == id;
        assert(ids[i] == id);
    }
}

/// An entry more adds its id.
pub proof fn lemma_ids_of_push<C>(entries: Seq<LogEntry<C>>, entry: LogEntry<C>)
    ensures
        ids_of(entries.push(entry)) == ids_of(entries).insert(entry.propose_id),
{
    broadcast use vstd::seq_lib::group_to_multiset_ensures;

    let f = |e: LogEntry<C>| e.propose_id;
    assert(entries.push(entry).map_values(f) =~= entries.map_values(f).push(entry.propose_id));
}

/// An entry less, at any position, takes its id away once.
pub proof fn lemma_ids_of_remove<C>(entries: Seq<LogEntry<C>>, i: int)
    requires
        0 <= i < entries.len(),
    ensures
        ids_of(entries.remove(i)) == ids_of(entries).remove(entries[i].propose_id),
{
    broadcast use vstd::seq_lib::group_to_multiset_ensures;

    let f = |e: LogEntry<C>| e.propose_id;
    assert(entries.remove(i).map_values(f) =~= entries.map_values(f).remove(i));
}

/// The leading entries are a prefix, and the one behind it is not among them.
pub proof fn lemma_leading<C>(entries: Seq<LogEntry<C>>, bound: int, k: int)
    requires
        0 <= k <= entries.len(),
        forall|i: int| 0 <= i < k ==> (#[trigger] entries[i]).index <= bound,
        k == entries.len() || entries[k].index > bound,
    ensures
        leading(entries, bound) == k,
    decreases k,
{
    if k > 0 {
        assert(entries[0].index <= bound);
        let rest = entries.drop_first();
        assert forall|i: int| 0 <= i < k - 1 implies (#[trigger] rest[i]).index <= bound by {
            assert(entries[i + 1].index <= bound);
        }
        lemma_leading(rest, bound, k - 1);
    }
}

/// Of consecutive entries behind the index `base`, those up to `bound` are as many as `bound` lies
/// behind `base`, or all.
pub proof fn lemma_leading_contiguous<C>(entries: Seq<LogEntry<C>>, base: int, bound: int)
    requires
        contiguous(entries, base),
        base <= bound,
    ensures
        leading(entries, bound) == if bound - base < entries.len() {
            bound - base
        } else {
            entries.len() as int
        },
{
    let k = if bound - base < entries.len() {
        bound - base
    } else {
        entries.len() as int
    };
    lemma_leading(entries, bound, k);
}

/// The matching entries are there and have the same terms.
pub proof fn lemma_matching_prefix<C>(a: Seq<LogEntry<C>>, b: Seq<LogEntry<C>>)
    ensures
        matching(a, b) <= a.len(),
        matching(a, b) <= b.len(),
        forall|i: int| 0 <= i < matching(a, b) ==> (#[trigger] a[i]).term == b[i].term,
    decreases a.len(),
{
    if a.len() > 0 && b.len() > 0 && a[0].term == b[0].term {
        let (a1, b1) = (a.drop_first(), b.drop_first());
        lemma_matching_prefix(a1, b1);
        assert forall|i: int| 0 <= i < matching(a, b) implies (#[trigger] a[i]).term
            == b[i].term by {
            if i > 0 {
                assert(a1[i - 1].term == b1[i - 1].term);
            }
        }
    }
}

/// The number of matching entries is the length of the longest common prefix by terms.
pub proof fn lemma_matching<C>(a: Seq<LogEntry<C>>, b: Seq<LogEntry<C>>, k: int)
    requires
        0 <= k <= a.len(),
        k <= b.len(),
        forall|i: int| 0 <= i < k ==> (#[trigger] a[i]).term == b[i].term,
        k == a.len() || k == b.len() || a[k].term != b[k].term,
    ensures
        matching(a, b) == k,
    decreases k,
{
    if k > 0 {
        assert(a[0].term == b[0].term);
        let (a1, b1) = (a.drop_first(), b.drop_first());
        assert forall|i: int| 0 <= i < k - 1 implies (#[trigger] a1[i]).term == b1[i].term by {
            assert(a[i + 1].term == b[i + 1].term);
        }
        lemma_matching(a1, b1, k - 1);
    }
}

} // verus!
