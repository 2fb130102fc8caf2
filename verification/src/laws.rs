//! Laws of the log that relate several of its operations.

use crate::batch::{
    full_batch, lemma_full_batch_agree, lemma_full_batch_reaches, lemma_full_batch_unique,
    lemma_total_agree, total,
};
use crate::entry::{EncodeError, EntryData, LogEntry, LogIndex, ProposeId};
use crate::log::Log;
use crate::model::{
    contiguous, indexes_of, lemma_leading_contiguous, lemma_matching, lemma_matching_prefix,
    matching, sizes_of, LogState,
};
use crate::snapshot::SnapshotMeta;
use std::sync::Arc;
use vstd::prelude::*;

verus! {

/// The value of a well-formed log is one with consecutive indexes, and its last index is as far
/// from the base as there are entries.
pub proof fn law_wf_valid<C>(log: Log<C>)
    requires
        log.wf(),
    ensures
        log@.valid(),
        log@.last_index() == log.base_index + log@.entries.len(),
{
    law_last_index(log@);
}

/// The last index is as far from the base as there are entries.
pub proof fn law_last_index<C>(s: LogState<C>)
    requires
        s.valid(),
    ensures
        s.last_index() == s.base_index + s.entries.len(),
{
    if s.entries.len() > 0 {
        assert(s.entries[s.entries.len() - 1].index == s.base_index + s.entries.len());
    }
}

/// A new log agrees with the entry of index 0 and term 0, although it holds no entry.
pub proof fn law_fake_entry<C>(batch_limit: nat, entries_cap: nat)
    ensures
        LogState::<C>::initial(batch_limit, entries_cap).agrees(0, 0),
        LogState::<C>::initial(batch_limit, entries_cap).last_index() == 0,
        LogState::<C>::initial(batch_limit, entries_cap).last_term() == 0,
{
}

/// A log agrees with one term at an index at most, and at that of an entry in memory exactly with
/// the term of this entry.
pub proof fn law_agrees_with_one_term<C>(s: LogState<C>, i: int, t1: int, t2: int)
    ensures
        s.agrees(i, t1) && s.agrees(i, t2) ==> t1 == t2,
        s.has(i) <==> s.base_index < i <= s.base_index + s.entries.len(),
        s.has(i) ==> (s.agrees(i, t1) <==> s.entries[i - s.base_index - 1].term == t1),
        i == s.base_index ==> (s.agrees(i, t1) <==> s.base_term == t1),
        s.agrees(i, t1) ==> s.base_index <= i <= s.base_index + s.entries.len(),
{
}

// ---------------------------------------------------------------------------------------------
// Batches
// ---------------------------------------------------------------------------------------------

/// Every entry starts a batch.
pub proof fn law_batch_exists<C>(s: LogState<C>, left: int)
    requires
        s.valid(),
        s.batch_limit > 0,
        0 <= left < s.entries.len(),
    ensures
        exists|right: int| s.is_batch(left, right),
{
    if s.reaches_limit(left) {
        let right = lemma_full_batch_exists(s.sizes, s.batch_limit, left, left);
        assert(s.is_batch(left, right));
    } else {
        assert(s.is_batch(left, s.sizes.len() - 1));
    }
}

/// Where the entries from `left` on reach the limit, but not before position `from`, there is a
/// full batch.
proof fn lemma_full_batch_exists(sizes: Seq<nat>, limit: nat, left: int, from: int) -> (right: int)
    requires
        0 <= left <= from < sizes.len(),
        total(sizes, left, from) < limit,
        total(sizes, left, sizes.len() as int) >= limit,
    ensures
        full_batch(sizes, limit, left, right),
    decreases sizes.len() - from,
{
    if total(sizes, left, from + 1) >= limit {
        if total(sizes, left, from + 1) == limit || from == left {
            from
        } else {
            from - 1
        }
    } else {
        lemma_full_batch_exists(sizes, limit, left, from + 1)
    }
}

/// The batch from an entry is determined by the sizes and the limit alone.
pub proof fn law_batch_unique<C>(s: LogState<C>, left: int, r1: int, r2: int)
    requires
        s.is_batch(left, r1),
        s.is_batch(left, r2),
    ensures
        r1 == r2,
{
    if s.reaches_limit(left) {
        lemma_full_batch_unique(s.sizes, s.batch_limit, left, r1, r2);
    }
}

/// A batch holds its first entry, and its size stays within the limit unless that entry alone
/// exceeds it.
pub proof fn law_batch_within_limit<C>(s: LogState<C>, left: int, right: int)
    requires
        s.valid(),
        0 <= left < s.entries.len(),
        s.is_batch(left, right),
    ensures
        left <= right < s.entries.len(),
        right == left || total(s.sizes, left, right + 1) <= s.batch_limit,
{
}

/// A batch takes all that fits: it goes up to the last entry, or meets the limit, or would exceed
/// it with the next entry.
pub proof fn law_batch_maximal<C>(s: LogState<C>, left: int, right: int)
    requires
        s.valid(),
        0 <= left < s.entries.len(),
        s.is_batch(left, right),
    ensures
        right + 1 == s.entries.len() || total(s.sizes, left, right + 1) >= s.batch_limit || total(
            s.sizes,
            left,
            right + 2,
        ) > s.batch_limit,
{
}

/// Where there is no next batch, the batch is the whole rest of the log.
pub proof fn law_last_batch_is_rest<C>(s: LogState<C>, left: int, right: int)
    requires
        s.valid(),
        0 <= left < s.entries.len(),
        s.is_batch(left, right),
        !s.reaches_limit(left),
    ensures
        right + 1 == s.entries.len(),
        s.base_index + 1 + right == s.last_index(),
        total(s.sizes, left, right + 1) < s.batch_limit,
{
    law_last_index(s);
}

/// The records that a log keeps of its batches are determined by the indexes, the sizes and the
/// limit: they are the same however the log came about, by pushing, truncating or compacting.
pub proof fn law_batch_records_determined<C>(a: Log<C>, b: Log<C>)
    requires
        a.consistent(),
        b.consistent(),
        indexes_of(a@.entries) == indexes_of(b@.entries),
        a@.sizes == b@.sizes,
        a.batch_limit == b.batch_limit,
    ensures
        a.batch_end@ == b.batch_end@,
        a.first_idx_in_cur_batch == b.first_idx_in_cur_batch,
        a.cur_batch_size == b.cur_batch_size,
{
    lemma_first_open_le(a, b);
    lemma_first_open_le(b, a);
    let limit = a.batch_limit as nat;
    let indexes = indexes_of(a@.entries);
    assert forall|i: int| 0 <= i < a.batch_end@.len() implies a.batch_end@[i]
        == b.batch_end@[i] by {
        if i < a.first_idx_in_cur_batch {
            let (x, y) = (a.batch_end@[i], b.batch_end@[i]);
            let r1 = choose|r: int| #[trigger]
                full_batch(a@.sizes, limit, i, r) && indexes[r] == x;
            let r2 = choose|r: int| #[trigger]
                full_batch(a@.sizes, limit, i, r) && indexes[r] == y;
            lemma_full_batch_unique(a@.sizes, limit, i, r1, r2);
        }
    }
    assert(a.batch_end@ =~= b.batch_end@);
}

/// Of two logs with the same sizes and limit, the open batch of the second does not start later.
proof fn lemma_first_open_le<C>(a: Log<C>, b: Log<C>)
    requires
        a.consistent(),
        b.consistent(),
        a@.sizes == b@.sizes,
        a.batch_limit == b.batch_limit,
    ensures
        b.first_idx_in_cur_batch <= a.first_idx_in_cur_batch,
{
    let i = a.first_idx_in_cur_batch as int;
    let limit = b.batch_limit as nat;
    if i < b.first_idx_in_cur_batch {
        let end = b.batch_end@[i];
        let right = choose|r: int| #[trigger]
            full_batch(b@.sizes, limit, i, r) && indexes_of(b@.entries)[r] == end;
        lemma_full_batch_reaches(b@.sizes, limit, i, right);
    }
}

/// All that a log keeps of its entries is determined by these, their sizes and the limit: the
/// records of the batches and of the proposal ids.
pub proof fn law_records_determined<C>(a: Log<C>, b: Log<C>)
    requires
        a.consistent(),
        b.consistent(),
        a@.entries == b@.entries,
        a@.sizes == b@.sizes,
        a.batch_limit == b.batch_limit,
    ensures
        a.batch_end@ == b.batch_end@,
        a.first_idx_in_cur_batch == b.first_idx_in_cur_batch,
        a.cur_batch_size == b.cur_batch_size,
        a.cmd_ids@ == b.cmd_ids@,
{
    law_batch_records_determined(a, b);
}

// ---------------------------------------------------------------------------------------------
// Pushing and truncating
// ---------------------------------------------------------------------------------------------

/// The size of an entry does not depend on its index, so a size that was computed before the
/// entry got its index is right.
pub proof fn law_size_ignores_index<C>(entry: LogEntry<C>, index: LogIndex)
    ensures
        entry.at(index).size() == entry.size(),
{
}

/// The size of an entry is the number of bytes of its encoding: 36 and those of the command, as far
/// as a `u64` can tell it. One byte more makes it larger by one.
pub proof fn law_size_counts_bytes<C>(a: LogEntry<C>, b: LogEntry<C>, x: Vec<u8>, y: Vec<u8>)
    requires
        a.entry_data matches EntryData::Command(command) && command.encoded == Ok::<
            Vec<u8>,
            Arc<bincode::ErrorKind>,
        >(x),
        b.entry_data matches EntryData::Command(command) && command.encoded == Ok::<
            Vec<u8>,
            Arc<bincode::ErrorKind>,
        >(y),
        36 + x@.len() <= u64::MAX,
        36 + y@.len() <= u64::MAX,
    ensures
        a.size() == Ok::<nat, EncodeError>(36 + x@.len()),
        a.size() is Ok,
        b.size() is Ok,
        a.size()->Ok_0 - b.size()->Ok_0 == x@.len() - y@.len(),
{
}

/// To prepare an entry, which takes its size with the index 0, and to push it later has the effect
/// of pushing it at once: the entry, its size and thereby the log are the same.
pub proof fn law_prepared_push_is_push<C>(
    s: LogState<C>,
    prepared: LogEntry<C>,
    size: nat,
    term: u64,
    propose_id: ProposeId,
    entry_data: EntryData<C>,
)
    requires
        prepared == (LogEntry { term, index: 0, propose_id, entry_data }),
        prepared.size() == Ok::<nat, EncodeError>(size),
    ensures
        ({
            let index = (s.last_index() + 1) as u64;
            let pushed = LogEntry { term, index, propose_id, entry_data };
            &&& prepared.at(index) == pushed
            &&& pushed.size() == Ok::<nat, EncodeError>(size)
            &&& s.pushed(prepared.at(index), size) == s.pushed(pushed, pushed.size()->Ok_0)
        }),
{
}

/// A pushed entry is found under its index and by its proposal id and is the last one, and the
/// other entries are found as before.
pub proof fn law_push_then_get<C>(s: LogState<C>, entry: LogEntry<C>, size: nat)
    requires
        s.valid(),
        entry.index == s.last_index() + 1,
    ensures
        s.pushed(entry, size).valid(),
        s.pushed(entry, size).has(entry.index as int),
        s.pushed(entry, size).entry(entry.index as int) == entry,
        s.pushed(entry, size).proposed(entry.propose_id),
        s.pushed(entry, size).last_index() == entry.index,
        s.pushed(entry, size).last_term() == entry.term,
        forall|i: int| #[trigger]
            s.has(i) ==> s.pushed(entry, size).has(i) && s.pushed(entry, size).entry(i) == s.entry(
                i,
            ),
        forall|id: ProposeId| #[trigger] s.proposed(id) ==> s.pushed(entry, size).proposed(id),
{
    law_last_index(s);
    let t = s.pushed(entry, size);
    assert(t.entries[s.entries.len() as int] == entry);
    assert forall|id: ProposeId| #[trigger] s.proposed(id) implies t.proposed(id) by {
        let i = choose|i: int|
            0 <= i < s.entries.len() && (#[trigger] s.entries[i]).propose_id == id;
        assert(t.entries[i].propose_id == id);
    }
}

/// Truncating undoes a push.
pub proof fn law_truncate_undoes_push<C>(s: LogState<C>, entry: LogEntry<C>, size: nat)
    requires
        s.valid(),
    ensures
        s.pushed(entry, size).truncated(s.entries.len()) == s,
{
    let t = s.pushed(entry, size).truncated(s.entries.len());
    assert(t.entries =~= s.entries);
    assert(t.sizes =~= s.sizes);
}

/// Truncating twice is truncating to the shorter length.
pub proof fn law_truncate_twice<C>(s: LogState<C>, m: nat, n: nat)
    requires
        s.valid(),
    ensures
        s.truncated(m).truncated(n) == s.truncated(if m < n { m } else { n }),
{
    let t = s.truncated(m).truncated(n);
    let u = s.truncated(if m < n { m } else { n });
    assert(t.entries =~= u.entries);
    assert(t.sizes =~= u.sizes);
}

// ---------------------------------------------------------------------------------------------
// Appending
// ---------------------------------------------------------------------------------------------

/// After an append the log ends with the given entries and agrees with each of them: it keeps
/// its own entries as long as they have the same terms, and holds the given ones from then on.
/// The entries up to the one that they were appended to are as before.
pub proof fn law_append_agrees<C>(
    s: LogState<C>,
    prev: int,
    term: int,
    new: Seq<LogEntry<C>>,
)
    requires
        s.valid(),
        s.agrees(prev, term),
        s.in_order(prev, new),
    ensures
        s.appended(prev, new).valid(),
        s.appended(prev, new).agrees(prev, term),
        s.appended(prev, new).last_index() == prev + new.len(),
        forall|j: int|
            0 <= j < new.len() ==> s.appended(prev, new).agrees(
                prev + 1 + j,
                (#[trigger] new[j]).term as int,
            ),
        forall|j: int|
            0 <= j < new.len() ==> s.appended(prev, new).entry(prev + 1 + j) == if j < matching(
                s.entries.skip(prev - s.base_index),
                new,
            ) {
                s.entry(prev + 1 + j)
            } else {
                #[trigger] new[j]
            },
        forall|i: int| #[trigger]
            s.has(i) && i <= prev ==> s.appended(prev, new).has(i) && s.appended(prev, new).entry(i)
                == s.entry(i),
{
    let t = s.appended(prev, new);
    let start = prev - s.base_index;
    let tail = s.entries.skip(start);
    lemma_matching_prefix(tail, new);
    let k = matching(tail, new) as int;
    assert forall|i: int| 0 <= i < t.entries.len() implies (#[trigger] t.entries[i]).index
        == t.base_index + 1 + i by {
        if i < start + k {
            assert(t.entries[i] == s.entries[i]);
        } else {
            assert(t.entries[i] == s.fresh(prev, new)[i - start - k]);
        }
    }
    law_last_index(t);
    assert forall|j: int| 0 <= j < new.len() implies t.agrees(
        prev + 1 + j,
        (#[trigger] new[j]).term as int,
    ) && t.entry(prev + 1 + j) == if j < k {
        s.entry(prev + 1 + j)
    } else {
        new[j]
    } by {
        if j < k {
            assert(tail[j] == s.entries[start + j]);
            assert(t.entries[start + j] == s.entries[start + j]);
        } else {
            assert(t.entries[start + j] == new[j]);
        }
    }
}

/// A batch of a leader's log is in order behind the entry before it, and a follower that agrees
/// with the leader on that entry agrees with it on the whole batch once it has appended it.
pub proof fn law_replication<C>(
    leader: LogState<C>,
    follower: LogState<C>,
    left: int,
    right: int,
    term: int,
)
    requires
        leader.valid(),
        follower.valid(),
        0 <= left < leader.entries.len(),
        leader.is_batch(left, right),
        leader.agrees(leader.base_index + left, term),
        follower.agrees(leader.base_index + left, term),
    ensures
        contiguous(leader.entries.subrange(left, right + 1), leader.base_index + left),
        forall|i: int|
            leader.base_index + left < i <= leader.base_index + right + 1
                ==> #[trigger] follower.appended(
                leader.base_index + left,
                leader.entries.subrange(left, right + 1),
            ).agrees(i, leader.entry(i).term as int),
        follower.appended(
            leader.base_index + left,
            leader.entries.subrange(left, right + 1),
        ).last_index() == leader.base_index + right + 1,
{
    let prev = leader.base_index + left;
    let batch = leader.entries.subrange(left, right + 1);
    law_batch_within_limit(leader, left, right);
    assert forall|i: int| 0 <= i < batch.len() implies (#[trigger] batch[i]).index == prev + 1
        + i by {
        assert(batch[i] == leader.entries[left + i]);
    }
    let tail = follower.entries.skip(prev - follower.base_index);
    lemma_matching_prefix(tail, batch);
    let k = matching(tail, batch) as int;
    assert forall|i: int| 0 <= i < batch.len() - k implies (#[trigger] follower.fresh(
        prev,
        batch,
    )[i]).index == follower.base_index + follower.kept(prev, batch) + 1 + i by {
        assert(follower.fresh(prev, batch)[i] == batch[k + i]);
    }
    law_append_agrees(follower, prev, term, batch);
    assert forall|i: int| prev < i <= leader.base_index + right
        + 1 implies #[trigger] follower.appended(prev, batch).agrees(
        i,
        leader.entry(i).term as int,
    ) by {
        assert(batch[i - prev - 1] == leader.entry(i));
    }
}

/// Appending the same entries again changes nothing more.
pub proof fn law_append_idempotent<C>(
    s: LogState<C>,
    prev: int,
    term: int,
    new: Seq<LogEntry<C>>,
)
    requires
        s.valid(),
        s.agrees(prev, term),
    ensures
        s.appended(prev, new).fresh(prev, new) == Seq::<LogEntry<C>>::empty(),
        s.appended(prev, new).appended(prev, new) == s.appended(prev, new),
{
    let t = s.appended(prev, new);
    let start = prev - s.base_index;
    let old_tail = s.entries.skip(start);
    lemma_matching_prefix(old_tail, new);
    let k = matching(old_tail, new) as int;
    let tail = t.entries.skip(start);
    assert forall|i: int| 0 <= i < new.len() implies (#[trigger] tail[i]).term == new[i].term by {
        if i < k {
            assert(old_tail[i] == s.entries[start + i]);
            assert(tail[i] == s.entries[start + i]);
        } else {
            assert(tail[i] == new[i]);
        }
    }
    lemma_matching(tail, new, new.len() as int);
    let u = t.appended(prev, new);
    assert(t.fresh(prev, new) =~= Seq::<LogEntry<C>>::empty());
    assert(u.entries =~= t.entries);
    assert(u.sizes =~= t.sizes);
}

// ---------------------------------------------------------------------------------------------
// Compacting, restoring, resetting and committing
// ---------------------------------------------------------------------------------------------

/// How many entries compaction discards from a log without a gap, and where its base then lies.
proof fn lemma_compactable<C>(s: LogState<C>)
    requires
        s.valid(),
    ensures
        s.compactable() <= s.entries.len(),
        s.compacted().base_index == s.base_index + s.compactable(),
        s.compactable() == if s.entries.len() == 0 || s.last_as <= s.base_index + 1 || s.last_as
            - s.base_index - 1 < s.entries_cap {
            0
        } else if s.last_as - s.entries_cap - s.base_index < s.entries.len() {
            s.last_as - s.entries_cap - s.base_index
        } else {
            s.entries.len() as int
        },
{
    if s.entries.len() > 0 {
        assert(s.entries[0].index == s.base_index + 1);
        if s.last_as - s.entries_cap >= s.base_index {
            lemma_leading_contiguous(
                s.entries,
                s.base_index as int,
                s.last_as - s.entries_cap,
            );
        }
    }
    let n = s.compactable() as int;
    if n > 0 {
        assert(s.entries[n - 1].index == s.base_index + n);
    }
}

/// Compaction keeps the last index and term and every entry that is still in memory, and the log
/// agrees with the same entries as before from its new base on. It drops no entry that is not
/// applied or is among the last `entries_cap` that are.
pub proof fn law_compact_keeps<C>(s: LogState<C>)
    requires
        s.valid(),
    ensures
        s.compacted().valid(),
        s.compacted().last_index() == s.last_index(),
        s.compacted().last_term() == s.last_term(),
        s.compacted().base_index >= s.base_index,
        s.agrees(s.compacted().base_index as int, s.compacted().base_term as int),
        forall|i: int| #[trigger]
            s.compacted().has(i) <==> s.has(i) && i > s.compacted().base_index,
        forall|i: int| #[trigger]
            s.compacted().has(i) ==> s.compacted().entry(i) == s.entry(i),
        forall|i: int| #[trigger]
            s.has(i) && i > s.last_as - s.entries_cap ==> s.compacted().has(i),
        forall|i: int, term: int|
            i >= s.compacted().base_index ==> (#[trigger] s.compacted().agrees(i, term)
                <==> s.agrees(i, term)),
{
    let n = s.compactable() as int;
    let t = s.compacted();
    lemma_compactable(s);
    assert forall|i: int| 0 <= i < t.entries.len() implies (#[trigger] t.entries[i]).index
        == t.base_index + 1 + i by {
        assert(t.entries[i] == s.entries[n + i]);
    }
    law_last_index(s);
    law_last_index(t);
}

/// Compaction keeps the batches: from an entry that is still in memory on, the limit is reached if
/// it was before, and the batch ends with the same entry.
pub proof fn law_compact_keeps_batches<C>(s: LogState<C>)
    requires
        s.valid(),
    ensures
        forall|i: int| #[trigger]
            s.compacted().has(i) ==> s.compacted().reaches_limit(s.compacted().position(i))
                == s.reaches_limit(s.position(i)),
        forall|i: int, r: int| #[trigger]
            s.compacted().has(i) ==> (#[trigger] s.compacted().is_batch(
                s.compacted().position(i),
                r,
            ) <==> s.is_batch(s.position(i), r + s.compactable())),
{
    law_compact_keeps(s);
    lemma_compactable(s);
    let t = s.compacted();
    let n = s.compactable() as int;
    let limit = s.batch_limit;
    let len = t.sizes.len() as int;
    assert forall|i: int| #[trigger] t.has(i) implies t.reaches_limit(t.position(i))
        == s.reaches_limit(s.position(i)) by {
        lemma_total_agree(s.sizes, t.sizes, n, t.position(i), len);
    }
    assert forall|i: int, r: int| #[trigger] t.has(i) implies (#[trigger] t.is_batch(
        t.position(i),
        r,
    ) <==> s.is_batch(s.position(i), r + n)) by {
        let left = t.position(i);
        assert(s.position(i) == left + n);
        assert(t.reaches_limit(left) == s.reaches_limit(left + n));
        if full_batch(t.sizes, limit, left, r) {
            lemma_full_batch_agree(t.sizes, s.sizes, limit, -n, left + n, r + n);
        }
        if full_batch(s.sizes, limit, left + n, r + n) {
            lemma_full_batch_agree(s.sizes, t.sizes, limit, n, left, r);
        }
    }
}

/// The batch that is handed out from an entry which is still in memory is the same before and
/// after compaction.
pub proof fn law_compact_keeps_handed_out<C>(s: LogState<C>, i: int, before: nat, after: nat)
    requires
        s.valid(),
        s.compacted().has(i),
        s.is_batch(s.position(i), s.position(i) + before - 1),
        s.compacted().is_batch(s.compacted().position(i), s.compacted().position(i) + after - 1),
    ensures
        before == after,
        s.compacted().entries.subrange(
            s.compacted().position(i),
            s.compacted().position(i) + after,
        ) == s.entries.subrange(s.position(i), s.position(i) + before),
{
    law_compact_keeps(s);
    law_compact_keeps_batches(s);
    lemma_compactable(s);
    let t = s.compacted();
    let (p, q) = (s.position(i), t.position(i));
    assert(s.is_batch(p, q + after - 1 + s.compactable()));
    law_batch_unique(s, p, p + before - 1, p + after - 1);
    law_batch_within_limit(s, p, p + before - 1);
    assert(t.entries.subrange(q, q + after) =~= s.entries.subrange(p, p + before));
}

/// Compaction touches nothing but the entries in memory and the base.
pub proof fn law_compact_frame<C>(s: LogState<C>)
    ensures
        s.compacted().batch_limit == s.batch_limit,
        s.compacted().entries_cap == s.entries_cap,
        s.compacted().commit_index == s.commit_index,
        s.compacted().last_as == s.last_as,
        s.compacted().last_exe == s.last_exe,
        s.compacted().fallback_contexts == s.fallback_contexts,
{
}

/// Of the entries that were applied, compaction leaves `entries_cap` in memory at most, or one.
pub proof fn law_compact_bounds<C>(s: LogState<C>)
    requires
        s.valid(),
        s.compacted().entries.len() > 0,
    ensures
        s.last_as - s.compacted().base_index <= s.entries_cap || s.last_as
            - s.compacted().base_index <= 1,
{
    lemma_compactable(s);
}

/// Compacting again discards nothing more.
pub proof fn law_compact_idempotent<C>(s: LogState<C>)
    requires
        s.valid(),
    ensures
        s.compacted().compacted() == s.compacted(),
{
    law_compact_keeps(s);
    let t = s.compacted();
    lemma_compactable(s);
    lemma_compactable(t);
    assert(t.compactable() == 0);
    assert(t.compacted() =~= t);
}

/// Restoring the entries of a log whose sizes are those of the encodings gives the same log.
pub proof fn law_restore_same<C>(s: LogState<C>)
    requires
        s.sizes == sizes_of(s.entries),
    ensures
        s.restored(s.entries) == s,
{
}

/// Restoring entries has the effect of pushing them one after the other into the cleared log. The
/// entries, and with them all that is kept of them, are those of a new log into which they were
/// pushed: nothing is left of the old ones. All else stays.
pub proof fn law_restore_is_pushing<C>(s: LogState<C>, entries: Seq<LogEntry<C>>, entries_cap: nat)
    ensures
        s.restored(entries) == s.cleared().pushed_all(entries),
        s.restored(entries).entries == LogState::<C>::initial(
            s.batch_limit,
            entries_cap,
        ).pushed_all(entries).entries,
        s.restored(entries).sizes == LogState::<C>::initial(s.batch_limit, entries_cap).pushed_all(
            entries,
        ).sizes,
        s.restored(entries) == (LogState {
            entries: s.restored(entries).entries,
            sizes: s.restored(entries).sizes,
            ..s
        }),
    decreases entries.len(),
{
    let fresh = LogState::<C>::initial(s.batch_limit, entries_cap);
    if entries.len() == 0 {
        assert(s.restored(entries) =~= s.cleared());
        assert(s.restored(entries).entries =~= fresh.entries);
        assert(s.restored(entries).sizes =~= fresh.sizes);
    } else {
        let init = entries.drop_last();
        let last = entries.last();
        law_restore_is_pushing(s, init, entries_cap);
        assert(entries =~= init.push(last));
        assert(sizes_of(entries) =~= sizes_of(init).push(last.size()->Ok_0));
        assert(s.restored(entries) =~= s.restored(init).pushed(last, last.size()->Ok_0));
    }
}

/// Entries that are in order may begin anywhere: once compaction discards the first of them, the
/// base lies directly before those that stay.
pub proof fn law_compact_closes_gap<C>(s: LogState<C>, base: int)
    requires
        contiguous(s.entries, base),
        s.sizes.len() == s.entries.len(),
        s.compactable() > 0,
    ensures
        s.compacted().valid(),
        s.compacted().base_index == base + s.compactable(),
        s.compacted().last_index() == s.entries.last().index,
        s.compacted().last_term() == s.entries.last().term,
{
    let n = s.compactable() as int;
    let t = s.compacted();
    assert(s.entries[0].index == base + 1);
    lemma_leading_contiguous(s.entries, base, s.last_as - s.entries_cap);
    assert(s.entries[n - 1].index == base + n);
    assert forall|i: int| 0 <= i < t.entries.len() implies (#[trigger] t.entries[i]).index
        == t.base_index + 1 + i by {
        assert(t.entries[i] == s.entries[n + i]);
    }
}

/// After a reset the log ends with the last entry of the snapshot and agrees with it. All that the
/// snapshot covers counts as committed and applied, whatever the log was before.
pub proof fn law_reset_to_snapshot<C>(s: LogState<C>, meta: SnapshotMeta)
    ensures
        s.reset(meta).valid(),
        s.reset(meta).last_index() == meta.last_included_index,
        s.reset(meta).last_term() == meta.last_included_term,
        s.reset(meta).agrees(meta.last_included_index as int, meta.last_included_term as int),
        s.reset(meta).commit_index == meta.last_included_index,
        s.reset(meta).last_as == meta.last_included_index,
        s.reset(meta).last_exe == meta.last_included_index,
{
}

/// After a commit the commit index is the given one. It splits the contexts: those up to the
/// committed index are settled, the others stay, and none changes. A later commit settles what it
/// would have settled without the earlier one.
pub proof fn law_commit_splits<C>(s: LogState<C>, i: nat, j: nat)
    requires
        i <= j,
    ensures
        s.settled(i).union_prefer_right(s.committed(i).fallback_contexts) == s.fallback_contexts,
        s.settled(i).dom().disjoint(s.committed(i).fallback_contexts.dom()),
        s.committed(i).commit_index == i,
        s.committed(i).committed(j).commit_index == j,
        s.committed(i).committed(j) == s.committed(j),
{
    assert(s.settled(i).union_prefer_right(s.committed(i).fallback_contexts)
        =~= s.fallback_contexts);
    assert(s.committed(i).committed(j).fallback_contexts =~= s.committed(j).fallback_contexts);
}

/// What was handed to after-sync was handed to speculative execution, and no operation of the log
/// changes that.
pub proof fn law_execution_order<C>(
    s: LogState<C>,
    entry: LogEntry<C>,
    size: nat,
    n: nat,
    prev: int,
    entries: Seq<LogEntry<C>>,
    meta: SnapshotMeta,
)
    requires
        s.last_as <= s.last_exe,
    ensures
        LogState::<C>::initial(size, n).last_as <= LogState::<C>::initial(size, n).last_exe,
        s.pushed(entry, size).last_as <= s.pushed(entry, size).last_exe,
        s.truncated(n).last_as <= s.truncated(n).last_exe,
        s.popped().last_as <= s.popped().last_exe,
        s.cleared().last_as <= s.cleared().last_exe,
        s.compacted().last_as <= s.compacted().last_exe,
        s.committed(n).last_as <= s.committed(n).last_exe,
        s.appended(prev, entries).last_as <= s.appended(prev, entries).last_exe,
        s.restored(entries).last_as <= s.restored(entries).last_exe,
        s.reset(meta).last_as <= s.reset(meta).last_exe,
{
}

// ---------------------------------------------------------------------------------------------
// Comparing logs
// ---------------------------------------------------------------------------------------------

/// The term decides first, whatever the indexes are; between equal terms the index does.
pub proof fn law_term_decides_first<C>(s: LogState<C>, term: nat, index: nat)
    ensures
        term > s.last_term() ==> s.up_to_date(term, index),
        term < s.last_term() ==> !s.up_to_date(term, index),
        term == s.last_term() ==> (s.up_to_date(term, index) <==> index >= s.last_index()),
{
}

/// A log is up to date with itself; of two logs, at least one is up to date with the other; and a
/// log that is up to date with a second is so with all that the second is up to date with.
pub proof fn law_up_to_date_orders<C>(a: LogState<C>, b: LogState<C>, c: LogState<C>)
    ensures
        a.up_to_date(a.last_term(), a.last_index()),
        a.up_to_date(b.last_term(), b.last_index()) || b.up_to_date(a.last_term(), a.last_index()),
        a.up_to_date(b.last_term(), b.last_index()) && b.up_to_date(c.last_term(), c.last_index())
            ==> a.up_to_date(c.last_term(), c.last_index()),
{
}

} // verus!
