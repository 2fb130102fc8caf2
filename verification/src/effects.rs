//! What each call does, in terms of its arguments, its result and the fields of the log before and
//! after it.
//!
//! The contracts of the operations go through the log as a mathematical value. Here the same calls
//! are described without it: which entries the log holds afterwards, at which positions, with
//! which sizes, and what becomes of each of the other fields.

use crate::append::{AppendSuccess, PreparedEntry};
use crate::batch::{full_batch, lemma_full_batch_reaches, lemma_total_split, total};
use crate::entry::{Command, EncodeError, EntryData, LogEntry, LogIndex, ProposeId};
use crate::fallback::FallbackContext;
use crate::ids::IdBag;
use crate::log::{pointee, pointees, Entry, Log};
use crate::model::{
    all_encodable, conf_change_indexes, conf_changes, indexes_of, leading, lemma_matching_prefix,
    matching, sizes_of,
};
use crate::range::LogRange;
use crate::snapshot::SnapshotMeta;
use crate::state::{CompactorAction, LeaseAction, RoleActions, State};
use std::collections::HashMap;
use std::sync::Arc;
use std::time::Duration;
use vstd::prelude::*;

verus! {

/// Whether two logs are the same but for their entries and what is kept of these.
pub open spec fn same_but_entries<C>(a: Log<C>, b: Log<C>) -> bool {
    &&& a.batch_limit == b.batch_limit
    &&& a.entries_cap == b.entries_cap
    &&& a.base_index == b.base_index
    &&& a.base_term == b.base_term
    &&& a.commit_index == b.commit_index
    &&& a.last_as == b.last_as
    &&& a.last_exe == b.last_exe
    &&& a.fallback_contexts@ == b.fallback_contexts@
}

/// Whether the first `n` entries of a log are those of another one, with their sizes: each is the
/// one that the other log has `shift` positions further on.
pub open spec fn same_entries<C>(a: Log<C>, b: Log<C>, n: int, shift: int) -> bool {
    forall|k: int|
        0 <= k < n ==> {
            &&& *(#[trigger] a.entries@[k]).inner == *b.entries@[k + shift].inner
            &&& a.entries@[k].size == b.entries@[k + shift].size
        }
}

/// Equal values mean equal fields.
proof fn lemma_equal_values<C>(a: Log<C>, b: Log<C>)
    requires
        a@ == b@,
    ensures
        same_but_entries(a, b),
        a.entries@.len() == b.entries@.len(),
        same_entries(a, b, a.entries@.len() as int, 0),
{
    lemma_fields(a);
    lemma_fields(b);
    lemma_same_entries(a, b, a.entries@.len() as int, 0);
}

/// The value of a log is made of its fields.
proof fn lemma_fields<C>(log: Log<C>)
    ensures
        log@.entries.len() == log.entries@.len(),
        log@.sizes.len() == log.entries@.len(),
        forall|k: int|
            0 <= k < log.entries@.len() ==> #[trigger] log@.entries[k] == *log.entries@[k].inner,
        forall|k: int|
            0 <= k < log.entries@.len() ==> #[trigger] log@.sizes[k] == log.entries@[k].size,
        log@.batch_limit == log.batch_limit,
        log@.entries_cap == log.entries_cap,
        log@.base_index == log.base_index,
        log@.base_term == log.base_term,
        log@.commit_index == log.commit_index,
        log@.last_as == log.last_as,
        log@.last_exe == log.last_exe,
        log@.fallback_contexts == log.fallback_contexts@,
{
}

// ---------------------------------------------------------------------------------------------
// Entries and their sizes
// ---------------------------------------------------------------------------------------------

/// The bytes that an entry carries.
pub open spec fn body<C>(data: EntryData<C>) -> Seq<u8> {
    match data {
        EntryData::Command(command) => match command.encoded {
            Ok(bytes) => bytes@,
            Err(_) => Seq::empty(),
        },
        EntryData::ConfChange(bytes) => bytes@,
        EntryData::SetNodeState(bytes) => bytes@,
        _ => Seq::empty(),
    }
}

/// Whether an entry carries a command that could not be encoded.
pub open spec fn is_broken<C>(data: EntryData<C>) -> bool {
    data matches EntryData::Command(command) && command.encoded is Err
}

/// The size of an entry is that of four numbers of 8 bytes each and one of 4, and of the bytes that
/// it carries. It fails exactly where the command could not be encoded, with the cause of that, or
/// where the size exceeds what a `u64` can tell.
pub proof fn law_serialized_size<C>(entry: LogEntry<C>, size: Result<u64, EncodeError>)
    requires
        call_ensures(LogEntry::<C>::serialized_size, (&entry,), size),
    ensures
        !is_broken(entry.entry_data) && 4 * 8 + 4 + body(entry.entry_data).len() <= u64::MAX
            ==> size is Ok && size->Ok_0 == 4 * 8 + 4 + body(entry.entry_data).len(),
        !is_broken(entry.entry_data) && 4 * 8 + 4 + body(entry.entry_data).len() > u64::MAX
            ==> size == Err::<u64, EncodeError>(EncodeError::TooLong),
        is_broken(entry.entry_data) ==> size == Err::<u64, EncodeError>(
            EncodeError::Encoder(entry.entry_data->Command_0.encoded->Err_0),
        ),
{
}

/// The sizes of two entries differ by as many bytes as their bodies do, whatever else differs.
pub proof fn law_sizes_differ_as_bodies<C>(
    a: LogEntry<C>,
    b: LogEntry<C>,
    x: Result<u64, EncodeError>,
    y: Result<u64, EncodeError>,
)
    requires
        call_ensures(LogEntry::<C>::serialized_size, (&a,), x),
        call_ensures(LogEntry::<C>::serialized_size, (&b,), y),
        x is Ok,
        y is Ok,
    ensures
        x->Ok_0 - y->Ok_0 == body(a.entry_data).len() - body(b.entry_data).len(),
{
    law_serialized_size(a, x);
    law_serialized_size(b, y);
}

/// What the log calls the size of an entry is what `serialized_size` computes.
proof fn lemma_size<C>(entry: LogEntry<C>)
    ensures
        entry.size() is Ok <==> !is_broken(entry.entry_data) && 36 + body(entry.entry_data).len()
            <= u64::MAX,
        entry.size() is Ok ==> entry.size()->Ok_0 == 36 + body(entry.entry_data).len(),
        is_broken(entry.entry_data) ==> entry.size() == Err::<nat, EncodeError>(
            EncodeError::Encoder(entry.entry_data->Command_0.encoded->Err_0),
        ),
        entry.size() is Err && !is_broken(entry.entry_data) ==> entry.size() == Err::<
            nat,
            EncodeError,
        >(EncodeError::TooLong),
{
}

/// A new entry holds what it is given, each in its place.
pub proof fn law_new_entry<C>(
    index: LogIndex,
    term: u64,
    id: ProposeId,
    data: EntryData<C>,
    entry: LogEntry<C>,
)
    requires
        call_ensures(LogEntry::<C>::new, (index, term, id, data), entry),
    ensures
        entry.index == index,
        entry.term == term,
        entry.propose_id == id,
        entry.entry_data == data,
{
}

/// A command and its encoding are joined as they are.
pub proof fn law_new_command<C>(
    command: C,
    encoded: Result<Vec<u8>, Arc<bincode::ErrorKind>>,
    joined: Command<C>,
)
    requires
        call_ensures(Command::<C>::new, (command, encoded), joined),
    ensures
        joined.command == command,
        joined.encoded == encoded,
{
}

/// A command becomes what an entry carries as it is.
pub proof fn law_from_command<C>(command: Arc<Command<C>>, data: EntryData<C>)
    requires
        call_ensures(<EntryData<C> as From<Arc<Command<C>>>>::from, (command,), data),
    ensures
        data is Command,
        data->Command_0 == command,
{
}

/// A copy of an entry is the same entry.
pub proof fn law_clone_entry<C>(entry: LogEntry<C>, copy: LogEntry<C>)
    requires
        cloned(entry, copy),
    ensures
        copy.index == entry.index,
        copy.term == entry.term,
        copy.propose_id == entry.propose_id,
        copy.entry_data == entry.entry_data,
{
}

/// Of what an entry may carry, a membership change alone is one.
pub proof fn law_is_conf_change<C>(data: EntryData<C>, b: bool)
    requires
        call_ensures(EntryData::<C>::is_conf_change, (&data,), b),
    ensures
        b <==> data is ConfChange,
{
}

/// Two ids have the same key only if they are the same, in both halves.
pub proof fn law_key(a: ProposeId, b: ProposeId, x: u128, y: u128)
    requires
        call_ensures(ProposeId::key, (&a,), x),
        call_ensures(ProposeId::key, (&b,), y),
    ensures
        x == y <==> a.0 == b.0 && a.1 == b.1,
{
}

/// In a new collection of ids and in one that was cleared no id is found.
pub proof fn law_no_ids(bag: &mut IdBag, new: IdBag, after: IdBag, id: ProposeId, x: bool, y: bool)
    requires
        call_ensures(IdBag::new, (), new),
        call_ensures(IdBag::clear, (bag,), ()),
        after == *final(bag),
        call_ensures(IdBag::contains, (&new, &id), x),
        call_ensures(IdBag::contains, (&after, &id), y),
    ensures
        !x,
        !y,
{
}

/// An id is found once it was inserted, and inserting it changes nothing for the others.
pub proof fn law_insert_id(bag: &mut IdBag, after: IdBag, id: ProposeId, other: ProposeId, b: bool)
    requires
        call_ensures(IdBag::insert, (bag, id), ()),
        after == *final(bag),
        call_ensures(IdBag::contains, (&after, &other), b),
    ensures
        b <==> other == id || old(bag)@.count(other) > 0,
{
}

/// An id is found until it was removed as often as it was inserted, and removing it changes
/// nothing for the others.
pub proof fn law_remove_id(bag: &mut IdBag, after: IdBag, id: ProposeId, other: ProposeId, b: bool)
    requires
        call_ensures(IdBag::remove, (bag, id), ()),
        after == *final(bag),
        call_ensures(IdBag::contains, (&after, &other), b),
    ensures
        b <==> old(bag)@.count(other) > if other == id {
            1nat
        } else {
            0nat
        },
{
}

// ---------------------------------------------------------------------------------------------
// Creating, pushing and removing
// ---------------------------------------------------------------------------------------------

/// A new log holds nothing and has the limits that it is given.
pub proof fn law_new<C>(batch_limit: u64, entries_cap: usize, log: Log<C>)
    requires
        call_ensures(Log::<C>::new, (batch_limit, entries_cap), log),
    ensures
        log.wf(),
        log.entries@.len() == 0,
        log.batch_end@.len() == 0,
        log.batch_limit == batch_limit,
        log.entries_cap == entries_cap,
        log.first_idx_in_cur_batch == 0,
        log.cur_batch_size == 0,
        log.base_index == 0,
        log.base_term == 0,
        log.commit_index == 0,
        log.last_as == 0,
        log.last_exe == 0,
        forall|i: LogIndex| !log.fallback_contexts@.contains_key(i),
{
    lemma_fields(log);
}

/// A pushed entry comes last, with its size. All else stays.
pub proof fn law_push_back<C>(log: &mut Log<C>, inner: Arc<LogEntry<C>>, size: u64)
    requires
        call_ensures(Log::<C>::push_back, (log, inner, size), ()),
    ensures
        final(log).consistent(),
        old(log).wf() && inner.index == old(log).base_index + 1 + old(log).entries@.len()
            ==> final(log).wf(),
        final(log).entries@.len() == old(log).entries@.len() + 1,
        *final(log).entries@.last().inner == *inner,
        final(log).entries@.last().size == size,
        same_entries(*final(log), *old(log), old(log).entries@.len() as int, 0),
        same_but_entries(*final(log), *old(log)),
{
    lemma_fields(*old(log));
    lemma_fields(*final(log));
    let n = old(log).entries@.len() as int;
    assert(final(log)@.entries[n] == *inner);
    assert(final(log)@.sizes[n] == size);
    lemma_same_entries(*final(log), *old(log), n, 0);
}

/// Entries and sizes that are the same in the values are the same in the fields.
proof fn lemma_same_entries<C>(a: Log<C>, b: Log<C>, n: int, shift: int)
    requires
        n <= a.entries@.len(),
        0 <= shift,
        n + shift <= b.entries@.len(),
        forall|k: int| 0 <= k < n ==> #[trigger] a@.entries[k] == b@.entries[k + shift],
        forall|k: int| 0 <= k < n ==> #[trigger] a@.sizes[k] == b@.sizes[k + shift],
    ensures
        same_entries(a, b, n, shift),
{
    assert forall|k: int| 0 <= k < n implies {
        &&& *(#[trigger] a.entries@[k]).inner == *b.entries@[k + shift].inner
        &&& a.entries@[k].size == b.entries@[k + shift].size
    } by {
        assert(a@.entries[k] == b@.entries[k + shift]);
        assert(a@.sizes[k] == b@.sizes[k + shift]);
    }
}

/// A prepared entry holds what it is given, has no index yet, and comes with its size.
pub proof fn law_prepare_entry<C>(
    term: u64,
    id: ProposeId,
    data: EntryData<C>,
    prepared: PreparedEntry<C>,
)
    requires
        !is_broken(data),
        36 + body(data).len() <= u64::MAX,
        call_ensures(Log::<C>::prepare_entry, (term, id, data), prepared),
    ensures
        prepared.entry.term == term,
        prepared.entry.index == 0,
        prepared.entry.propose_id == id,
        prepared.entry.entry_data == data,
        prepared.size == 36 + body(data).len(),
{
    lemma_size(pointee(prepared.entry));
}

/// The index of the last entry, or of the base if there is none.
pub open spec fn end_of<C>(log: Log<C>) -> LogIndex {
    if log.entries@.len() == 0 {
        log.base_index
    } else {
        log.entries@.last().inner.index
    }
}

/// A prepared entry is pushed as it is, but for its index: that is the one behind the last.
pub proof fn law_push_prepared<C>(
    log: &mut Log<C>,
    prepared: PreparedEntry<C>,
    entry: Arc<LogEntry<C>>,
)
    requires
        end_of(*old(log)) < u64::MAX,
        call_ensures(Log::<C>::push_prepared, (log, prepared), entry),
    ensures
        final(log).consistent(),
        old(log).wf() ==> final(log).wf(),
        entry.index == end_of(*old(log)) + 1,
        entry.term == prepared.entry.term,
        entry.propose_id == prepared.entry.propose_id,
        entry.entry_data == prepared.entry.entry_data,
        final(log).entries@.len() == old(log).entries@.len() + 1,
        *final(log).entries@.last().inner == *entry,
        final(log).entries@.last().size == prepared.size,
        same_entries(*final(log), *old(log), old(log).entries@.len() as int, 0),
        same_but_entries(*final(log), *old(log)),
{
    lemma_fields(*old(log));
    lemma_fields(*final(log));
    let n = old(log).entries@.len() as int;
    if n > 0 {
        assert(old(log)@.entries[n - 1] == *old(log).entries@.last().inner);
    }
    assert(final(log)@.entries[n] == *entry);
    assert(final(log)@.sizes[n] == prepared.size);
    lemma_same_entries(*final(log), *old(log), n, 0);
}

/// A push makes an entry of what it is given, under the index behind the last, and keeps it with
/// the size of its encoding.
pub proof fn law_push<C>(
    log: &mut Log<C>,
    term: u64,
    id: ProposeId,
    data: EntryData<C>,
    entry: Arc<LogEntry<C>>,
)
    requires
        end_of(*old(log)) < u64::MAX,
        !is_broken(data),
        36 + body(data).len() <= u64::MAX,
        call_ensures(Log::<C>::push, (log, term, id, data), entry),
    ensures
        final(log).consistent(),
        old(log).wf() ==> final(log).wf(),
        entry.index == end_of(*old(log)) + 1,
        entry.term == term,
        entry.propose_id == id,
        entry.entry_data == data,
        final(log).entries@.len() == old(log).entries@.len() + 1,
        *final(log).entries@.last().inner == *entry,
        final(log).entries@.last().size == 36 + body(data).len(),
        same_entries(*final(log), *old(log), old(log).entries@.len() as int, 0),
        same_but_entries(*final(log), *old(log)),
{
    lemma_fields(*old(log));
    lemma_fields(*final(log));
    lemma_size(pointee(entry));
    let n = old(log).entries@.len() as int;
    if n > 0 {
        assert(old(log)@.entries[n - 1] == *old(log).entries@.last().inner);
    }
    assert(final(log)@.entries[n] == *entry);
    assert(final(log)@.sizes[n] == entry.size()->Ok_0);
    lemma_same_entries(*final(log), *old(log), n, 0);
}

/// Truncating keeps the first entries, as many as asked for or all. All else stays.
pub proof fn law_truncate<C>(log: &mut Log<C>, len: usize)
    requires
        call_ensures(Log::<C>::truncate, (log, len), ()),
    ensures
        final(log).wf(),
        len <= old(log).entries@.len() ==> final(log).entries@.len() == len,
        len > old(log).entries@.len() ==> final(log).entries@.len() == old(log).entries@.len(),
        same_entries(*final(log), *old(log), final(log).entries@.len() as int, 0),
        same_but_entries(*final(log), *old(log)),
{
    lemma_fields(*old(log));
    lemma_fields(*final(log));
    lemma_same_entries(*final(log), *old(log), final(log).entries@.len() as int, 0);
}

/// The first entry is handed out and gone, if there is one. All else stays, the base too.
pub proof fn law_pop_front<C>(log: &mut Log<C>, front: Option<Arc<LogEntry<C>>>)
    requires
        call_ensures(Log::<C>::pop_front, (log,), front),
    ensures
        final(log).consistent(),
        front is Some <==> old(log).entries@.len() > 0,
        front matches Some(entry) ==> {
            &&& *entry == *old(log).entries@[0].inner
            &&& final(log).entries@.len() == old(log).entries@.len() - 1
            &&& same_entries(*final(log), *old(log), old(log).entries@.len() - 1, 1)
        },
        front is None ==> final(log).entries@.len() == 0,
        same_but_entries(*final(log), *old(log)),
{
    lemma_fields(*old(log));
    lemma_fields(*final(log));
    if front is Some {
        lemma_same_entries(*final(log), *old(log), old(log).entries@.len() - 1, 1);
    }
}

/// Clearing leaves no entry. All else stays.
pub proof fn law_clear<C>(log: &mut Log<C>)
    requires
        call_ensures(Log::<C>::clear, (log,), ()),
    ensures
        final(log).wf(),
        final(log).entries@.len() == 0,
        final(log).batch_end@.len() == 0,
        final(log).first_idx_in_cur_batch == 0,
        final(log).cur_batch_size == 0,
        same_but_entries(*final(log), *old(log)),
{
    lemma_fields(*old(log));
    lemma_fields(*final(log));
}

/// A new limit is taken over. All else stays, the entries too.
pub proof fn law_set_batch_limit<C>(log: &mut Log<C>, batch_limit: u64)
    requires
        call_ensures(Log::<C>::set_batch_limit, (log, batch_limit), ()),
    ensures
        final(log).consistent(),
        old(log).wf() ==> final(log).wf(),
        final(log).batch_limit == batch_limit,
        final(log).entries@.len() == old(log).entries@.len(),
        same_entries(*final(log), *old(log), old(log).entries@.len() as int, 0),
        same_but_entries(*final(log), (Log { batch_limit, ..*old(log) })),
{
    lemma_fields(*old(log));
    lemma_fields(*final(log));
    lemma_same_entries(*final(log), *old(log), old(log).entries@.len() as int, 0);
}

// ---------------------------------------------------------------------------------------------
// Looking entries up
// ---------------------------------------------------------------------------------------------

/// The last index and term are those of the last entry, or of the base if there is none.
pub proof fn law_last_entry<C>(log: Log<C>, index: LogIndex, term: u64)
    requires
        call_ensures(Log::<C>::last_log_index, (&log,), index),
        call_ensures(Log::<C>::last_log_term, (&log,), term),
    ensures
        log.entries@.len() == 0 ==> index == log.base_index && term == log.base_term,
        log.entries@.len() > 0 ==> index == log.entries@.last().inner.index && term
            == log.entries@.last().inner.term,
{
    lemma_fields(log);
    if log.entries@.len() > 0 {
        assert(log@.entries[log.entries@.len() - 1] == *log.entries@.last().inner);
    }
}

/// An entry is found under its index, whichever entry of the log it is, and nothing is found under
/// an index that no entry has.
pub proof fn law_get<C>(log: Log<C>, i: LogIndex, found: Option<&Arc<LogEntry<C>>>)
    requires
        log.wf(),
        call_ensures(Log::<C>::get, (&log, i), found),
    ensures
        found is None ==> forall|k: int|
            0 <= k < log.entries@.len() ==> (#[trigger] log.entries@[k]).inner.index != i,
        found matches Some(entry) ==> {
            &&& entry.index == i
            &&& exists|k: int|
                0 <= k < log.entries@.len() && *(#[trigger] log.entries@[k]).inner == **entry
        },
        forall|k: int|
            0 <= k < log.entries@.len() && (#[trigger] log.entries@[k]).inner.index == i
                ==> found is Some && **found->Some_0 == *log.entries@[k].inner,
{
    lemma_fields(log);
    assert forall|k: int| 0 <= k < log.entries@.len() implies (
    #[trigger] log.entries@[k]).inner.index == log.base_index + 1 + k by {
        assert(log@.entries[k].index == log.base_index + 1 + k);
    }
    if found is Some {
        let k = i - log.base_index - 1;
        assert(*log.entries@[k].inner == log@.entries[k]);
    }
}

/// Where the entries begin and end by their indexes: the found ones are those behind the base.
pub proof fn law_get_range<C>(log: Log<C>, i: LogIndex, found: Option<&Arc<LogEntry<C>>>)
    requires
        call_ensures(Log::<C>::get, (&log, i), found),
    ensures
        found is Some <==> log.base_index < i <= log.base_index + log.entries@.len(),
        found matches Some(entry) ==> **entry == *log.entries@[i - log.base_index - 1].inner,
{
    lemma_fields(log);
    if found is Some {
        assert(log@.entries[i - log.base_index - 1] == *log.entries@[i - log.base_index
            - 1].inner);
    }
}

/// The position of an index counts from the base on.
pub proof fn law_li_to_pi<C>(log: Log<C>, i: LogIndex, position: usize)
    requires
        call_ensures(Log::<C>::li_to_pi, (&log, i), position),
    ensures
        log.base_index + 1 + position == i,
{
    lemma_fields(log);
}

/// The entry before an index is that of the index before it: in memory, or the base.
pub proof fn law_get_prev_entry_info<C>(log: Log<C>, i: LogIndex, info: (LogIndex, u64))
    requires
        call_ensures(Log::<C>::get_prev_entry_info, (&log, i), info),
        log.base_index < i <= log.base_index + log.entries@.len() + 1,
    ensures
        i - 1 == log.base_index ==> info.0 == log.base_index && info.1 == log.base_term,
        i - 1 > log.base_index ==> {
            &&& info.0 == log.entries@[i - 2 - log.base_index].inner.index
            &&& info.1 == log.entries@[i - 2 - log.base_index].inner.term
        },
        log.wf() ==> info.0 == i - 1,
{
    lemma_fields(log);
    if i - 1 > log.base_index {
        assert(log@.entries[i - 2 - log.base_index] == *log.entries@[i - 2 - log.base_index].inner);
    }
}

/// An id is found exactly if one of the entries has it.
pub proof fn law_contains_cmd_id<C>(log: Log<C>, id: ProposeId, found: bool)
    requires
        call_ensures(Log::<C>::contains_cmd_id, (&log, &id), found),
    ensures
        found <==> exists|k: int|
            0 <= k < log.entries@.len() && (#[trigger] log.entries@[k]).inner.propose_id == id,
{
    lemma_fields(log);
    if found {
        let k = choose|k: int|
            0 <= k < log@.entries.len() && (#[trigger] log@.entries[k]).propose_id == id;
        assert(log.entries@[k].inner.propose_id == id);
    }
    if exists|k: int|
        0 <= k < log.entries@.len() && (#[trigger] log.entries@[k]).inner.propose_id == id {
        let k = choose|k: int|
            0 <= k < log.entries@.len() && (#[trigger] log.entries@[k]).inner.propose_id == id;
        assert(log@.entries[k].propose_id == id);
    }
}

/// A log is in order exactly if each entry has the index behind that of the one before it, and the
/// first the one behind the base.
pub proof fn law_is_in_order<C>(log: Log<C>, b: bool)
    requires
        call_ensures(Log::<C>::is_in_order, (&log,), b),
    ensures
        b <==> forall|k: int|
            0 <= k < log.entries@.len() ==> (#[trigger] log.entries@[k]).inner.index
                == log.base_index + 1 + k,
{
    lemma_fields(log);
    if b {
        assert forall|k: int| 0 <= k < log.entries@.len() implies (
        #[trigger] log.entries@[k]).inner.index == log.base_index + 1 + k by {
            assert(log@.entries[k].index == log.base_index + 1 + k);
        }
    }
    if forall|k: int|
        0 <= k < log.entries@.len() ==> (#[trigger] log.entries@[k]).inner.index
            == log.base_index + 1 + k {
        assert forall|k: int| 0 <= k < log@.entries.len() implies (
        #[trigger] log@.entries[k]).index == log.base_index + 1 + k by {
            assert(log.entries@[k].inner.index == log.base_index + 1 + k);
        }
    }
}

/// In an election the term decides first, whatever the indexes are, and only between logs that end
/// with the same term their length.
pub proof fn law_log_up_to_date<C>(log: Log<C>, term: u64, index: LogIndex, b: bool)
    requires
        call_ensures(Log::<C>::log_up_to_date, (&log, term, index), b),
    ensures
        log.entries@.len() == 0 ==> {
            &&& term > log.base_term ==> b
            &&& term < log.base_term ==> !b
            &&& term == log.base_term ==> (b <==> index >= log.base_index)
        },
        log.entries@.len() > 0 ==> {
            &&& term > log.entries@.last().inner.term ==> b
            &&& term < log.entries@.last().inner.term ==> !b
            &&& term == log.entries@.last().inner.term ==> (b <==> index
                >= log.entries@.last().inner.index)
        },
{
    lemma_fields(log);
    if log.entries@.len() > 0 {
        assert(log@.entries[log.entries@.len() - 1] == *log.entries@.last().inner);
    }
}

// ---------------------------------------------------------------------------------------------
// Batches
// ---------------------------------------------------------------------------------------------

/// The sizes of entries in all.
pub open spec fn bytes<C>(entries: Seq<Entry<C>>) -> int {
    entries.fold_left(0, |sum: int, entry: Entry<C>| sum + entry.size)
}

/// The lengths of the encodings of entries in all.
pub open spec fn encoded_bytes<C>(entries: Seq<Arc<LogEntry<C>>>) -> int {
    entries.fold_left(
        0,
        |sum: int, entry: Arc<LogEntry<C>>| sum + 36 + body(entry.entry_data).len(),
    )
}

/// Whether `n` entries from the position `left` on are a batch: they stay within the limit, unless
/// it is one entry alone; they do not meet the limit before the last of them; and with the next
/// entry they would exceed it, if they do not meet it and there is a next entry.
pub open spec fn makes_batch<C>(log: Log<C>, left: int, n: int) -> bool {
    let es = log.entries@;
    &&& 1 <= n <= es.len() - left
    &&& n == 1 || bytes(es.subrange(left, left + n)) <= log.batch_limit
    &&& bytes(es.subrange(left, left + n - 1)) < log.batch_limit
    &&& left + n == es.len() || bytes(es.subrange(left, left + n)) >= log.batch_limit || bytes(
        es.subrange(left, left + n + 1),
    ) > log.batch_limit
}

/// The sums over the value of a log are those over its entries.
proof fn lemma_bytes<C>(log: Log<C>, from: int, to: int)
    requires
        0 <= from <= to <= log.entries@.len(),
    ensures
        total(log@.sizes, from, to) == bytes(log.entries@.subrange(from, to)),
    decreases to - from,
{
    let part = log.entries@.subrange(from, to);
    if from < to {
        lemma_fields(log);
        lemma_bytes(log, from, to - 1);
        assert(part.drop_last() =~= log.entries@.subrange(from, to - 1));
        assert(part.last() == log.entries@[to - 1]);
        assert(log@.sizes[to - 1] == log.entries@[to - 1].size);
    }
}

/// A batch of the value of a log is one of its entries.
proof fn lemma_makes_batch<C>(log: Log<C>, left: int, right: int)
    requires
        log.consistent(),
        0 <= left < log.entries@.len(),
        log@.is_batch(left, right),
    ensures
        makes_batch(log, left, right - left + 1),
{
    lemma_fields(log);
    let len = log.entries@.len() as int;
    lemma_bytes(log, left, right);
    lemma_bytes(log, left, right + 1);
    if right + 1 < len {
        lemma_bytes(log, left, right + 2);
    }
    lemma_bytes(log, left, len);
    if !log@.reaches_limit(left) {
        assert(total(log@.sizes, left, len) == total(log@.sizes, left, len - 1)
            + log@.sizes[len - 1]);
    }
}

/// What is handed out from an index on are the entries of that index and the following ones, and
/// they make a batch; behind the last entry there are none.
pub proof fn law_get_from<C>(log: Log<C>, li: LogIndex, batch: Vec<Arc<LogEntry<C>>>)
    requires
        log.wf(),
        li > log.base_index,
        call_ensures(Log::<C>::get_from, (&log, li), batch),
    ensures
        li > log.base_index + log.entries@.len() ==> batch@.len() == 0,
        li <= log.base_index + log.entries@.len() ==> makes_batch(
            log,
            li - log.base_index - 1,
            batch@.len() as int,
        ),
        forall|k: int|
            0 <= k < batch@.len() ==> {
                &&& (#[trigger] batch@[k]).index == li + k
                &&& *batch@[k] == *log.entries@[li - log.base_index - 1 + k].inner
            },
{
    lemma_fields(log);
    let left = li - log.base_index - 1;
    if left < log.entries@.len() {
        lemma_makes_batch(log, left, left + batch@.len() - 1);
    }
    assert forall|k: int| 0 <= k < batch@.len() implies {
        &&& (#[trigger] batch@[k]).index == li + k
        &&& *batch@[k] == *log.entries@[left + k].inner
    } by {
        assert(log@.entries[left + k] == *log.entries@[left + k].inner);
    }
}

/// If each entry is kept with the length of its encoding, then the encodings of what is handed out
/// take as many bytes as the limit allows at most, unless it is one entry alone.
pub proof fn law_batch_encoding_within_limit<C>(
    log: Log<C>,
    li: LogIndex,
    batch: Vec<Arc<LogEntry<C>>>,
)
    requires
        log.wf(),
        li > log.base_index,
        forall|k: int|
            0 <= k < log.entries@.len() ==> (#[trigger] log.entries@[k]).size == 36 + body(
                log.entries@[k].inner.entry_data,
            ).len(),
        call_ensures(Log::<C>::get_from, (&log, li), batch),
    ensures
        batch@.len() <= 1 || encoded_bytes(batch@) <= log.batch_limit,
{
    law_get_from(log, li, batch);
    let left = li - log.base_index - 1;
    if batch@.len() > 1 {
        let part = log.entries@.subrange(left, left + batch@.len());
        assert forall|k: int| 0 <= k < batch@.len() implies (#[trigger] part[k]).size == 36
            + body(batch@[k].entry_data).len() by {
            assert(part[k] == log.entries@[left + k]);
        }
        lemma_encoded_bytes(part, batch@);
    }
}

/// Sums of equal sizes are equal.
proof fn lemma_encoded_bytes<C>(entries: Seq<Entry<C>>, batch: Seq<Arc<LogEntry<C>>>)
    requires
        entries.len() == batch.len(),
        forall|k: int|
            0 <= k < batch.len() ==> (#[trigger] entries[k]).size == 36 + body(
                batch[k].entry_data,
            ).len(),
    ensures
        bytes(entries) == encoded_bytes(batch),
    decreases batch.len(),
{
    if batch.len() > 0 {
        let (e, b) = (entries.drop_last(), batch.drop_last());
        assert forall|k: int| 0 <= k < b.len() implies (#[trigger] e[k]).size == 36 + body(
            b[k].entry_data,
        ).len() by {
            assert(entries[k].size == 36 + body(batch[k].entry_data).len());
        }
        lemma_encoded_bytes(e, b);
        let last = batch.len() - 1;
        assert(entries[last].size == 36 + body(batch[last].entry_data).len());
    }
}

/// There is a next batch exactly if the entries from the index on meet or exceed the limit.
pub proof fn law_has_next_batch<C>(log: Log<C>, li: LogIndex, b: bool)
    requires
        log.consistent(),
        li > log.base_index,
        call_ensures(Log::<C>::has_next_batch, (&log, li), b),
    ensures
        li > log.base_index + log.entries@.len() ==> !b,
        li <= log.base_index + log.entries@.len() ==> (b <==> bytes(
            log.entries@.subrange(li - log.base_index - 1, log.entries@.len() as int),
        ) >= log.batch_limit),
{
    lemma_fields(log);
    if li <= log.base_index + log.entries@.len() {
        lemma_bytes(log, li - log.base_index - 1, log.entries@.len() as int);
    }
}

/// The positions of a batch are those of the entries that make it; behind the last entry the range
/// is empty.
pub proof fn law_get_range_by_batch<C>(log: Log<C>, left: usize, range: LogRange<usize>)
    requires
        log.wf(),
        call_ensures(Log::<C>::get_range_by_batch, (&log, left), range),
    ensures
        range is Range <==> left >= log.entries@.len(),
        range matches LogRange::Range(r) ==> r.start == log.entries@.len() && r.end
            == log.entries@.len(),
        range matches LogRange::RangeInclusive(r) ==> r@.start == left && makes_batch(
            log,
            left as int,
            r@.end - left + 1,
        ),
{
    lemma_fields(log);
    if let LogRange::RangeInclusive(r) = range {
        lemma_makes_batch(log, left as int, r@.end as int);
    }
}

/// A range of positions is made of a range with or without its end as it is.
pub proof fn law_range_from<T>(
    half: std::ops::Range<T>,
    full: std::ops::RangeInclusive<T>,
    x: LogRange<T>,
    y: LogRange<T>,
)
    requires
        call_ensures(<LogRange<T> as From<std::ops::Range<T>>>::from, (half,), x),
        call_ensures(<LogRange<T> as From<std::ops::RangeInclusive<T>>>::from, (full,), y),
    ensures
        x is Range,
        x->Range_0 == half,
        y is RangeInclusive,
        y->RangeInclusive_0 == full,
{
}

/// How many entries make a batch from a position on is determined by their sizes and the limit.
pub proof fn law_makes_batch_unique<C>(log: Log<C>, left: int, m: int, n: int)
    requires
        0 <= left,
        makes_batch(log, left, m),
        makes_batch(log, left, n),
    ensures
        m == n,
{
    lemma_makes_batch_le(log, left, m, n);
    lemma_makes_batch_le(log, left, n, m);
}

/// Of two batches from the same position the second is not longer.
proof fn lemma_makes_batch_le<C>(log: Log<C>, left: int, m: int, n: int)
    requires
        0 <= left,
        makes_batch(log, left, m),
        makes_batch(log, left, n),
    ensures
        n <= m,
{
    if m < n {
        let es = log.entries@;
        lemma_bytes_grow(es, left, left + m, left + n - 1);
        lemma_bytes_grow(es, left, left + m + 1, left + n);
    }
}

/// More entries take no fewer bytes.
proof fn lemma_bytes_grow<C>(es: Seq<Entry<C>>, from: int, mid: int, to: int)
    requires
        0 <= from <= mid <= to <= es.len(),
    ensures
        bytes(es.subrange(from, mid)) <= bytes(es.subrange(from, to)),
    decreases to - mid,
{
    if mid < to {
        lemma_bytes_grow(es, from, mid, to - 1);
        assert(es.subrange(from, to).drop_last() =~= es.subrange(from, to - 1));
    }
}

/// Whether the record at a position is the index of the last entry of the batch from there on.
pub open spec fn records_batch<C>(log: Log<C>, left: int) -> bool {
    exists|n: int| #[trigger]
        makes_batch(log, left, n) && log.entries@[left + n - 1].inner.index
            == log.batch_end@[left]
}

/// The records of a log tell its batches: up to the start of the open batch, the index of the last
/// entry of the batch from each entry on; from there on 0. The open batch starts where the entries
/// to the end no longer meet the limit, and its size is theirs.
pub proof fn law_records<C>(log: Log<C>)
    requires
        log.consistent(),
    ensures
        log.batch_end@.len() == log.entries@.len(),
        log.first_idx_in_cur_batch <= log.entries@.len(),
        log.cur_batch_size == bytes(
            log.entries@.subrange(
                log.first_idx_in_cur_batch as int,
                log.entries@.len() as int,
            ),
        ),
        forall|i: int|
            0 <= i < log.entries@.len() ==> (i < log.first_idx_in_cur_batch <==> bytes(
                #[trigger] log.entries@.subrange(i, log.entries@.len() as int),
            ) >= log.batch_limit),
        forall|i: int|
            log.first_idx_in_cur_batch <= i < log.entries@.len() ==> #[trigger] log.batch_end@[i]
                == 0,
        forall|i: int|
            0 <= i < log.first_idx_in_cur_batch ==> #[trigger] records_batch(log, i),
{
    lemma_fields(log);
    let len = log.entries@.len() as int;
    let first = log.first_idx_in_cur_batch as int;
    let limit = log.batch_limit as nat;
    lemma_bytes(log, first, len);
    assert forall|i: int| 0 <= i < len implies (i < first <==> bytes(
        #[trigger] log.entries@.subrange(i, len),
    ) >= limit) by {
        lemma_bytes(log, i, len);
        if i < first {
            let right = lemma_closed(log, i);
            lemma_full_batch_reaches(log@.sizes, limit, i, right);
        } else {
            lemma_total_split(log@.sizes, first, i, len);
        }
    }
    assert forall|i: int| 0 <= i < first implies #[trigger] records_batch(log, i) by {
        let right = lemma_closed(log, i);
        lemma_full_batch_reaches(log@.sizes, limit, i, right);
        lemma_makes_batch(log, i, right);
        assert(makes_batch(log, i, right - i + 1));
    }
}

/// The last position of the full batch that a record tells.
proof fn lemma_closed<C>(log: Log<C>, i: int) -> (right: int)
    requires
        log.consistent(),
        0 <= i < log.first_idx_in_cur_batch,
    ensures
        full_batch(log@.sizes, log.batch_limit as nat, i, right),
        log.entries@[right].inner.index == log.batch_end@[i],
{
    lemma_fields(log);
    let end = log.batch_end@[i];
    let right = choose|right: int| #[trigger]
        full_batch(log@.sizes, log.batch_limit as nat, i, right) && indexes_of(
            log@.entries,
        )[right] == end;
    assert(log@.entries[right] == *log.entries@[right].inner);
    right
}

// ---------------------------------------------------------------------------------------------
// Snapshots, compaction and commits
// ---------------------------------------------------------------------------------------------

/// After a snapshot the log holds nothing and lies behind the last entry that the snapshot covers.
/// All up to that entry counts as committed and applied, whatever the log was before.
pub proof fn law_reset_by_snapshot_meta<C>(log: &mut Log<C>, meta: SnapshotMeta)
    requires
        call_ensures(Log::<C>::reset_by_snapshot_meta, (log, meta), ()),
    ensures
        final(log).wf(),
        final(log).entries@.len() == 0,
        final(log).batch_end@.len() == 0,
        final(log).first_idx_in_cur_batch == 0,
        final(log).cur_batch_size == 0,
        final(log).base_index == meta.last_included_index,
        final(log).base_term == meta.last_included_term,
        final(log).commit_index == meta.last_included_index,
        final(log).last_as == meta.last_included_index,
        final(log).last_exe == meta.last_included_index,
        final(log).batch_limit == old(log).batch_limit,
        final(log).entries_cap == old(log).entries_cap,
        final(log).fallback_contexts@ == old(log).fallback_contexts@,
{
    lemma_fields(*old(log));
    lemma_fields(*final(log));
}

/// Compaction discards entries from the front on, as long as their indexes lie `entries_cap` or
/// more before `last_as`, if the first entry lies before `last_as` at all. The base is then the
/// last that was discarded. All else stays.
pub proof fn law_compact<C>(log: &mut Log<C>)
    requires
        call_ensures(Log::<C>::compact, (log,), ()),
    ensures
        final(log).consistent(),
        old(log).wf() ==> final(log).wf(),
        final(log).entries@.len() <= old(log).entries@.len(),
        ({
            let es = old(log).entries@;
            let n = es.len() - final(log).entries@.len();
            &&& same_entries(*final(log), *old(log), es.len() - n, n)
            &&& n > 0 <==> {
                &&& es.len() > 0
                &&& es[0].inner.index < old(log).last_as
                &&& es[0].inner.index + old(log).entries_cap <= old(log).last_as
            }
            &&& forall|k: int|
                0 <= k < n ==> (#[trigger] es[k]).inner.index + old(log).entries_cap
                    <= old(log).last_as
            &&& 0 < n < es.len() ==> es[n].inner.index + old(log).entries_cap > old(log).last_as
            &&& n > 0 ==> final(log).base_index == es[n - 1].inner.index && final(log).base_term
                == es[n - 1].inner.term
            &&& n == 0 ==> final(log).base_index == old(log).base_index && final(log).base_term
                == old(log).base_term
        }),
        same_but_entries(
            *final(log),
            (Log {
                base_index: final(log).base_index,
                base_term: final(log).base_term,
                ..*old(log)
            }),
        ),
{
    lemma_fields(*old(log));
    lemma_fields(*final(log));
    let s = old(log)@;
    let es = old(log).entries@;
    let bound = old(log).last_as - old(log).entries_cap;
    lemma_leading_bounds(s.entries, bound);
    let n = s.compactable() as int;
    assert(es.len() - final(log).entries@.len() == n);
    if es.len() > 0 {
        assert(s.entries[0] == *es[0].inner);
    }
    lemma_same_entries(*final(log), *old(log), es.len() - n, n);
    assert forall|k: int| 0 <= k < n implies (#[trigger] es[k]).inner.index
        + old(log).entries_cap <= old(log).last_as by {
        assert(s.entries[k] == *es[k].inner);
    }
    if n > 0 {
        assert(s.entries[n - 1] == *es[n - 1].inner);
        if n < es.len() {
            assert(s.entries[n] == *es[n].inner);
        }
    }
}

/// The leading entries lie within the bound, and the one behind them does not.
proof fn lemma_leading_bounds<C>(entries: Seq<LogEntry<C>>, bound: int)
    ensures
        leading(entries, bound) <= entries.len(),
        forall|k: int|
            0 <= k < leading(entries, bound) ==> (#[trigger] entries[k]).index <= bound,
        leading(entries, bound) < entries.len() ==> entries[leading(
            entries,
            bound,
        ) as int].index > bound,
    decreases entries.len(),
{
    if entries.len() > 0 && entries[0].index <= bound {
        let rest = entries.drop_first();
        lemma_leading_bounds(rest, bound);
        assert forall|k: int| 0 <= k < leading(entries, bound) implies (
        #[trigger] entries[k]).index <= bound by {
            if k > 0 {
                assert(rest[k - 1] == entries[k]);
            }
        }
        let n = leading(rest, bound) as int;
        if n < rest.len() {
            assert(rest[n] == entries[n + 1]);
        }
    }
}

/// After a commit the commit index is the given one, whatever it and the others were before. The
/// contexts up to it are handed out, with the number of learners among them, and the others are
/// kept; none is changed or lost. All else stays, the entries too.
pub proof fn law_commit_to<C>(
    log: &mut Log<C>,
    commit_index: LogIndex,
    settled: (HashMap<LogIndex, FallbackContext<C>>, usize),
)
    requires
        call_ensures(Log::<C>::commit_to, (log, commit_index), settled),
    ensures
        old(log).consistent() ==> final(log).consistent(),
        old(log).wf() ==> final(log).wf(),
        final(log).commit_index == commit_index,
        forall|i: LogIndex| #[trigger]
            old(log).fallback_contexts@.contains_key(i) && i <= commit_index ==> {
                &&& settled.0@.contains_key(i)
                &&& settled.0@[i] == old(log).fallback_contexts@[i]
                &&& !final(log).fallback_contexts@.contains_key(i)
            },
        forall|i: LogIndex| #[trigger]
            old(log).fallback_contexts@.contains_key(i) && i > commit_index ==> {
                &&& final(log).fallback_contexts@.contains_key(i)
                &&& final(log).fallback_contexts@[i] == old(log).fallback_contexts@[i]
                &&& !settled.0@.contains_key(i)
            },
        forall|i: LogIndex| #[trigger]
            final(log).fallback_contexts@.contains_key(i)
                ==> old(log).fallback_contexts@.contains_key(i),
        forall|i: LogIndex| #[trigger]
            settled.0@.contains_key(i) ==> old(log).fallback_contexts@.contains_key(i),
        settled.1 == Set::new(
            |i: LogIndex| settled.0@.contains_key(i) && settled.0@[i].is_learner,
        ).len(),
        final(log).entries@.len() == old(log).entries@.len(),
        same_entries(*final(log), *old(log), old(log).entries@.len() as int, 0),
        final(log).batch_limit == old(log).batch_limit,
        final(log).entries_cap == old(log).entries_cap,
        final(log).base_index == old(log).base_index,
        final(log).base_term == old(log).base_term,
        final(log).last_as == old(log).last_as,
        final(log).last_exe == old(log).last_exe,
{
    lemma_fields(*old(log));
    lemma_fields(*final(log));
    lemma_same_entries(*final(log), *old(log), old(log).entries@.len() as int, 0);
    assert(Set::new(
        |i: LogIndex| settled.0@.contains_key(i) && settled.0@[i].is_learner,
    ) =~= old(log)@.settled_learners(commit_index as nat));
}

// ---------------------------------------------------------------------------------------------
// Restoring and appending
// ---------------------------------------------------------------------------------------------

/// Whether an entry is kept as it is, with the length of its encoding.
pub open spec fn kept_encoded<C>(kept: Entry<C>, entry: LogEntry<C>) -> bool {
    &&& *kept.inner == entry
    &&& !is_broken(entry.entry_data)
    &&& kept.size == 36 + body(entry.entry_data).len()
}

/// Whether an entry has no encoding, for the given reason.
pub open spec fn fails_with<C>(entry: LogEntry<C>, error: EncodeError) -> bool {
    match error {
        EncodeError::Encoder(cause) => is_broken(entry.entry_data) && cause
            == entry.entry_data->Command_0.encoded->Err_0,
        EncodeError::TooLong => !is_broken(entry.entry_data) && 36 + body(
            entry.entry_data,
        ).len() > u64::MAX,
    }
}

/// Restoring puts the given entries in place of the old ones, all of them and in their order, each
/// with the length of its encoding. It fails exactly at the first one that has none, with the
/// reason for that, and then holds those before it. All else stays.
pub proof fn law_restore<C>(
    log: &mut Log<C>,
    entries: Vec<LogEntry<C>>,
    result: Result<(), EncodeError>,
)
    requires
        call_ensures(Log::<C>::restore, (log, entries), result),
    ensures
        final(log).consistent(),
        result is Ok ==> final(log).entries@.len() == entries@.len(),
        result matches Err(error) ==> final(log).entries@.len() < entries@.len() && fails_with(
            entries@[final(log).entries@.len() as int],
            error,
        ),
        forall|k: int|
            0 <= k < final(log).entries@.len() ==> kept_encoded(
                #[trigger] final(log).entries@[k],
                entries@[k],
            ),
        same_but_entries(*final(log), *old(log)),
{
    lemma_fields(*old(log));
    lemma_fields(*final(log));
    let k = lemma_restored(*old(log), *final(log), entries@, result);
    if result is Err {
        lemma_size(entries@[k]);
    }
    assert(final(log)@.entries.skip(0) =~= entries@.take(k));
    assert(final(log)@.sizes.skip(0) =~= sizes_of(entries@.take(k)));
    lemma_kept_encoded(*final(log), entries@.take(k), 0);
    assert forall|i: int| 0 <= i < final(log).entries@.len() implies kept_encoded(
        #[trigger] final(log).entries@[i],
        entries@[i],
    ) by {
        assert(entries@.take(k)[i] == entries@[i]);
    }
}

/// How many entries were restored.
proof fn lemma_restored<C>(
    before: Log<C>,
    after: Log<C>,
    entries: Seq<LogEntry<C>>,
    result: Result<(), EncodeError>,
) -> (k: int)
    requires
        match result {
            Ok(_) => all_encodable(entries) && after@ == before@.restored(entries),
            Err(error) => exists|k: int|
                {
                    &&& 0 <= k < entries.len()
                    &&& (#[trigger] entries[k]).size() == Err::<nat, EncodeError>(error)
                    &&& all_encodable(entries.take(k))
                    &&& after@ == before@.restored(entries.take(k))
                },
        },
    ensures
        0 <= k <= entries.len(),
        all_encodable(entries.take(k)),
        after@ == before@.restored(entries.take(k)),
        result is Ok ==> k == entries.len(),
        result matches Err(error) ==> k < entries.len() && entries[k].size() == Err::<
            nat,
            EncodeError,
        >(error),
{
    match result {
        Ok(_) => {
            assert(entries.take(entries.len() as int) =~= entries);
            entries.len() as int
        },
        Err(error) => {
            choose|k: int|
                {
                    &&& 0 <= k < entries.len()
                    &&& (#[trigger] entries[k]).size() == Err::<nat, EncodeError>(error)
                    &&& all_encodable(entries.take(k))
                    &&& after@ == before@.restored(entries.take(k))
                }
        },
    }
}

/// Entries whose sizes are those of their encodings are kept with the lengths of these.
proof fn lemma_kept_encoded<C>(log: Log<C>, entries: Seq<LogEntry<C>>, from: int)
    requires
        0 <= from,
        from + entries.len() == log.entries@.len(),
        log@.entries.skip(from) == entries,
        log@.sizes.skip(from) == sizes_of(entries),
        all_encodable(entries),
    ensures
        forall|k: int|
            0 <= k < entries.len() ==> kept_encoded(
                log.entries@[from + k],
                #[trigger] entries[k],
            ),
{
    lemma_fields(log);
    assert forall|k: int| 0 <= k < entries.len() implies kept_encoded(
        log.entries@[from + k],
        #[trigger] entries[k],
    ) by {
        lemma_size(entries[k]);
        assert(log@.entries.skip(from)[k] == log@.entries[from + k]);
        assert(log@.sizes.skip(from)[k] == log@.sizes[from + k]);
        assert(sizes_of(entries)[k] == entries[k].size()->Ok_0);
    }
}

/// To restore entries with compaction is to restore them and then to compact the log: the result
/// is the same, and so are the logs in all that they hold.
pub proof fn law_restore_entries<C>(
    both: &mut Log<C>,
    first: &mut Log<C>,
    second: &mut Log<C>,
    entries: Vec<LogEntry<C>>,
    r1: Result<(), EncodeError>,
    r2: Result<(), EncodeError>,
)
    requires
        *old(both) == *old(first),
        call_ensures(Log::<C>::restore_entries, (both, entries), r1),
        call_ensures(Log::<C>::restore, (first, entries), r2),
        *old(second) == *final(first),
        call_ensures(Log::<C>::compact, (second,), ()),
    ensures
        final(both).consistent(),
        r1 == r2,
        r2 is Ok ==> {
            &&& same_but_entries(*final(both), *final(second))
            &&& final(both).entries@.len() == final(second).entries@.len()
            &&& same_entries(
                *final(both),
                *final(second),
                final(both).entries@.len() as int,
                0,
            )
        },
        r2 is Err ==> {
            &&& same_but_entries(*final(both), *final(first))
            &&& final(both).entries@.len() == final(first).entries@.len()
            &&& same_entries(*final(both), *final(first), final(both).entries@.len() as int, 0)
        },
{
    let k2 = lemma_restored(*old(first), *final(first), entries@, r2);
    let all = entries@;
    if r1 is Err {
        let k1 = lemma_restored(*old(both), *final(both), all, r1);
        if k1 < k2 {
            assert(all.take(k2)[k1] == all[k1]);
            assert(all.take(k2)[k1].size() is Ok);
        }
        if k2 < k1 {
            assert(all.take(k1)[k2] == all[k2]);
            assert(all.take(k1)[k2].size() is Ok);
        }
        assert(r2 is Err);
        assert(k1 == k2);
        assert(r1->Err_0 == r2->Err_0);
        lemma_equal_values(*final(both), *final(first));
    } else {
        if k2 < all.len() {
            assert(all[k2].size() is Ok);
        }
        assert(r2 is Ok);
        assert(r1->Ok_0 == r2->Ok_0);
        assert(all.take(k2) =~= all);
        lemma_equal_values(*final(both), *final(second));
    }
}

/// Whether a log holds the entry of the given index and term: it is in memory, or the base.
pub open spec fn holds<C>(log: Log<C>, index: LogIndex, term: u64) -> bool {
    ||| index == log.base_index && term == log.base_term
    ||| {
        &&& log.base_index < index <= log.base_index + log.entries@.len()
        &&& log.entries@[index - log.base_index - 1].inner.term == term
    }
}

/// Whether the log knows exactly the first `n` of the given entries behind the index `prev`: those
/// have the terms of its own entries there, and the next one, if there is one, has not.
pub open spec fn knows<C>(log: Log<C>, prev: LogIndex, entries: Seq<LogEntry<C>>, n: int) -> bool {
    let start = prev - log.base_index;
    &&& 0 <= n <= entries.len()
    &&& start + n <= log.entries@.len()
    &&& forall|j: int|
        0 <= j < n ==> (#[trigger] entries[j]).term == log.entries@[start + j].inner.term
    &&& n < entries.len() && start + n < log.entries@.len() ==> entries[n].term
        != log.entries@[start + n].inner.term
}

/// A log holds an entry of one term at an index at most.
pub proof fn law_holds_one_term<C>(log: Log<C>, index: LogIndex, t1: u64, t2: u64)
    requires
        holds(log, index, t1),
        holds(log, index, t2),
    ensures
        t1 == t2,
{
}

/// What the value of a log says of an index and a term is what the log holds.
proof fn lemma_holds<C>(log: Log<C>, index: LogIndex, term: u64)
    ensures
        log@.agrees(index as int, term as int) <==> holds(log, index, term),
{
    lemma_fields(log);
    if log.base_index < index <= log.base_index + log.entries@.len() {
        let k = index - log.base_index - 1;
        assert(log@.entries[k] == *log.entries@[k].inner);
    }
}

/// How many entries match is how many the log knows.
proof fn lemma_knows<C>(log: Log<C>, prev: LogIndex, entries: Seq<LogEntry<C>>) -> (n: int)
    requires
        0 <= prev - log.base_index <= log.entries@.len(),
    ensures
        knows(log, prev, entries, n),
        n == matching(log@.entries.skip(prev - log.base_index), entries),
{
    lemma_fields(log);
    let start = prev - log.base_index;
    let tail = log@.entries.skip(start);
    lemma_matching_prefix(tail, entries);
    let n = matching(tail, entries) as int;
    assert forall|j: int| 0 <= j < n implies (#[trigger] entries[j]).term
        == log.entries@[start + j].inner.term by {
        assert(tail[j].term == entries[j].term);
        assert(log@.entries[start + j] == *log.entries@[start + j].inner);
    }
    if n < entries.len() && n < tail.len() && entries[n].term == tail[n].term {
        lemma_matching_more(tail, entries);
    }
    if n < tail.len() {
        assert(tail[n] == log@.entries[start + n]);
        assert(log@.entries[start + n] == *log.entries@[start + n].inner);
    }
    n
}

/// Behind the matching entries the terms differ.
proof fn lemma_matching_more<C>(a: Seq<LogEntry<C>>, b: Seq<LogEntry<C>>)
    ensures
        matching(a, b) < a.len() && matching(a, b) < b.len() ==> a[matching(a, b) as int].term
            != b[matching(a, b) as int].term,
    decreases a.len(),
{
    if a.len() > 0 && b.len() > 0 && a[0].term == b[0].term {
        lemma_matching_more(a.drop_first(), b.drop_first());
    }
}

/// The log knows one number of given entries only.
pub proof fn law_knows_one_number<C>(
    log: Log<C>,
    prev: LogIndex,
    entries: Seq<LogEntry<C>>,
    m: int,
    n: int,
)
    requires
        knows(log, prev, entries, m),
        knows(log, prev, entries, n),
    ensures
        m == n,
{
    if m < n {
        assert(entries[m].term == log.entries@[prev - log.base_index + m].inner.term);
    }
    if n < m {
        assert(entries[n].term == log.entries@[prev - log.base_index + n].inner.term);
    }
}

/// An append succeeds exactly if the log holds the entry of the given index and term. Otherwise the
/// entries are handed back and nothing changes.
///
/// The entries that the log knows already stay as they are, with those before them. All that
/// follows them in the log is dropped and the other given entries take its place, each with the
/// length of its encoding. These are handed out in their order, and among them the membership
/// changes; so are the indexes of the membership changes that were dropped. All else stays.
pub proof fn law_try_append_entries<C>(
    log: &mut Log<C>,
    entries: Vec<LogEntry<C>>,
    prev: LogIndex,
    term: u64,
    n: int,
    result: Result<AppendSuccess<C>, Vec<LogEntry<C>>>,
)
    requires
        call_ensures(Log::<C>::try_append_entries, (log, entries, prev, term), result),
        holds(*old(log), prev, term) ==> {
            &&& knows(*old(log), prev, entries@, n)
            &&& forall|j: int|
                n <= j < entries@.len() ==> !is_broken((#[trigger] entries@[j]).entry_data) && 36
                    + body(entries@[j].entry_data).len() <= u64::MAX
        },
    ensures
        final(log).consistent(),
        result is Ok <==> holds(*old(log), prev, term),
        result matches Err(rejected) ==> {
            &&& rejected@ == entries@
            &&& final(log).entries@.len() == old(log).entries@.len()
            &&& same_entries(*final(log), *old(log), old(log).entries@.len() as int, 0)
        },
        result matches Ok((to_persist, conf, undo)) ==> {
            let es = old(log).entries@;
            let start = prev - old(log).base_index;
            &&& to_persist@.len() == entries@.len() - n
            &&& forall|j: int|
                0 <= j < to_persist@.len() ==> *(#[trigger] to_persist@[j]) == entries@[n + j]
            &&& final(log).entries@.len() == start + entries@.len()
            &&& same_entries(*final(log), *old(log), start + n, 0)
            &&& forall|j: int|
                n <= j < entries@.len() ==> kept_encoded(
                    final(log).entries@[start + j],
                    #[trigger] entries@[j],
                )
            &&& pointees(conf@) == entries@.skip(n).filter(
                |e: LogEntry<C>| e.entry_data is ConfChange,
            )
            &&& forall|i: LogIndex| #[trigger]
                undo@.contains(i) <==> exists|k: int|
                    start + n <= k < es.len() && (#[trigger] es[k]).inner.index == i
                        && es[k].inner.entry_data is ConfChange
        },
        same_but_entries(*final(log), *old(log)),
{
    lemma_fields(*old(log));
    lemma_fields(*final(log));
    lemma_holds(*old(log), prev, term);
    let s = old(log)@;
    let new = entries@;
    if result is Err {
        lemma_equal_values(*final(log), *old(log));
    } else {
        let (to_persist, conf, undo) = result->Ok_0;
        let es = old(log).entries@;
        let start = prev - old(log).base_index;
        let m = lemma_knows(*old(log), prev, new);
        law_knows_one_number(*old(log), prev, new, m, n);
        let fresh = s.fresh(prev as int, new);
        let kept = s.kept(prev as int, new) as int;
        assert(kept == start + n);
        assert(fresh == new.skip(n));
        assert forall|j: int| 0 <= j < fresh.len() implies (#[trigger] fresh[j]).size() is Ok by {
            lemma_size(new[n + j]);
        }
        assert forall|j: int| 0 <= j < to_persist@.len() implies *(#[trigger] to_persist@[j])
            == new[n + j] by {
            assert(pointees(to_persist@)[j] == fresh[j]);
        }
        assert(pointees(to_persist@).len() == to_persist@.len());
        lemma_same_entries(*final(log), *old(log), start + n, 0);
        assert(final(log)@.entries.skip(kept) =~= fresh);
        assert(final(log)@.sizes.skip(kept) =~= sizes_of(fresh));
        lemma_kept_encoded(*final(log), fresh, kept);
        assert forall|j: int| n <= j < new.len() implies kept_encoded(
            final(log).entries@[start + j],
            #[trigger] new[j],
        ) by {
            assert(fresh[j - n] == new[j]);
        }
        assert(pointees(conf@) == fresh.filter(|e: LogEntry<C>| e.entry_data is ConfChange)) by {
            lemma_conf_changes(fresh);
        }
        let dropped = s.entries.skip(kept);
        assert forall|i: LogIndex| #[trigger] undo@.contains(i) <==> exists|k: int|
            start + n <= k < es.len() && (#[trigger] es[k]).inner.index == i
                && es[k].inner.entry_data is ConfChange by {
            lemma_conf_change_indexes(dropped, i);
            if undo@.contains(i) {
                let j = choose|j: int|
                    0 <= j < dropped.len() && (#[trigger] dropped[j]).index == i
                        && dropped[j].entry_data is ConfChange;
                assert(s.entries[kept + j] == *es[kept + j].inner);
            }
            if exists|k: int|
                start + n <= k < es.len() && (#[trigger] es[k]).inner.index == i
                    && es[k].inner.entry_data is ConfChange {
                let k = choose|k: int|
                    start + n <= k < es.len() && (#[trigger] es[k]).inner.index == i
                        && es[k].inner.entry_data is ConfChange;
                assert(dropped[k - kept] == s.entries[k]);
                assert(s.entries[k] == *es[k].inner);
            }
        }
    }
}

/// The membership changes are the entries that carry one.
proof fn lemma_conf_changes<C>(entries: Seq<LogEntry<C>>)
    ensures
        conf_changes(entries) == entries.filter(|e: LogEntry<C>| e.entry_data is ConfChange),
    decreases entries.len(),
{
    reveal(Seq::filter);
    if entries.len() > 0 {
        lemma_conf_changes(entries.drop_last());
    }
}

/// The indexes of the membership changes are those of entries that carry one.
proof fn lemma_conf_change_indexes<C>(entries: Seq<LogEntry<C>>, i: LogIndex)
    ensures
        conf_change_indexes(entries).contains(i) <==> exists|k: int|
            0 <= k < entries.len() && (#[trigger] entries[k]).index == i
                && entries[k].entry_data is ConfChange,
{
    let pred = |e: LogEntry<C>| e.entry_data.spec_is_conf_change();
    let changes = conf_changes(entries);
    let indexes = changes.map_values(|e: LogEntry<C>| e.index);
    if conf_change_indexes(entries).contains(i) {
        let j = choose|j: int| 0 <= j < indexes.len() && indexes[j] == i;
        assert(changes.contains(changes[j]));
        let e = changes[j];
        entries.lemma_filter_pred(pred, j);
        entries.lemma_filter_contains_rev(pred, e);
        let k = choose|k: int| 0 <= k < entries.len() && entries[k] == e;
        assert(entries[k].index == i);
    }
    if exists|k: int|
        0 <= k < entries.len() && (#[trigger] entries[k]).index == i
            && entries[k].entry_data is ConfChange {
        let k = choose|k: int|
            0 <= k < entries.len() && (#[trigger] entries[k]).index == i
                && entries[k].entry_data is ConfChange;
        entries.lemma_filter_contains(pred, k);
        assert(changes.contains(entries[k]));
        let j = choose|j: int| 0 <= j < changes.len() && changes[j] == entries[k];
        assert(indexes[j] == i);
    }
}

/// Whether entries can be handed over for an append: the log does not hold the entry that they
/// follow, or each of those that it does not know has an encoding and there is room in a batch.
pub proof fn law_can_append<C>(
    log: Log<C>,
    entries: Vec<LogEntry<C>>,
    prev: LogIndex,
    term: u64,
    n: int,
    b: bool,
)
    requires
        call_ensures(Log::<C>::can_append, (&log, &entries, prev, term), b),
        holds(log, prev, term) ==> knows(log, prev, entries@, n),
    ensures
        !holds(log, prev, term) ==> b,
        holds(log, prev, term) ==> (b <==> {
            &&& prev < u64::MAX
            &&& n < entries@.len() ==> log.batch_limit > 0
            &&& forall|j: int|
                n <= j < entries@.len() ==> !is_broken((#[trigger] entries@[j]).entry_data) && 36
                    + body(entries@[j].entry_data).len() <= u64::MAX
        }),
{
    lemma_fields(log);
    lemma_holds(log, prev, term);
    let new = entries@;
    if holds(log, prev, term) {
        let m = lemma_knows(log, prev, new);
        law_knows_one_number(log, prev, new, m, n);
        let fresh = log@.fresh(prev as int, new);
        assert(fresh == new.skip(n));
        if all_encodable(fresh) {
            assert forall|j: int| n <= j < new.len() implies !is_broken(
                (#[trigger] new[j]).entry_data,
            ) && 36 + body(new[j].entry_data).len() <= u64::MAX by {
                lemma_size(new[j]);
                assert(fresh[j - n] == new[j]);
            }
        }
        if forall|j: int|
            n <= j < new.len() ==> !is_broken((#[trigger] new[j]).entry_data) && 36 + body(
                new[j].entry_data,
            ).len() <= u64::MAX {
            assert forall|j: int| 0 <= j < fresh.len() implies (
            #[trigger] fresh[j]).size() is Ok by {
                lemma_size(new[n + j]);
            }
        }
    }
}

// ---------------------------------------------------------------------------------------------
// Changes of role
// ---------------------------------------------------------------------------------------------

/// A state holds what it is given.
pub proof fn law_new_state<L, K: ?Sized>(
    lease_storage: Arc<L>,
    auto_compactor: Option<Arc<K>>,
    election_timeout: Duration,
    state: State<L, K>,
)
    requires
        call_ensures(
            State::<L, K>::new,
            (lease_storage, auto_compactor, election_timeout),
            state,
        ),
    ensures
        state.lease_storage == lease_storage,
        state.auto_compactor == auto_compactor,
        state.election_timeout == election_timeout,
{
}

/// A copy of a state shares what the state holds.
pub proof fn law_clone_state<L, K: ?Sized>(state: State<L, K>, copy: State<L, K>)
    requires
        cloned(state, copy),
    ensures
        copy.lease_storage == state.lease_storage,
        copy.auto_compactor == state.auto_compactor,
        copy.election_timeout == state.election_timeout,
{
}

/// The winner of an election promotes its leases by the election timeout and lets its compactor
/// run, if it has one.
pub proof fn law_on_election_win<L, K: ?Sized>(state: State<L, K>, actions: RoleActions)
    requires
        call_ensures(State::<L, K>::on_election_win, (&state,), actions),
    ensures
        actions.lease == LeaseAction::Promote(state.election_timeout),
        state.auto_compactor is Some ==> actions.compactor == Some(CompactorAction::Resume),
        state.auto_compactor is None ==> actions.compactor is None,
{
}

/// Who is no longer the leader demotes its leases and stops its compactor, if it has one.
pub proof fn law_on_calibrate<L, K: ?Sized>(state: State<L, K>, actions: RoleActions)
    requires
        call_ensures(State::<L, K>::on_calibrate, (&state,), actions),
    ensures
        actions.lease is Demote,
        state.auto_compactor is Some ==> actions.compactor == Some(CompactorAction::Pause),
        state.auto_compactor is None ==> actions.compactor is None,
{
}

/// A context holds what it is given, each in its place.
pub proof fn law_new_context<C>(
    origin_entry: Arc<LogEntry<C>>,
    addrs: Vec<String>,
    name: String,
    client_urls: Vec<String>,
    is_learner: bool,
    context: FallbackContext<C>,
)
    requires
        call_ensures(
            FallbackContext::<C>::new,
            (origin_entry, addrs, name, client_urls, is_learner),
            context,
        ),
    ensures
        context.origin_entry == origin_entry,
        context.addrs == addrs,
        context.name == name,
        context.client_urls == client_urls,
        context.is_learner == is_learner,
{
}

} // verus!
