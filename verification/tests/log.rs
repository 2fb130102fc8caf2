use curp_log::entry::{Command, EncodeError, EntryData, LogEntry, ProposeId};
use curp_log::fallback::FallbackContext;
use curp_log::log::Log;
use curp_log::range::LogRange;
use curp_log::snapshot::SnapshotMeta;
use std::collections::{HashSet, VecDeque};
use std::iter::repeat;
use std::ops::{Bound, RangeBounds};
use std::sync::Arc;

#[derive(Debug, Default)]
struct TestCommand {
    keys: Vec<u8>,
}

fn default_batch_max_size() -> u64 {
    2 * 1024 * 1024
}

fn default_log_entries_cap() -> usize {
    5000
}

/// A command that is encoded as the given bytes.
fn command(keys: Vec<u8>) -> Arc<Command<TestCommand>> {
    let encoded = keys.clone();
    Arc::new(Command::new(TestCommand { keys }, Ok(encoded)))
}

fn cmd() -> EntryData<TestCommand> {
    command(vec![]).into()
}

fn sized(len: usize) -> EntryData<TestCommand> {
    command(vec![7; len]).into()
}

fn broken() -> EntryData<TestCommand> {
    let cause = Arc::new(bincode::ErrorKind::SizeLimit);
    Arc::new(Command::new(TestCommand::default(), Err(cause))).into()
}

fn is_size_limit<T>(result: &Result<T, EncodeError>) -> bool {
    match result {
        Err(EncodeError::Encoder(cause)) => matches!(**cause, bincode::ErrorKind::SizeLimit),
        _ => false,
    }
}

fn at(log: &Log<TestCommand>, i: u64) -> &LogEntry<TestCommand> {
    &log.entries[log.li_to_pi(i)].inner
}

/// A log whose entries have the given sizes, one after the other.
fn log_of_sizes(limit: u64, sizes: &[u64]) -> Log<TestCommand> {
    let mut log = Log::<TestCommand>::new(limit, 10);
    for (idx, size) in sizes.iter().enumerate() {
        let id = ProposeId(0, idx as u64);
        log.push_back(Arc::new(LogEntry::new(idx as u64 + 1, 1, id, cmd())), *size);
    }
    log
}

#[test]
fn test_log_up_to_date() {
    let mut log = Log::<TestCommand>::new(default_batch_max_size(), default_log_entries_cap());
    let result = log.try_append_entries(
        vec![
            LogEntry::new(1, 1, ProposeId(0, 0), cmd()),
            LogEntry::new(2, 1, ProposeId(0, 1), cmd()),
        ],
        0,
        0,
    );
    assert!(result.is_ok());

    assert!(log.log_up_to_date(1, 2));
    assert!(log.log_up_to_date(1, 3));
    assert!(log.log_up_to_date(2, 3));
    assert!(!log.log_up_to_date(1, 1));
    assert!(!log.log_up_to_date(0, 0));
}

#[test]
fn try_append_entries_will_remove_inconsistencies() {
    let mut log = Log::<TestCommand>::new(default_batch_max_size(), default_log_entries_cap());
    let result = log.try_append_entries(
        vec![
            LogEntry::new(1, 1, ProposeId(0, 1), cmd()),
            LogEntry::new(2, 1, ProposeId(0, 2), cmd()),
            LogEntry::new(3, 1, ProposeId(0, 3), cmd()),
        ],
        0,
        0,
    );
    assert!(result.is_ok());

    let result = log.try_append_entries(
        vec![
            LogEntry::new(2, 2, ProposeId(0, 4), cmd()),
            LogEntry::new(3, 2, ProposeId(0, 5), cmd()),
        ],
        1,
        1,
    );
    assert!(result.is_ok());
    assert_eq!(at(&log, 3).term, 2);
    assert_eq!(at(&log, 2).term, 2);
}

#[test]
fn try_append_entries_will_not_append() {
    let mut log = Log::<TestCommand>::new(default_batch_max_size(), default_log_entries_cap());
    let result =
        log.try_append_entries(vec![LogEntry::new(1, 1, ProposeId(0, 0), cmd())], 0, 0);
    assert!(result.is_ok());

    let result = log.try_append_entries(
        vec![
            LogEntry::new(4, 2, ProposeId(0, 1), cmd()),
            LogEntry::new(5, 2, ProposeId(0, 2), cmd()),
        ],
        3,
        1,
    );
    assert!(result.is_err());

    let result = log.try_append_entries(
        vec![
            LogEntry::new(2, 2, ProposeId(0, 3), cmd()),
            LogEntry::new(3, 2, ProposeId(0, 4), cmd()),
        ],
        1,
        2,
    );
    assert!(result.is_err());
}

#[test]
fn get_from_should_success() {
    let mut log = Log::<TestCommand>::new(default_batch_max_size(), default_log_entries_cap());

    // the same command throughout, so that all entries have the same size
    let test_cmd = command(vec![]);
    let _res = repeat(Arc::clone(&test_cmd))
        .take(10)
        .enumerate()
        .map(|(idx, cmd)| log.push(1, ProposeId(0, idx as u64), cmd.into()))
        .collect::<Vec<_>>();
    let log_entry_size = log.entries[0].size;

    log.set_batch_limit(3 * log_entry_size - 1);
    let bound_1 = log.get_range_by_batch(3);
    assert_eq!(
        bound_1,
        LogRange::RangeInclusive(3..=4),
        "batch_end = {:?}, batch = {}, log_entry_size = {}",
        log.batch_end,
        log.batch_limit,
        log_entry_size
    );
    assert!(log.has_next_batch(8));
    assert!(!log.has_next_batch(9));

    log.set_batch_limit(4 * log_entry_size);
    let bound_2 = log.get_range_by_batch(3);
    assert_eq!(
        bound_2,
        LogRange::RangeInclusive(3..=6),
        "batch_end = {:?}, batch = {}, log_entry_size = {}",
        log.batch_end,
        log.batch_limit,
        log_entry_size
    );
    assert!(log.has_next_batch(7));
    assert!(!log.has_next_batch(8));

    log.set_batch_limit(5 * log_entry_size + 2);
    let bound_3 = log.get_range_by_batch(3);
    assert_eq!(
        bound_3,
        LogRange::RangeInclusive(3..=7),
        "batch_end = {:?}, batch = {}, log_entry_size = {}",
        log.batch_end,
        log.batch_limit,
        log_entry_size
    );
    assert!(log.has_next_batch(5));
    assert!(!log.has_next_batch(6));

    log.set_batch_limit(100 * log_entry_size);
    let bound_4 = log.get_range_by_batch(3);
    assert_eq!(
        bound_4,
        LogRange::RangeInclusive(3..=9),
        "batch_end = {:?}, batch = {}, log_entry_size = {}",
        log.batch_end,
        log.batch_limit,
        log_entry_size
    );
    assert!(!log.has_next_batch(1));
    assert!(!log.has_next_batch(5));

    log.set_batch_limit(log_entry_size - 1);
    let bound_5 = log.get_range_by_batch(3);
    assert_eq!(
        bound_5,
        LogRange::RangeInclusive(3..=3),
        "batch_end = {:?}, batch = {}, log_entry_size = {}",
        log.batch_end,
        log.batch_limit,
        log_entry_size
    );
    assert!(log.has_next_batch(10));
}

#[test]
fn recover_log_should_success() {
    // the same command throughout, so that all entries have the same size
    let test_cmd = command(vec![]);
    let entries = repeat(Arc::clone(&test_cmd))
        .enumerate()
        .take(10)
        .map(|(idx, cmd)| {
            LogEntry::new(idx as u64 + 1, 1, ProposeId(0, idx as u64), cmd.into())
        })
        .collect::<Vec<LogEntry<TestCommand>>>();
    let mut log = Log::<TestCommand>::new(default_batch_max_size(), default_log_entries_cap());

    log.restore_entries(entries).unwrap();
    assert_eq!(log.entries.len(), 10);
    assert_eq!(log.batch_end.len(), 10);
}

#[test]
fn compact_test() {
    let mut log = Log::<TestCommand>::new(default_batch_max_size(), 10);

    for i in 0..30 {
        log.push(0, ProposeId(0, i), cmd());
    }
    log.last_as = 22;
    log.last_exe = 22;
    log.compact();
    assert_eq!(log.base_index, 12);
    assert_eq!(log.entries.front().unwrap().inner.index, 13);
    assert_eq!(log.batch_end.len(), 18);
    assert!(log.entries.len() == log.batch_end.len());
}

#[test]
fn get_from_should_success_after_compact() {
    let mut log = Log::<TestCommand>::new(default_batch_max_size(), 10);
    for i in 0..30 {
        log.push(0, ProposeId(0, i), cmd());
    }
    let log_entry_size = log.entries[0].size;
    log.set_batch_limit(2 * log_entry_size);
    log.last_as = 22;
    log.last_exe = 22;
    log.compact();
    assert_eq!(log.base_index, 12);
    assert_eq!(log.entries.front().unwrap().inner.index, 13);
    assert_eq!(log.batch_end.len(), 18);
    assert_eq!(log.first_idx_in_cur_batch, 17);

    let batch_1 = log.get_range_by_batch(3);
    assert_eq!(
        batch_1,
        LogRange::RangeInclusive(3..=4),
        "batch_end = {:?}, batch = {}, log_entry_size = {}",
        log.batch_end,
        log.batch_limit,
        log_entry_size
    );

    let batch_2 = log.get_range_by_batch(1024);
    assert_eq!(
        batch_2,
        LogRange::Range(18..18),
        "batch_end = {:?}, batch = {}, log_entry_size = {}",
        log.batch_end,
        log.batch_limit,
        log_entry_size
    );
    assert!(log.has_next_batch(15));
}

#[test]
fn batch_info_should_update_correctly_after_truncated() {
    let mut log = Log::<TestCommand>::new(11, 10);
    let mock_entries_sizes = vec![1, 5, 6, 2, 3, 4, 5];
    let test_cmd = command(vec![]);

    let _entries = repeat(Arc::clone(&test_cmd))
        .take(mock_entries_sizes.len())
        .enumerate()
        .map(|(idx, cmd)| {
            Arc::new(LogEntry::new(
                idx as u64 + 1,
                1,
                ProposeId(0, idx as u64),
                cmd.into(),
            ))
        })
        .zip(mock_entries_sizes)
        .map(|(entry, size)| log.push_back(entry, size))
        .collect::<Vec<_>>();

    assert_eq!(log.cur_batch_size, 9);
    assert_eq!(log.first_idx_in_cur_batch, 5);

    // the cut lies behind the start of the open batch: the sizes are now [1, 5, 6, 2, 3, 4]
    log.truncate(6);
    assert_eq!(log.first_idx_in_cur_batch, 3);
    assert_eq!(log.cur_batch_size, 9);
    assert_eq!(log.batch_end, VecDeque::from(vec![2, 3, 5, 0, 0, 0]));

    // the sizes are now [1, 5, 6, 2, 3]
    log.truncate(5);
    assert_eq!(log.first_idx_in_cur_batch, 3);
    assert_eq!(log.cur_batch_size, 5);
    assert_eq!(log.batch_end, VecDeque::from(vec![2, 3, 5, 0, 0]));

    // the cut lies before the start of the open batch: the sizes are now [1, 5]
    log.truncate(2);
    assert_eq!(log.first_idx_in_cur_batch, 0);
    assert_eq!(log.cur_batch_size, 6);
    assert_eq!(log.batch_end, VecDeque::from(vec![0, 0]));
}

#[test]
fn cmd_ids_cache_tracks_entries_through_lifecycle() {
    let mut log = Log::<TestCommand>::new(default_batch_max_size(), 10);

    for i in 0..5 {
        log.push(0, ProposeId(0, i), cmd());
        assert!(log.contains_cmd_id(&ProposeId(0, i)));
    }
    assert!(!log.contains_cmd_id(&ProposeId(0, 99)));

    // too few entries for a compaction
    log.last_as = 4;
    log.last_exe = 4;
    log.compact();
    for i in 5..25 {
        log.push(0, ProposeId(0, i), cmd());
    }
    log.last_as = 22;
    log.last_exe = 22;
    log.compact();
    assert!(log.base_index > 0);
    // the compacted entries are gone
    assert!(!log.contains_cmd_id(&ProposeId(0, 0)));
    // the others are still there
    assert!(log.contains_cmd_id(&ProposeId(0, 24)));

    log.clear();
    for i in 0..25 {
        assert!(!log.contains_cmd_id(&ProposeId(0, i)));
    }
}

#[test]
fn cmd_ids_cache_updated_on_truncate() {
    let mut log = Log::<TestCommand>::new(default_batch_max_size(), default_log_entries_cap());
    let result = log.try_append_entries(
        vec![
            LogEntry::new(1, 1, ProposeId(0, 1), cmd()),
            LogEntry::new(2, 1, ProposeId(0, 2), cmd()),
            LogEntry::new(3, 1, ProposeId(0, 3), cmd()),
        ],
        0,
        0,
    );
    assert!(result.is_ok());

    assert!(log.contains_cmd_id(&ProposeId(0, 1)));
    assert!(log.contains_cmd_id(&ProposeId(0, 2)));
    assert!(log.contains_cmd_id(&ProposeId(0, 3)));

    // conflicting entries, which truncate the log from index 2 on
    let result = log.try_append_entries(
        vec![
            LogEntry::new(2, 2, ProposeId(0, 4), cmd()),
            LogEntry::new(3, 2, ProposeId(0, 5), cmd()),
        ],
        1,
        1,
    );
    assert!(result.is_ok());

    assert!(log.contains_cmd_id(&ProposeId(0, 1)));
    assert!(!log.contains_cmd_id(&ProposeId(0, 2)));
    assert!(!log.contains_cmd_id(&ProposeId(0, 3)));
    assert!(log.contains_cmd_id(&ProposeId(0, 4)));
    assert!(log.contains_cmd_id(&ProposeId(0, 5)));
}

#[test]
fn cmd_ids_cache_updated_on_restore() {
    let mut log = Log::<TestCommand>::new(default_batch_max_size(), default_log_entries_cap());

    for i in 0..3 {
        log.push(1, ProposeId(0, i), cmd());
    }

    let entries =
        (10..15).map(|i| LogEntry::new(i - 9, 1, ProposeId(0, i), cmd())).collect();
    log.restore_entries(entries).unwrap();

    for i in 0..3 {
        assert!(!log.contains_cmd_id(&ProposeId(0, i)));
    }
    for i in 10..15 {
        assert!(log.contains_cmd_id(&ProposeId(0, i)));
    }
}

#[test]
fn push_prepared_assigns_correct_sequential_indices() {
    let mut log = Log::<TestCommand>::new(default_batch_max_size(), default_log_entries_cap());

    let prep1 = Log::<TestCommand>::prepare_entry(1, ProposeId(0, 1), cmd());
    let prep2 = Log::<TestCommand>::prepare_entry(1, ProposeId(0, 2), cmd());
    let prep3 = Log::<TestCommand>::prepare_entry(1, ProposeId(0, 3), cmd());

    let entry1 = log.push_prepared(prep1);
    assert_eq!(entry1.index, 1);
    let entry2 = log.push_prepared(prep2);
    assert_eq!(entry2.index, 2);
    let entry3 = log.push_prepared(prep3);
    assert_eq!(entry3.index, 3);

    assert_eq!(log.get(1).unwrap().propose_id, ProposeId(0, 1));
    assert_eq!(log.get(2).unwrap().propose_id, ProposeId(0, 2));
    assert_eq!(log.get(3).unwrap().propose_id, ProposeId(0, 3));

    assert!(log.contains_cmd_id(&ProposeId(0, 1)));
    assert!(log.contains_cmd_id(&ProposeId(0, 2)));
    assert!(log.contains_cmd_id(&ProposeId(0, 3)));
}

#[test]
fn push_prepared_size_matches_push() {
    let mut log1 = Log::<TestCommand>::new(default_batch_max_size(), default_log_entries_cap());
    let mut log2 = Log::<TestCommand>::new(default_batch_max_size(), default_log_entries_cap());

    let cmd = command(vec![]);

    let entry1 = log1.push(1, ProposeId(0, 1), Arc::clone(&cmd).into());
    let prep = Log::<TestCommand>::prepare_entry(1, ProposeId(0, 1), cmd.into());
    let entry2 = log2.push_prepared(prep);

    assert_eq!(entry1.index, entry2.index);

    assert_eq!(log1.entries.len(), log2.entries.len());
    assert_eq!(log1.entries[0].size, log2.entries[0].size);
}

#[test]
fn size_of_an_entry_is_that_of_its_encoding() {
    // the bytes of the body follow the header as they are
    let entry = LogEntry::new(u64::MAX, 3, ProposeId(5, 6), sized(32));
    assert_eq!(entry.serialized_size().unwrap(), 68);
    let bytes = bincode::serialize(&(3u64, u64::MAX, (5u64, 6u64), 1u32, [7u8; 32])).unwrap();
    assert_eq!(bytes.len(), 68);
    // the index does not matter
    let entry = LogEntry::new(0, 3, ProposeId(5, 6), sized(32));
    assert_eq!(entry.serialized_size().unwrap(), 68);

    // a command with its own encoding
    let keys = vec![7u8; 100];
    let encoded = bincode::serialize(&keys).unwrap();
    let data = Arc::new(Command::new(TestCommand { keys: keys.clone() }, Ok(encoded))).into();
    let entry: LogEntry<TestCommand> = LogEntry::new(u64::MAX, 3, ProposeId(5, 6), data);
    assert_eq!(entry.serialized_size().unwrap(), 144);
    let bytes = bincode::serialize(&(3u64, u64::MAX, (5u64, 6u64), 1u32, keys)).unwrap();
    assert_eq!(bytes.len(), 144);

    let size = |data: EntryData<TestCommand>| {
        LogEntry::new(1, 1, ProposeId(0, 0), data).serialized_size()
    };
    assert_eq!(size(EntryData::Empty).unwrap(), 36);
    assert_eq!(size(EntryData::Shutdown).unwrap(), 36);
    assert_eq!(size(EntryData::ConfChange(Arc::new(vec![1, 2, 3]))).unwrap(), 39);
    assert_eq!(size(EntryData::SetNodeState(Arc::new(vec![1]))).unwrap(), 37);
    assert!(is_size_limit(&size(broken())));
}

#[test]
fn ids_have_distinct_keys() {
    assert_eq!(ProposeId(1, 2).key(), (1 << 64) + 2);
    assert_eq!(ProposeId(u64::MAX, u64::MAX).key(), u128::MAX);
    assert_ne!(ProposeId(1, 0).key(), ProposeId(0, 1).key());
}

#[test]
fn batches_of_mixed_sizes() {
    let log = log_of_sizes(11, &[1, 5, 6, 2, 3, 4, 2]);
    assert_eq!(log.batch_end, VecDeque::from(vec![2, 3, 5, 7, 0, 0, 0]));
    assert_eq!(log.first_idx_in_cur_batch, 4);
    assert_eq!(log.cur_batch_size, 9);
    assert_eq!(log.get_range_by_batch(0), LogRange::RangeInclusive(0..=1));
    assert_eq!(log.get_range_by_batch(1), LogRange::RangeInclusive(1..=2));
    assert_eq!(log.get_range_by_batch(2), LogRange::RangeInclusive(2..=4));
    assert_eq!(log.get_range_by_batch(4), LogRange::RangeInclusive(4..=6));
    assert_eq!(log.get_range_by_batch(7), LogRange::Range(7..7));
}

#[test]
fn an_oversized_entry_is_a_batch_of_its_own() {
    let log = log_of_sizes(5, &[1, 10, 2, 2]);
    assert_eq!(log.get_range_by_batch(0), LogRange::RangeInclusive(0..=0));
    assert_eq!(log.get_range_by_batch(1), LogRange::RangeInclusive(1..=1));
    assert_eq!(log.get_range_by_batch(2), LogRange::RangeInclusive(2..=3));
    assert!(log.has_next_batch(2));
    assert!(!log.has_next_batch(3));
    // an entry of the size of the limit as well
    let log = log_of_sizes(5, &[1, 5, 1]);
    assert_eq!(log.get_range_by_batch(0), LogRange::RangeInclusive(0..=0));
    assert_eq!(log.get_range_by_batch(1), LogRange::RangeInclusive(1..=1));
}

#[test]
fn sums_beyond_the_range_of_a_size() {
    let mut log = log_of_sizes(u64::MAX, &[u64::MAX - 1]);
    assert_eq!(log.cur_batch_size, u64::MAX - 1);
    log.push_back(Arc::new(LogEntry::new(2, 1, ProposeId(0, 1), cmd())), u64::MAX - 1);
    assert_eq!(log.batch_end, VecDeque::from(vec![1, 0]));
    assert_eq!(log.cur_batch_size, u64::MAX - 1);
}

#[test]
fn get_from_hands_out_batches() {
    let log = log_of_sizes(11, &[1, 5, 6, 2, 3, 4, 2]);
    let indexes = |li: u64| log.get_from(li).iter().map(|e| e.index).collect::<Vec<_>>();
    assert_eq!(indexes(1), vec![1, 2]);
    assert_eq!(indexes(3), vec![3, 4, 5]);
    assert_eq!(indexes(5), vec![5, 6, 7]);
    assert!(!log.has_next_batch(5));
    assert!(indexes(8).is_empty());
    assert!(!log.has_next_batch(8));
    // the range of positions selects the same entries
    let sizes = log.entries.range(log.get_range_by_batch(2)).map(|e| e.size).collect::<Vec<_>>();
    assert_eq!(sizes, vec![6, 2, 3]);
}

#[test]
fn ranges_have_bounds() {
    let open: LogRange<usize> = (2..5).into();
    assert_eq!(open.start_bound(), Bound::Included(&2));
    assert_eq!(open.end_bound(), Bound::Excluded(&5));
    let closed: LogRange<usize> = (2..=5).into();
    assert_eq!(closed.start_bound(), Bound::Included(&2));
    assert_eq!(closed.end_bound(), Bound::Included(&5));
    assert_eq!(closed, LogRange::RangeInclusive(2..=5));
}

#[test]
fn truncate_to_nothing_starts_anew() {
    let mut log = log_of_sizes(11, &[1, 5, 6, 2, 3, 4, 2]);
    log.truncate(0);
    assert_eq!(log.first_idx_in_cur_batch, 0);
    assert_eq!(log.cur_batch_size, 0);
    assert!(log.batch_end.is_empty());
    assert_eq!(log.last_log_index(), 0);
    // and nothing happens if the log is shorter already
    log.truncate(3);
    assert_eq!(log.entries.len(), 0);
    log.push_back(Arc::new(LogEntry::new(1, 1, ProposeId(0, 0), cmd())), 11);
    assert_eq!(log.batch_end, VecDeque::from(vec![1]));
}

#[test]
fn truncate_undoes_a_push() {
    let mut log = log_of_sizes(11, &[1, 5, 6, 2]);
    let before = (log.batch_end.clone(), log.first_idx_in_cur_batch, log.cur_batch_size);
    log.push_back(Arc::new(LogEntry::new(5, 1, ProposeId(0, 9), cmd())), 8);
    assert!(log.contains_cmd_id(&ProposeId(0, 9)));
    log.truncate(4);
    assert_eq!((log.batch_end.clone(), log.first_idx_in_cur_batch, log.cur_batch_size), before);
    assert!(!log.contains_cmd_id(&ProposeId(0, 9)));
    assert_eq!(log.last_log_index(), 4);
}

#[test]
fn pop_front_removes_the_first_entry() {
    let mut log = log_of_sizes(11, &[1, 5, 6, 2, 3]);
    let entry = log.pop_front().unwrap();
    assert_eq!(entry.index, 1);
    assert!(!log.contains_cmd_id(&ProposeId(0, 0)));
    assert_eq!(log.batch_end, VecDeque::from(vec![3, 5, 0, 0]));
    assert_eq!(log.first_idx_in_cur_batch, 2);
    assert_eq!(log.cur_batch_size, 5);

    let mut log = log_of_sizes(11, &[4, 3]);
    assert!(log.pop_front().is_some());
    assert_eq!(log.first_idx_in_cur_batch, 0);
    assert_eq!(log.cur_batch_size, 3);

    assert!(Log::<TestCommand>::new(11, 10).pop_front().is_none());
}

#[test]
fn an_id_that_two_entries_share_outlives_one_of_them() {
    let mut log = log_of_sizes(11, &[]);
    log.push(1, ProposeId(0, 0), EntryData::Empty);
    log.push(2, ProposeId(0, 0), EntryData::Empty);
    log.push(2, ProposeId(0, 1), EntryData::Empty);
    log.truncate(1);
    assert!(log.contains_cmd_id(&ProposeId(0, 0)));
    assert!(!log.contains_cmd_id(&ProposeId(0, 1)));
    log.truncate(0);
    assert!(!log.contains_cmd_id(&ProposeId(0, 0)));
}

#[test]
fn get_finds_entries_in_memory_only() {
    let mut log = log_of_sizes(11, &[1, 5, 6, 2, 3]);
    assert!(log.get(0).is_none());
    assert_eq!(log.get(5).unwrap().index, 5);
    assert!(log.get(6).is_none());
    assert!(log.get(u64::MAX).is_none());
    log.entries_cap = 1;
    log.last_as = 3;
    log.last_exe = 3;
    log.compact();
    assert!(log.get(2).is_none());
    assert_eq!(log.get(3).unwrap().index, 3);
    assert_eq!(log.li_to_pi(3), 0);
}

#[test]
fn last_entry_is_the_base_of_an_empty_log() {
    let mut log = Log::<TestCommand>::new(11, 10);
    assert_eq!((log.last_log_index(), log.last_log_term()), (0, 0));
    assert!(log.log_up_to_date(0, 0));
    log.push(4, ProposeId(0, 0), cmd());
    assert_eq!((log.last_log_index(), log.last_log_term()), (1, 4));
    assert!(log.log_up_to_date(4, 1));
    assert!(!log.log_up_to_date(3, 9));
}

#[test]
fn previous_entry_is_found_in_memory_or_at_the_base() {
    let mut log = Log::<TestCommand>::new(11, 10);
    log.reset_by_snapshot_meta(SnapshotMeta { last_included_index: 7, last_included_term: 3 });
    assert_eq!(log.get_prev_entry_info(8), (7, 3));
    log.push(4, ProposeId(0, 0), cmd());
    assert_eq!(log.get_prev_entry_info(9), (8, 4));
    assert_eq!(log.get_prev_entry_info(8), (7, 3));
}

#[test]
fn a_snapshot_replaces_the_log() {
    let mut log = log_of_sizes(11, &[1, 5, 6, 2, 3]);
    log.reset_by_snapshot_meta(SnapshotMeta { last_included_index: 7, last_included_term: 3 });
    assert_eq!((log.base_index, log.base_term), (7, 3));
    assert_eq!((log.last_as, log.last_exe, log.commit_index), (7, 7, 7));
    assert_eq!((log.last_log_index(), log.last_log_term()), (7, 3));
    assert!(log.entries.is_empty() && log.batch_end.is_empty());
    assert!(!log.contains_cmd_id(&ProposeId(0, 0)));
    let entries = vec![LogEntry::new(8, 3, ProposeId(0, 0), cmd())];
    assert!(log.try_append_entries(entries, 7, 3).is_ok());
    assert_eq!(log.get(8).unwrap().term, 3);
}

#[test]
fn append_reports_what_is_new_and_what_is_to_be_undone() {
    let conf = || EntryData::ConfChange(Arc::new(vec![1]));
    let mut log = Log::<TestCommand>::new(default_batch_max_size(), default_log_entries_cap());
    let (to_persist, changes, undo) = log
        .try_append_entries(
            vec![
                LogEntry::new(1, 1, ProposeId(0, 1), cmd()),
                LogEntry::new(2, 1, ProposeId(0, 2), conf()),
                LogEntry::new(3, 1, ProposeId(0, 3), cmd()),
                LogEntry::new(4, 1, ProposeId(0, 4), conf()),
            ],
            0,
            0,
        )
        .unwrap();
    assert_eq!(to_persist.iter().map(|e| e.index).collect::<Vec<_>>(), vec![1, 2, 3, 4]);
    assert_eq!(changes.iter().map(|e| e.index).collect::<Vec<_>>(), vec![2, 4]);
    assert!(undo.is_empty());

    // the first entry is known, the second one differs
    let new = || {
        vec![
            LogEntry::new(2, 1, ProposeId(0, 2), conf()),
            LogEntry::new(3, 2, ProposeId(0, 5), conf()),
        ]
    };
    let (to_persist, changes, undo) = log.try_append_entries(new(), 1, 1).unwrap();
    assert_eq!(to_persist.iter().map(|e| e.index).collect::<Vec<_>>(), vec![3]);
    assert_eq!(changes.iter().map(|e| e.index).collect::<Vec<_>>(), vec![3]);
    assert_eq!(undo, HashSet::from([4]));
    assert_eq!(log.last_log_index(), 3);
    assert_eq!(log.last_log_term(), 2);

    // once more, which changes nothing
    let (to_persist, changes, undo) = log.try_append_entries(new(), 1, 1).unwrap();
    assert!(to_persist.is_empty() && changes.is_empty() && undo.is_empty());
    assert_eq!(log.last_log_index(), 3);
    assert_eq!(log.get(3).unwrap().propose_id, ProposeId(0, 5));
}

#[test]
fn append_behind_the_base_replaces_everything() {
    let mut log = log_of_sizes(100, &[50, 40, 30, 20]);
    let (to_persist, _, _) = log
        .try_append_entries(vec![LogEntry::new(1, 2, ProposeId(0, 8), cmd())], 0, 0)
        .unwrap();
    assert_eq!(to_persist.len(), 1);
    assert_eq!(log.last_log_index(), 1);
    assert_eq!(log.first_idx_in_cur_batch, 0);
    assert_eq!(log.cur_batch_size, 36);
    // nothing to append, so that what follows the base is dropped
    assert!(log.try_append_entries(vec![], 0, 0).unwrap().0.is_empty());
    assert_eq!(log.last_log_index(), 0);
}

#[test]
fn rejected_entries_are_handed_back() {
    let mut log = log_of_sizes(11, &[1]);
    let entries = vec![LogEntry::new(4, 2, ProposeId(0, 8), cmd())];
    let rejected = log.try_append_entries(entries, 3, 1).unwrap_err();
    assert_eq!(rejected.len(), 1);
    assert_eq!(rejected[0].propose_id, ProposeId(0, 8));
    assert_eq!(log.entries.len(), 1);
}

#[test]
fn restore_stops_at_an_entry_without_encoding() {
    let mut log = Log::<TestCommand>::new(default_batch_max_size(), 10);
    let entries = vec![
        LogEntry::new(1, 1, ProposeId(0, 1), cmd()),
        LogEntry::new(2, 1, ProposeId(0, 2), broken()),
        LogEntry::new(3, 1, ProposeId(0, 3), cmd()),
    ];
    assert!(is_size_limit(&log.restore_entries(entries)));
    assert_eq!(log.entries.len(), 1);
    assert!(log.contains_cmd_id(&ProposeId(0, 1)));
    assert!(!log.contains_cmd_id(&ProposeId(0, 3)));
}

#[test]
fn restore_compacts() {
    let mut log = Log::<TestCommand>::new(default_batch_max_size(), 10);
    log.last_as = 22;
    log.last_exe = 22;
    let entries = (1..=30).map(|i| LogEntry::new(i, 1, ProposeId(0, i), cmd())).collect();
    log.restore_entries(entries).unwrap();
    assert_eq!(log.base_index, 12);
    assert_eq!(log.base_term, 1);
    assert_eq!(log.last_log_index(), 30);
    assert_eq!(log.entries.len(), 18);
    // compacting again changes nothing
    log.compact();
    assert_eq!(log.base_index, 12);
    assert_eq!(log.entries.len(), 18);
}

#[test]
fn compaction_may_discard_everything() {
    let mut log = log_of_sizes(11, &[1, 5, 6]);
    log.entries_cap = 0;
    // the first entry has to lie before `last_as`
    log.last_as = 1;
    log.last_exe = 1;
    log.compact();
    assert_eq!(log.entries.len(), 3);
    log.last_as = 9;
    log.last_exe = 9;
    log.compact();
    assert!(log.entries.is_empty());
    assert_eq!((log.base_index, log.base_term), (3, 1));
    assert_eq!((log.last_log_index(), log.last_log_term()), (3, 1));
}

#[test]
fn commit_settles_contexts() {
    let mut log = Log::<TestCommand>::new(11, 10);
    let entry = log.push(1, ProposeId(0, 0), EntryData::ConfChange(Arc::new(vec![])));
    for (index, is_learner) in [(1, true), (2, false), (3, true), (4, true)] {
        let context = FallbackContext::new(
            Arc::clone(&entry),
            vec!["addr".to_owned()],
            format!("node{index}"),
            vec![],
            is_learner,
        );
        log.fallback_contexts.insert(index, context);
    }
    let (settled, learners) = log.commit_to(3);
    assert_eq!(learners, 2);
    assert_eq!(settled.len(), 3);
    assert_eq!(settled[&2].name, "node2");
    assert_eq!(settled[&2].addrs, vec!["addr".to_owned()]);
    assert_eq!(log.commit_index, 3);
    assert_eq!(log.fallback_contexts.len(), 1);
    assert!(log.fallback_contexts.contains_key(&4));
    let (settled, learners) = log.commit_to(3);
    assert!(settled.is_empty());
    assert_eq!(learners, 0);
}

#[test]
fn a_follower_catches_up_batch_by_batch() {
    let mut leader = Log::<TestCommand>::new(100, 10);
    for i in 0..7 {
        leader.push(i / 3 + 1, ProposeId(0, i), sized(i as usize));
    }
    let mut follower = Log::<TestCommand>::new(1000, 10);
    follower.push(1, ProposeId(0, 0), sized(0));
    follower.push(9, ProposeId(5, 5), sized(0));
    let mut next = 1;
    let mut batches = 0;
    while next <= leader.last_log_index() {
        let (prev, term) = leader.get_prev_entry_info(next);
        let batch: Vec<LogEntry<TestCommand>> =
            leader.get_from(next).iter().map(|e| (**e).clone()).collect();
        assert!(batch.iter().map(|e| e.serialized_size().unwrap()).sum::<u64>() <= 100);
        next += batch.len() as u64;
        batches += 1;
        assert!(follower.try_append_entries(batch, prev, term).is_ok());
    }
    // the sizes are 36 to 42, so that two entries make a batch
    assert_eq!(batches, 4);
    assert_eq!(follower.last_log_index(), 7);
    assert_eq!(follower.last_log_term(), leader.last_log_term());
    for i in 1..=7 {
        assert_eq!(follower.get(i).unwrap().term, leader.get(i).unwrap().term);
        assert_eq!(follower.get(i).unwrap().propose_id, leader.get(i).unwrap().propose_id);
    }
    assert!(!follower.contains_cmd_id(&ProposeId(5, 5)));
    assert!(leader.log_up_to_date(follower.last_log_term(), follower.last_log_index()));
    assert!(follower.log_up_to_date(leader.last_log_term(), leader.last_log_index()));
}

#[test]
fn batch_records_do_not_depend_on_how_the_log_came_about() {
    let plain = log_of_sizes(11, &[1, 5, 6, 2, 3]);
    let mut cut = log_of_sizes(11, &[1, 5, 6, 2, 3, 20, 1, 1, 11]);
    cut.truncate(7);
    cut.truncate(5);
    let mut relimited = log_of_sizes(3, &[1, 5, 6, 2, 3]);
    relimited.set_batch_limit(11);
    for log in [cut, relimited] {
        assert_eq!(log.batch_end, plain.batch_end);
        assert_eq!(log.first_idx_in_cur_batch, plain.first_idx_in_cur_batch);
        assert_eq!(log.cur_batch_size, plain.cur_batch_size);
        assert!(log.contains_cmd_id(&ProposeId(0, 4)));
        assert!(!log.contains_cmd_id(&ProposeId(0, 5)));
    }
}

#[test]
fn restoring_the_own_entries_changes_nothing() {
    let mut log = Log::<TestCommand>::new(100, 10);
    for i in 0..5 {
        log.push(1, ProposeId(0, i), sized(i as usize));
    }
    let batch_end = log.batch_end.clone();
    let entries = log.entries.iter().map(|e| (*e.inner).clone()).collect();
    log.restore(entries).unwrap();
    assert_eq!(log.batch_end, batch_end);
    assert_eq!(log.batch_end, VecDeque::from(vec![2, 3, 4, 0, 0]));
    assert_eq!(log.entries.iter().map(|e| e.size).collect::<Vec<_>>(), vec![36, 37, 38, 39, 40]);
    assert_eq!(log.last_log_index(), 5);
}

#[test]
fn one_of_two_logs_is_up_to_date() {
    let mut logs = vec![];
    for (terms, n) in [(1, 3), (2, 1), (2, 2)] {
        let mut log = Log::<TestCommand>::new(100, 10);
        for i in 0..n {
            log.push(terms, ProposeId(0, i), cmd());
        }
        logs.push(log);
    }
    for (i, a) in logs.iter().enumerate() {
        for (j, b) in logs.iter().enumerate() {
            assert_eq!(a.log_up_to_date(b.last_log_term(), b.last_log_index()), j >= i);
        }
    }
}

#[test]
fn operations_keep_the_order_of_execution() {
    let mut log = Log::<TestCommand>::new(100, 1);
    for i in 0..5 {
        log.push(1, ProposeId(0, i), cmd());
    }
    log.last_as = 2;
    log.last_exe = 3;
    log.truncate(4);
    log.compact();
    log.commit_to(4);
    assert_eq!((log.last_as, log.last_exe, log.base_index), (2, 3, 1));
}

#[test]
fn an_entry_gives_its_command_back() {
    let mut log = Log::<TestCommand>::new(100, 10);
    let entry = log.push(1, ProposeId(0, 0), command(vec![1, 2, 3]).into());
    assert_eq!(entry.serialized_size().unwrap(), 39);
    assert_eq!(log.entries[0].size, 39);
    assert!(matches!(&entry.entry_data, EntryData::Command(c) if c.command.keys == vec![1, 2, 3]));
}

#[test]
fn batches_are_the_same_after_compaction() {
    let sizes = [1, 5, 6, 2, 3, 4, 2];
    let plain = log_of_sizes(11, &sizes);
    let mut log = log_of_sizes(11, &sizes);
    log.entries_cap = 1;
    log.last_as = 3;
    log.last_exe = 3;
    log.compact();
    assert_eq!(log.base_index, 2);
    assert_eq!(log.batch_end, VecDeque::from(vec![5, 7, 0, 0, 0]));
    for li in 3..=9 {
        let indexes = |log: &Log<TestCommand>| {
            log.get_from(li).iter().map(|e| e.index).collect::<Vec<_>>()
        };
        assert_eq!(indexes(&log), indexes(&plain));
        assert_eq!(log.has_next_batch(li), plain.has_next_batch(li));
    }
    // far behind the last entry there is nothing
    assert!(log.get_from(u64::MAX).is_empty());
    assert!(!log.has_next_batch(u64::MAX));
}

#[test]
fn restoring_is_pushing_one_by_one() {
    let entries: Vec<LogEntry<TestCommand>> =
        (1..=6).map(|i| LogEntry::new(i, 1, ProposeId(0, i), sized(i as usize))).collect();
    let mut pushed = Log::<TestCommand>::new(100, 10);
    for entry in &entries {
        let size = entry.serialized_size().unwrap();
        pushed.push_back(Arc::new(entry.clone()), size);
    }
    let mut restored = log_of_sizes(100, &[3, 4, 5]);
    restored.restore(entries).unwrap();
    assert_eq!(restored.batch_end, pushed.batch_end);
    assert_eq!(restored.first_idx_in_cur_batch, pushed.first_idx_in_cur_batch);
    assert_eq!(restored.cur_batch_size, pushed.cur_batch_size);
    assert!(!restored.contains_cmd_id(&ProposeId(0, 0)));
    assert!(restored.contains_cmd_id(&ProposeId(0, 6)));
}

#[test]
fn what_can_be_appended() {
    let entry = |index, term, data| LogEntry::new(index, term, ProposeId(0, index), data);
    let mut log = log_of_sizes(11, &[1, 5]);
    assert!(log.can_append(&vec![entry(3, 1, cmd())], 2, 1));
    // the log holds no such entry, so that the entries are refused whatever they are
    assert!(log.can_append(&vec![entry(9, 1, broken())], 2, 7));
    // new entries have to have an encoding
    assert!(!log.can_append(&vec![entry(3, 1, broken())], 2, 1));
    // those that the log holds already are only compared by their terms
    assert!(log.can_append(&vec![entry(2, 1, broken()), entry(3, 1, cmd())], 1, 1));
    let appended =
        log.try_append_entries(vec![entry(2, 1, broken()), entry(3, 1, cmd())], 1, 1).unwrap();
    assert_eq!(appended.0.iter().map(|e| e.index).collect::<Vec<_>>(), vec![3]);
    // without room in a batch nothing new can be appended
    let mut log = Log::<TestCommand>::new(0, 10);
    assert!(!log.can_append(&vec![entry(1, 1, cmd())], 0, 0));
    assert!(log.can_append(&vec![], 0, 0));
    // nor behind the last index of all
    log.reset_by_snapshot_meta(SnapshotMeta {
        last_included_index: u64::MAX,
        last_included_term: 1,
    });
    assert!(!log.can_append(&vec![], u64::MAX, 1));
}

#[test]
fn restored_entries_may_begin_behind_a_gap() {
    let entries = || -> Vec<LogEntry<TestCommand>> {
        (13..=30).map(|i| LogEntry::new(i, 1, ProposeId(0, i), cmd())).collect()
    };
    // compaction moves the base on to the first entry that stays
    let mut log = Log::<TestCommand>::new(72, 10);
    log.last_as = 25;
    log.last_exe = 25;
    log.restore_entries(entries()).unwrap();
    assert_eq!((log.base_index, log.base_term), (15, 1));
    assert!(log.is_in_order());
    assert_eq!(log.get(16).unwrap().index, 16);
    assert_eq!(log.get_from(16).iter().map(|e| e.index).collect::<Vec<_>>(), vec![16, 17]);
    assert!(!log.contains_cmd_id(&ProposeId(0, 15)));
    assert_eq!(log.last_log_index(), 30);

    // nothing is compacted, so that the gap stays until the next compaction
    let mut log = Log::<TestCommand>::new(72, 10);
    log.last_as = 22;
    log.last_exe = 22;
    log.restore_entries(entries()).unwrap();
    assert_eq!((log.base_index, log.entries.len()), (0, 18));
    assert!(!log.is_in_order());
    assert_eq!(log.batch_end[0], 14);
    assert_eq!(log.first_idx_in_cur_batch, 17);
    assert_eq!(log.push(1, ProposeId(0, 31), cmd()).index, 31);
    assert_eq!(log.batch_end[17], 31);
    assert!(log.has_next_batch(1));
    assert!(!log.has_next_batch(19));
    log.last_as = 30;
    log.last_exe = 30;
    log.compact();
    assert_eq!(log.base_index, 20);
    assert!(log.is_in_order());
    assert_eq!(log.get(31).unwrap().propose_id, ProposeId(0, 31));
}

#[test]
fn entries_out_of_order_are_stored_as_they_are() {
    let run = || -> Vec<LogEntry<TestCommand>> {
        [5, 3, 9].into_iter().map(|i| LogEntry::new(i, 1, ProposeId(0, i), cmd())).collect()
    };
    let mut log = Log::<TestCommand>::new(72, 10);
    log.restore(run()).unwrap();
    assert_eq!(log.batch_end, VecDeque::from(vec![3, 9, 0]));
    assert_eq!(log.last_log_index(), 9);
    assert!(!log.is_in_order());
    // compaction goes by the indexes from the front on
    log.entries_cap = 0;
    log.last_as = 6;
    log.last_exe = 6;
    log.compact();
    assert_eq!(log.entries.len(), 1);
    assert_eq!(log.base_index, 3);

    let mut log = Log::<TestCommand>::new(72, 10);
    assert!(log.is_in_order());
    let (to_persist, _, _) = log.try_append_entries(run(), 0, 0).unwrap();
    assert_eq!(to_persist.iter().map(|e| e.index).collect::<Vec<_>>(), vec![5, 3, 9]);
    assert!(!log.is_in_order());
}
