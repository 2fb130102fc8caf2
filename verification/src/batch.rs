//! How a sequence of entry sizes is cut into batches.
//!
//! A batch starts at any entry and takes the following entries as long as their sizes together
//! stay within a limit. It is full once the next entry would exceed the limit, or once the limit
//! is met exactly; it always holds its first entry, however large. An example: with the limit 11
//! and the sizes 1, 5, 6, 2, 3, 4, 5 the batch from position 0 ends at position 1 (6 in all), the
//! one from 1 ends at 2 (11 in all), the one from 2 ends at 4, those from 3 and 4 end at 5, and
//! the one from 5 is still open, with the size 9.

use vstd::prelude::*;

verus! {

/// The sum of the sizes at the positions from `from` up to, but without, `to`.
pub open spec fn total(sizes: Seq<nat>, from: int, to: int) -> nat
    decreases to - from,
{
    if to <= from {
        0
    } else {
        total(sizes, from, to - 1) + sizes[to - 1]
    }
}

/// Whether the batch from `left` is full and `right` is its last position.
pub open spec fn full_batch(sizes: Seq<nat>, limit: nat, left: int, right: int) -> bool {
    &&& 0 <= left <= right < sizes.len()
    // the limit is not reached before the last position ...
    &&& total(sizes, left, right) < limit
    // ... and not exceeded with it, unless the batch is a single entry
    &&& (right == left || total(sizes, left, right + 1) <= limit)
    // nothing more fits
    &&& (total(sizes, left, right + 1) >= limit || (right + 1 < sizes.len() && total(
        sizes,
        left,
        right + 2,
    ) > limit))
}

/// Whether the entries from `left` on reach the limit.
pub open spec fn reaches_limit(sizes: Seq<nat>, limit: nat, left: int) -> bool {
    total(sizes, left, sizes.len() as int) >= limit
}

/// Whether `right` is the last position of the batch that starts at `left`: that of the full
/// batch, or else the last position of all.
pub open spec fn is_batch(sizes: Seq<nat>, limit: nat, left: int, right: int) -> bool {
    if reaches_limit(sizes, limit, left) {
        full_batch(sizes, limit, left, right)
    } else {
        right == sizes.len() - 1
    }
}

/// Whether the batch from `left` is full and its last entry has the index `end`. `indexes` holds
/// the index of each entry.
pub open spec fn ends_at(
    indexes: Seq<u64>,
    sizes: Seq<nat>,
    limit: nat,
    left: int,
    end: u64,
) -> bool {
    exists|right: int| #[trigger] full_batch(sizes, limit, left, right) && indexes[right] == end
}

/// Whether the three records that a log keeps of its batches fit its entries.
///
/// - `ends` holds, for each position before `first`, the index of the last entry of the full
///   batch that starts there, and 0 for the positions from `first` on.
/// - `first` is the first position from which the limit is not reached.
/// - `open_size` is the sum of the sizes from `first` on.
pub open spec fn batches_fit(
    indexes: Seq<u64>,
    sizes: Seq<nat>,
    limit: nat,
    ends: Seq<u64>,
    first: int,
    open_size: int,
) -> bool {
    &&& ends.len() == sizes.len()
    &&& 0 <= first <= sizes.len()
    &&& open_size == total(sizes, first, sizes.len() as int)
    &&& first < sizes.len() ==> open_size < limit
    &&& forall|i: int|
        0 <= i < first ==> ends_at(indexes, sizes, limit, i, #[trigger] ends[i])
    &&& forall|i: int| first <= i < sizes.len() ==> #[trigger] ends[i] == 0
}

/// A sum over a range is the sum over its two parts.
pub proof fn lemma_total_split(sizes: Seq<nat>, from: int, mid: int, to: int)
    requires
        from <= mid <= to,
    ensures
        total(sizes, from, to) == total(sizes, from, mid) + total(sizes, mid, to),
    decreases to - mid,
{
    if mid < to {
        lemma_total_split(sizes, from, mid, to - 1);
    }
}

/// A sum over a range is its first size and the sum of the others.
pub proof fn lemma_total_first(sizes: Seq<nat>, from: int, to: int)
    requires
        from < to,
    ensures
        total(sizes, from, to) == sizes[from] + total(sizes, from + 1, to),
{
    lemma_total_split(sizes, from, from + 1, to);
    assert(total(sizes, from, from) == 0);
}

/// Sums over ranges on which two sequences agree, `shift` positions apart, are equal.
pub proof fn lemma_total_agree(a: Seq<nat>, b: Seq<nat>, shift: int, from: int, to: int)
    requires
        forall|k: int| from <= k < to ==> a[k + shift] == #[trigger] b[k],
    ensures
        total(a, from + shift, to + shift) == total(b, from, to),
    decreases to - from,
{
    if from < to {
        lemma_total_agree(a, b, shift, from, to - 1);
        assert(a[to - 1 + shift] == b[to - 1]);
    }
}

/// A full batch of a sequence is one of every sequence that agrees with it, `shift` positions
/// apart, as far as the batch and the entry behind it go.
pub proof fn lemma_full_batch_agree(
    a: Seq<nat>,
    b: Seq<nat>,
    limit: nat,
    shift: int,
    left: int,
    right: int,
)
    requires
        full_batch(a, limit, left + shift, right + shift),
        0 <= left,
        right < b.len(),
        right + 1 < b.len() || total(a, left + shift, right + shift + 1) >= limit,
        right + shift + 1 < a.len() || total(a, left + shift, right + shift + 1) >= limit,
        forall|k: int|
            left <= k < b.len() && k <= right + 1 && k + shift < a.len() ==> a[k + shift]
                == #[trigger] b[k],
    ensures
        full_batch(b, limit, left, right),
{
    lemma_total_agree(a, b, shift, left, right);
    lemma_total_agree(a, b, shift, left, right + 1);
    if total(a, left + shift, right + shift + 1) < limit {
        lemma_total_agree(a, b, shift, left, right + 2);
    }
}

/// A full batch reaches the limit, with the entry behind it where that is needed.
pub proof fn lemma_full_batch_reaches(sizes: Seq<nat>, limit: nat, left: int, right: int)
    requires
        full_batch(sizes, limit, left, right),
    ensures
        reaches_limit(sizes, limit, left),
{
    let n = sizes.len() as int;
    lemma_total_split(sizes, left, right + 1, n);
    if right + 1 < n {
        lemma_total_split(sizes, left, right + 2, n);
    }
}

/// There is one full batch from a position at most: where it ends is determined by the sizes.
pub proof fn lemma_full_batch_unique(sizes: Seq<nat>, limit: nat, left: int, r1: int, r2: int)
    requires
        full_batch(sizes, limit, left, r1),
        full_batch(sizes, limit, left, r2),
    ensures
        r1 == r2,
{
    let (a, b) = if r1 <= r2 { (r1, r2) } else { (r2, r1) };
    if a < b {
        lemma_total_split(sizes, left, a + 1, b);
        lemma_total_split(sizes, left, a + 2, b + 1);
    }
}

/// A batch that starts earlier does not end later.
pub proof fn lemma_full_batch_monotone(
    sizes: Seq<nat>,
    limit: nat,
    left1: int,
    right1: int,
    left2: int,
    right2: int,
)
    requires
        full_batch(sizes, limit, left1, right1),
        full_batch(sizes, limit, left2, right2),
        left1 <= left2,
    ensures
        right1 <= right2,
{
    if right2 < right1 {
        lemma_total_split(sizes, left1, left2, right1);
        lemma_total_split(sizes, left2, right2 + 1, right1);
        lemma_total_split(sizes, left1, left2, right1 + 1);
        lemma_total_split(sizes, left2, right2 + 2, right1 + 1);
    }
}

} // verus!
