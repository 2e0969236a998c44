//! Decision levels on the trail, and the measure by which the search is
//! seen to end.
//!
//! The trail is the list of the assigned literals in the order in which
//! they got their values. A frame is the position at which a decision opened
//! a level; the level of a position is the number of frames at or before it.

use crate::count::{count_upto, lemma_count_bound, lemma_count_ext};
use vstd::prelude::*;

verus! {

/// Holds at the frames that are at or before position `k`.
pub open spec fn opened_by(frame: Seq<usize>, k: int) -> spec_fn(int) -> bool {
    |j: int| frame[j] <= k
}

/// The decision level of position `k` of the trail.
pub open spec fn level_at(frame: Seq<usize>, k: int) -> nat {
    count_upto(frame.len() as int, opened_by(frame, k))
}

/// The frames are in increasing order and each is a position of a trail of
/// length `len`.
pub open spec fn frames_ok(frame: Seq<usize>, len: int) -> bool {
    &&& forall|i: int, j: int| 0 <= i < j < frame.len() ==> #[trigger] frame[i] < #[trigger] frame[j]
    &&& forall|j: int| 0 <= j < frame.len() ==> #[trigger] frame[j] < len
}

/// Whether position `k` is one at which a decision opened a level.
pub open spec fn is_frame(frame: Seq<usize>, k: int) -> bool {
    exists|j: int| 0 <= j < frame.len() && #[trigger] frame[j] == k
}

/// The frames at or before a position are the first frames, as many as the
/// level of the position tells.
pub proof fn lemma_level_splits(frame: Seq<usize>, len: int, k: int)
    requires
        frames_ok(frame, len),
    ensures
        level_at(frame, k) <= frame.len(),
        forall|j: int| 0 <= j < level_at(frame, k) ==> #[trigger] frame[j] <= k,
        forall|j: int| level_at(frame, k) <= j < frame.len() ==> #[trigger] frame[j] > k,
    decreases frame.len(),
{
    let m = frame.len() as int;
    lemma_count_bound(m, opened_by(frame, k));
    if m > 0 {
        let shorter = frame.drop_last();
        lemma_level_splits(shorter, len, k);
        lemma_count_ext(m - 1, opened_by(frame, k), opened_by(shorter, k));
        assert forall|j: int| 0 <= j < level_at(frame, k) implies #[trigger] frame[j] <= k by {
            if j < m - 1 {
                assert(shorter[j] == frame[j]);
            }
        }
        assert forall|j: int| level_at(frame, k) <= j < m implies #[trigger] frame[j] > k by {
            if j < m - 1 {
                assert(shorter[j] == frame[j]);
            }
        }
    }
}

/// A position at or after the last frame is of the level that the number of
/// frames tells, and a position before it is of a lower level.
pub proof fn lemma_level_of_last(frame: Seq<usize>, len: int, k: int)
    requires
        frames_ok(frame, len),
    ensures
        frame.len() == 0 ==> level_at(frame, k) == 0,
        frame.len() > 0 && k >= frame.last() ==> level_at(frame, k) == frame.len(),
        frame.len() > 0 && k < frame.last() ==> level_at(frame, k) < frame.len(),
{
    lemma_level_splits(frame, len, k);
}

/// A frame that is pushed or popped after position `k` does not change the
/// level of `k`.
pub proof fn lemma_level_prefix(frame: Seq<usize>, shorter: Seq<usize>, len: int, k: int)
    requires
        frames_ok(frame, len),
        shorter.len() <= frame.len(),
        forall|j: int| 0 <= j < shorter.len() ==> #[trigger] shorter[j] == frame[j],
        shorter.len() < frame.len() ==> k < frame[shorter.len() as int],
    ensures
        level_at(shorter, k) == level_at(frame, k),
    decreases frame.len() - shorter.len(),
{
    if shorter.len() < frame.len() {
        let m = frame.len() as int;
        let middle = frame.drop_last();
        assert(frame[shorter.len() as int] <= frame[m - 1]) by {}
        lemma_count_ext(m - 1, opened_by(frame, k), opened_by(middle, k));
        assert(frames_ok(middle, len)) by {
            assert forall|i: int, j: int| 0 <= i < j < middle.len() implies #[trigger] middle[i]
                < #[trigger] middle[j] by {}
        }
        lemma_level_prefix(middle, shorter, len, k);
    } else {
        assert(shorter =~= frame);
    }
}

/// Frames in increasing order are no more than the positions of the trail.
pub proof fn lemma_frames_spread(frame: Seq<usize>, len: int)
    requires
        frames_ok(frame, len),
    ensures
        forall|j: int| 0 <= j < frame.len() ==> #[trigger] frame[j] >= j,
        frame.len() <= len || frame.len() == 0,
    decreases frame.len(),
{
    if frame.len() > 0 {
        let shorter = frame.drop_last();
        assert(frames_ok(shorter, len)) by {
            assert forall|i: int, j: int| 0 <= i < j < shorter.len() implies #[trigger] shorter[i]
                < #[trigger] shorter[j] by {}
        }
        lemma_frames_spread(shorter, len);
        assert forall|j: int| 0 <= j < frame.len() implies #[trigger] frame[j] >= j by {
            if j < shorter.len() {
                assert(shorter[j] == frame[j]);
            } else if j > 0 {
                assert(shorter[j - 1] == frame[j - 1]);
            }
        }
        assert(frame[frame.len() - 1] < len);
    }
}

/// The weight of a literal of a decision level among `n` variables: each
/// level weighs `2 * n + 2` times as much as the next.
pub open spec fn weight(n: nat, level: nat) -> nat
    decreases n - level,
{
    if level >= n {
        1
    } else {
        (2 * n + 2) * weight(n, level + 1)
    }
}

/// The weight of the first `len` positions of the trail together, each
/// counted twice.
pub open spec fn trail_weight(frame: Seq<usize>, len: int, n: nat) -> nat
    decreases len,
{
    if len <= 0 {
        0
    } else {
        trail_weight(frame, len - 1, n) + 2 * weight(n, level_at(frame, len - 1))
    }
}

/// What the measure of the search never exceeds.
pub open spec fn budget(n: nat) -> nat {
    (2 * n + 1) * weight(n, 0)
}

/// A lower level weighs at least as much as a higher one, and every level
/// weighs something.
pub proof fn lemma_weight_falls(n: nat, lower: nat, higher: nat)
    requires
        lower <= higher,
    ensures
        weight(n, lower) >= weight(n, higher),
        weight(n, higher) >= 1,
    decreases n - lower,
{
    if lower < n {
        let next = if lower == higher {
            lower + 1
        } else {
            higher
        };
        lemma_weight_falls(n, lower + 1, next);
        let w = weight(n, lower + 1);
        assert((2 * n + 2) * w >= w) by (nonlinear_arith)
            requires
                w >= 1,
        ;
    }
}

/// A level weighs more than all the literals that higher levels can hold,
/// counted twice, and a literal of the next level counted once more.
pub proof fn lemma_weight_dominates(n: nat, level: nat, count: nat)
    requires
        level < n,
        count <= n,
    ensures
        weight(n, level) >= 2 * count * weight(n, level + 1) + 2 * weight(n, level + 1),
{
    let w = weight(n, level + 1);
    assert((2 * n + 2) * w >= 2 * count * w + 2 * w) by (nonlinear_arith)
        requires
            count <= n,
            w >= 0,
    ;
}

/// The positions of a trail weigh no more than as many literals of level
/// zero.
pub proof fn lemma_trail_weight_bound(frame: Seq<usize>, len: int, n: nat)
    requires
        0 <= len,
    ensures
        trail_weight(frame, len, n) <= 2 * len * weight(n, 0),
    decreases len,
{
    if len > 0 {
        lemma_trail_weight_bound(frame, len - 1, n);
        lemma_weight_falls(n, 0, level_at(frame, len - 1));
        let w = weight(n, 0);
        assert(2 * (len - 1) * w + 2 * w == 2 * len * w) by (nonlinear_arith);
    }
}

/// A trail of at most `n` positions, with one more literal of any level,
/// stays within the budget.
pub proof fn lemma_within_budget(frame: Seq<usize>, len: int, n: nat, level: nat)
    requires
        0 <= len <= n,
    ensures
        trail_weight(frame, len, n) + weight(n, level) <= budget(n),
{
    lemma_trail_weight_bound(frame, len, n);
    lemma_weight_falls(n, 0, level);
    let w = weight(n, 0);
    assert(2 * len * w + w <= (2 * n + 1) * w) by (nonlinear_arith)
        requires
            0 <= len <= n,
            w >= 0,
    ;
}

/// The weight of a trail depends on the frames as far as they are at
/// positions of the trail.
pub proof fn lemma_trail_weight_prefix(
    frame: Seq<usize>,
    shorter: Seq<usize>,
    total: int,
    len: int,
    n: nat,
)
    requires
        frames_ok(frame, total),
        shorter.len() <= frame.len(),
        forall|j: int| 0 <= j < shorter.len() ==> #[trigger] shorter[j] == frame[j],
        shorter.len() < frame.len() ==> len <= frame[shorter.len() as int],
    ensures
        trail_weight(shorter, len, n) == trail_weight(frame, len, n),
    decreases len,
{
    if len > 0 {
        lemma_trail_weight_prefix(frame, shorter, total, len - 1, n);
        lemma_level_prefix(frame, shorter, total, len - 1);
    }
}

} // verus!
