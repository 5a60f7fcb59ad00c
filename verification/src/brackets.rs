//! Nesting depth and bracket matching, stated over the shape of a stream.
//!
//! The shape of an instruction stream gives each position its effect on the
//! nesting depth: `1` where a loop is entered, `-1` where one is left, and `0`
//! everywhere else. Both dialects match their brackets by these definitions.

use vstd::prelude::*;

verus! {

/// Every position of a shape opens a loop, closes one, or does neither.
pub open spec fn is_shape(shape: Seq<int>) -> bool {
    forall|i: int| 0 <= i < shape.len() ==> -1 <= #[trigger] shape[i] <= 1
}

/// The nesting depth just before position `at`: entries minus exits among the
/// positions below `at`.
pub open spec fn depth(shape: Seq<int>, at: int) -> int
    decreases at,
{
    if at <= 0 {
        0
    } else {
        depth(shape, at - 1) + shape[at - 1]
    }
}

/// `exit` is where a scan that starts behind `enter` with one loop open first
/// sees all loops closed: the depth behind `exit` is one below the depth behind
/// `enter`, and never was before.
pub open spec fn is_exit_of(shape: Seq<int>, enter: int, exit: int) -> bool {
    &&& 0 <= enter < exit < shape.len()
    &&& depth(shape, exit + 1) == depth(shape, enter + 1) - 1
    &&& forall|k: int| enter < k <= exit ==> #[trigger] depth(shape, k) >= depth(shape, enter + 1)
}

/// `enter` is where a scan that walks back from `exit` with one loop open first
/// sees all loops closed: the depth before `enter` is one below the depth before
/// `exit`, and is not again in between.
pub open spec fn is_enter_of(shape: Seq<int>, exit: int, enter: int) -> bool {
    &&& 0 <= enter < exit < shape.len()
    &&& depth(shape, enter) == depth(shape, exit) - 1
    &&& forall|k: int| enter < k <= exit ==> #[trigger] depth(shape, k) >= depth(shape, exit)
}

/// The exit that closes the loop opened at `enter`, if there is one.
pub open spec fn matching_exit(shape: Seq<int>, enter: int) -> Option<int> {
    if exists|j: int| is_exit_of(shape, enter, j) {
        Some(choose|j: int| is_exit_of(shape, enter, j))
    } else {
        None
    }
}

/// The entry that opened the loop closed at `exit`, if there is one.
pub open spec fn matching_enter(shape: Seq<int>, exit: int) -> Option<int> {
    if exists|i: int| is_enter_of(shape, exit, i) {
        Some(choose|i: int| is_enter_of(shape, exit, i))
    } else {
        None
    }
}

/// The other half of the bracket pair at `at`; `None` where `at` holds no
/// bracket, and where it holds one that nothing matches.
pub open spec fn partner(shape: Seq<int>, at: int) -> Option<int> {
    if 0 <= at < shape.len() && shape[at] > 0 {
        matching_exit(shape, at)
    } else if 0 <= at < shape.len() && shape[at] < 0 {
        matching_enter(shape, at)
    } else {
        None
    }
}

/// A bracket stands at `at` and nothing matches it.
pub open spec fn is_unmatched(shape: Seq<int>, at: int) -> bool {
    0 <= at < shape.len() && shape[at] != 0 && partner(shape, at) is None
}

/// Every bracket of the stream has its partner.
pub open spec fn is_paired(shape: Seq<int>) -> bool {
    forall|i: int| !is_unmatched(shape, i)
}

/// The jump table of a stream: each matched bracket's position, mapped to the
/// position of its partner.
pub open spec fn jump_table(shape: Seq<int>) -> Map<usize, usize> {
    Map::new(
        |i: usize| partner(shape, i as int) is Some,
        |i: usize| partner(shape, i as int)->0 as usize,
    )
}

/// The stretch from `from` up to `to` leaves the depth where it found it and
/// never goes below: its brackets pair up among themselves.
pub open spec fn is_balanced(shape: Seq<int>, from: int, to: int) -> bool {
    &&& 0 <= from <= to <= shape.len()
    &&& depth(shape, to) == depth(shape, from)
    &&& forall|k: int| from <= k <= to ==> #[trigger] depth(shape, k) >= depth(shape, from)
}

/// A loop has one exit at most.
pub proof fn lemma_exit_unique(shape: Seq<int>, enter: int, exit: int)
    requires
        is_exit_of(shape, enter, exit),
    ensures
        matching_exit(shape, enter) == Some(exit),
{
    let found = choose|j: int| is_exit_of(shape, enter, j);
    assert(is_exit_of(shape, enter, found));
    if found < exit {
        assert(depth(shape, found + 1) >= depth(shape, enter + 1));
    } else if exit < found {
        assert(depth(shape, exit + 1) >= depth(shape, enter + 1));
    }
}

/// A loop has one entry at most.
pub proof fn lemma_enter_unique(shape: Seq<int>, exit: int, enter: int)
    requires
        is_enter_of(shape, exit, enter),
    ensures
        matching_enter(shape, exit) == Some(enter),
{
    let found = choose|i: int| is_enter_of(shape, exit, i);
    assert(is_enter_of(shape, exit, found));
    if found < enter {
        assert(depth(shape, enter) >= depth(shape, exit));
    } else if enter < found {
        assert(depth(shape, found) >= depth(shape, exit));
    }
}

/// Matching is symmetric: the exit found by scanning forward from a loop's
/// entry is a loop exit, scanning back from it finds that entry again, and what
/// lies strictly between the two is balanced.
pub proof fn lemma_exit_matches_back(shape: Seq<int>, enter: int, exit: int)
    requires
        is_shape(shape),
        0 <= enter < shape.len(),
        shape[enter] == 1,
        matching_exit(shape, enter) == Some(exit),
    ensures
        enter < exit < shape.len(),
        shape[exit] == -1,
        matching_enter(shape, exit) == Some(enter),
        partner(shape, enter) == Some(exit),
        partner(shape, exit) == Some(enter),
        is_balanced(shape, enter + 1, exit),
{
    assert(is_exit_of(shape, enter, exit));
    assert(depth(shape, exit) >= depth(shape, enter + 1));
    assert(depth(shape, exit + 1) == depth(shape, exit) + shape[exit]);
    assert(depth(shape, enter + 1) == depth(shape, enter) + shape[enter]);
    assert(is_enter_of(shape, exit, enter));
    lemma_enter_unique(shape, exit, enter);
}

/// Matching is symmetric the other way round as well: the entry found by
/// scanning back from a loop's exit is a loop entry, scanning forward from it
/// finds that exit again, and what lies strictly between the two is balanced.
pub proof fn lemma_enter_matches_forth(shape: Seq<int>, exit: int, enter: int)
    requires
        is_shape(shape),
        0 <= exit < shape.len(),
        shape[exit] == -1,
        matching_enter(shape, exit) == Some(enter),
    ensures
        0 <= enter < exit,
        shape[enter] == 1,
        matching_exit(shape, enter) == Some(exit),
        partner(shape, exit) == Some(enter),
        partner(shape, enter) == Some(exit),
        is_balanced(shape, enter + 1, exit),
{
    assert(is_enter_of(shape, exit, enter));
    assert(depth(shape, enter + 1) >= depth(shape, exit));
    assert(depth(shape, exit + 1) == depth(shape, exit) + shape[exit]);
    assert(depth(shape, enter + 1) == depth(shape, enter) + shape[enter]);
    assert(is_exit_of(shape, enter, exit));
    lemma_exit_unique(shape, enter, exit);
}

/// Walking on from `at`, the depth falls below what it is at `start` before
/// the stream ends: so the loop entered before `start` has its exit.
proof fn lemma_depth_falls(shape: Seq<int>, start: int, at: int) -> (exit: int)
    requires
        is_shape(shape),
        0 < start <= at < shape.len(),
        depth(shape, shape.len() as int) < depth(shape, start),
        forall|k: int| start <= k <= at ==> #[trigger] depth(shape, k) >= depth(shape, start),
    ensures
        is_exit_of(shape, start - 1, exit),
    decreases shape.len() - at,
{
    assert(depth(shape, at + 1) == depth(shape, at) + shape[at]);
    if depth(shape, at + 1) < depth(shape, start) {
        at
    } else {
        lemma_depth_falls(shape, start, at + 1)
    }
}

/// Walking back from `at`, the depth is found below what it is at `end`
/// before the stream begins: so the loop left at `end` has its entry.
proof fn lemma_depth_rose(shape: Seq<int>, end: int, at: int) -> (enter: int)
    requires
        is_shape(shape),
        0 < at <= end < shape.len(),
        0 < depth(shape, end),
        forall|k: int| at <= k <= end ==> #[trigger] depth(shape, k) >= depth(shape, end),
    ensures
        is_enter_of(shape, end, enter),
    decreases at,
{
    assert(depth(shape, at) == depth(shape, at - 1) + shape[at - 1]);
    if depth(shape, at - 1) < depth(shape, end) {
        at - 1
    } else {
        lemma_depth_rose(shape, end, at - 1)
    }
}

/// Where every bracket has its partner, the depth never goes below zero.
proof fn lemma_paired_stays_above(shape: Seq<int>, at: int)
    requires
        is_shape(shape),
        is_paired(shape),
        0 <= at <= shape.len(),
    ensures
        depth(shape, at) >= 0,
    decreases at,
{
    if at > 0 {
        lemma_paired_stays_above(shape, at - 1);
        if depth(shape, at - 1) == 0 && shape[at - 1] < 0 {
            assert(!is_unmatched(shape, at - 1));
            let enter = matching_enter(shape, at - 1)->0;
            assert(is_enter_of(shape, at - 1, enter));
            lemma_paired_stays_above(shape, enter);
        }
    }
}

/// Where every bracket has its partner, a stretch that starts at depth zero
/// is followed by the end of the stream at depth zero.
proof fn lemma_paired_ends_level(shape: Seq<int>, at: int)
    requires
        is_shape(shape),
        is_paired(shape),
        0 <= at <= shape.len(),
        depth(shape, at) == 0,
    ensures
        depth(shape, shape.len() as int) == 0,
    decreases shape.len() - at,
{
    if at < shape.len() {
        assert(depth(shape, at + 1) == depth(shape, at) + shape[at]);
        if shape[at] == 0 {
            lemma_paired_ends_level(shape, at + 1);
        } else if shape[at] > 0 {
            assert(!is_unmatched(shape, at));
            let exit = matching_exit(shape, at)->0;
            assert(is_exit_of(shape, at, exit));
            lemma_paired_ends_level(shape, exit + 1);
        } else {
            lemma_paired_stays_above(shape, at + 1);
        }
    }
}

/// Every bracket of a stream has its partner if, and only if, the stream as a
/// whole is balanced: the depth ends at zero and never goes below.
pub proof fn lemma_paired_iff_balanced(shape: Seq<int>)
    requires
        is_shape(shape),
    ensures
        is_paired(shape) <==> is_balanced(shape, 0, shape.len() as int),
{
    let end = shape.len() as int;
    if is_paired(shape) {
        lemma_paired_ends_level(shape, 0);
        assert forall|k: int| 0 <= k <= end implies #[trigger] depth(shape, k) >= depth(
            shape,
            0,
        ) by {
            lemma_paired_stays_above(shape, k);
        }
    }
    if is_balanced(shape, 0, end) {
        assert forall|at: int| !is_unmatched(shape, at) by {
            if 0 <= at < shape.len() && shape[at] != 0 {
                assert(depth(shape, at + 1) == depth(shape, at) + shape[at]);
                assert(depth(shape, at) >= 0);
                assert(depth(shape, at + 1) >= 0);
                if shape[at] > 0 {
                    if at + 1 < shape.len() {
                        let exit = lemma_depth_falls(shape, at + 1, at + 1);
                        lemma_exit_unique(shape, at, exit);
                    } else {
                        assert(depth(shape, end) > 0);
                    }
                } else {
                    if at > 0 {
                        let enter = lemma_depth_rose(shape, at, at);
                        lemma_enter_unique(shape, at, enter);
                    } else {
                        assert(depth(shape, 1) < 0);
                    }
                }
            }
        }
    }
}

} // verus!
