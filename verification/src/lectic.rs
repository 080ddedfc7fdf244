//! The lectic order on sets of attribute indices.
//!
//! Of two different sets, the one that holds the smallest index on which
//! they differ is the greater. An exploration visits its candidate premises
//! in ascending lectic order; since there are finitely many subsets of
//! `{0, .., n - 1}`, a walk that only ever moves up must end. The rank of a
//! set makes that countable: it reads the set as a binary number with index
//! `0` as the highest digit.

use crate::attribute_set::{below, holds, members};
use bit_set::BitSet;
use vstd::prelude::*;

verus! {

/// The two sets hold the same indices below `limit`.
pub open spec fn agree_below(left: Set<usize>, right: Set<usize>, limit: nat) -> bool {
    forall|j: usize| j < limit ==> left.contains(j) == right.contains(j)
}

/// `left` comes before `right` in lectic order over the indices below `n`:
/// some index below `n` is in `right` and not in `left`, and the sets agree
/// on every smaller index.
pub open spec fn lectic_less(n: nat, left: Set<usize>, right: Set<usize>) -> bool {
    exists|i: usize|
        i < n && #[trigger] right.contains(i) && !left.contains(i) && agree_below(
            left,
            right,
            i as nat,
        )
}

/// The set read as a binary number of `n` digits, index `0` first.
pub open spec fn rank(n: nat, set: Set<usize>) -> nat
    decreases n,
{
    if n == 0 {
        0
    } else {
        2 * rank((n - 1) as nat, set) + if set.contains((n - 1) as usize) {
            1nat
        } else {
            0nat
        }
    }
}

/// How many steps up the lectic order are left above `set`, at most.
pub open spec fn room_above(n: nat, set: Set<usize>) -> nat {
    (rank(n, below(n)) - rank(n, set)) as nat
}

/// Sets that agree below `n` have the same rank over `n` digits.
pub proof fn rank_of_agreeing(n: nat, left: Set<usize>, right: Set<usize>)
    requires
        agree_below(left, right, n),
    ensures
        rank(n, left) == rank(n, right),
    decreases n,
{
    if n > 0 {
        rank_of_agreeing((n - 1) as nat, left, right);
        assert(left.contains((n - 1) as usize) == right.contains((n - 1) as usize));
    }
}

/// No set has a greater rank than the full set.
pub proof fn rank_at_most_full(n: nat, set: Set<usize>)
    ensures
        rank(n, set) <= rank(n, below(n)),
    decreases n,
{
    if n > 0 {
        let m = (n - 1) as nat;
        rank_at_most_full(m, set);
        rank_of_agreeing(m, below(m), below(n));
        assert(below(n).contains(m as usize));
    }
}

/// The rank grows along the lectic order.
pub proof fn rank_grows(n: nat, left: Set<usize>, right: Set<usize>)
    requires
        lectic_less(n, left, right),
    ensures
        rank(n, left) < rank(n, right),
        room_above(n, right) < room_above(n, left),
{
    let i = choose|i: usize|
        i < n && #[trigger] right.contains(i) && !left.contains(i) && agree_below(
            left,
            right,
            i as nat,
        );
    rank_grows_from(n, left, right, i);
    rank_at_most_full(n, left);
    rank_at_most_full(n, right);
}

/// Where two sets first differ at `first`, and `right` holds it, `right`
/// has the greater rank over any number of digits that reaches `first`.
proof fn rank_grows_from(n: nat, left: Set<usize>, right: Set<usize>, first: usize)
    requires
        first < n,
        right.contains(first),
        !left.contains(first),
        agree_below(left, right, first as nat),
    ensures
        rank(n, left) < rank(n, right),
    decreases n,
{
    if n == first + 1 {
        rank_of_agreeing(first as nat, left, right);
    } else {
        rank_grows_from((n - 1) as nat, left, right, first);
    }
}

/// Whether `left` comes before `right` in lectic order over the indices
/// below `n`.
pub fn precedes(left: &BitSet, right: &BitSet, n: usize) -> (before: bool)
    ensures
        before == lectic_less(n as nat, members(*left), members(*right)),
{
    let mut i: usize = 0;
    while i < n
        invariant
            i <= n,
            agree_below(members(*left), members(*right), i as nat),
        decreases n - i,
    {
        let in_left = holds(left, i);
        let in_right = holds(right, i);
        if in_left != in_right {
            proof {
                if !in_right {
                    assert forall|k: usize|
                        !(k < n && #[trigger] members(*right).contains(k) && !members(
                            *left,
                        ).contains(k) && agree_below(
                            members(*left),
                            members(*right),
                            k as nat,
                        )) by {
                        if k > i && agree_below(members(*left), members(*right), k as nat) {
                            assert(members(*left).contains(i) == members(*right).contains(i));
                        }
                    }
                }
            }
            return in_right;
        }
        i += 1;
    }
    proof {
        assert forall|k: usize|
            !(k < n && #[trigger] members(*right).contains(k) && !members(*left).contains(k)
                && agree_below(members(*left), members(*right), k as nat)) by {}
    }
    false
}

} // verus!
