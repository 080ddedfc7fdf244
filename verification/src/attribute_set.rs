//! Sets of attribute (or object) indices, held in `bit_set::BitSet`.
//!
//! Verus cannot look inside a `BitSet`, so the set of indices that one holds
//! is given a name, [`members`], and the handful of `BitSet` operations used
//! by this crate are described in terms of it. Those descriptions are taken
//! on trust; everything else in this module is proved from them.

use bit_set::BitSet;
use vstd::prelude::*;

verus! {

#[verifier::external_type_specification]
#[verifier::external_body]
#[verifier::reject_recursive_types(B)]
pub struct ExBitSet<B>(BitSet<B>);

/// The indices that a bit set holds.
pub uninterp spec fn members(set: BitSet) -> Set<usize>;

/// The indices `0, 1, .., n - 1`.
pub open spec fn below(n: nat) -> Set<usize> {
    Set::new(|i: usize| i < n)
}

/// The set that a row of check marks stands for: index `i` belongs to it
/// exactly when `pattern[i]` is set.
pub open spec fn marked(pattern: Seq<bool>) -> Set<usize> {
    Set::new(|i: usize| i < pattern.len() && pattern[i as int])
}

/// Trusted: `BitSet::new` returns a set that holds no index.
#[verifier::external_body]
pub(crate) fn empty_set() -> (set: BitSet)
    ensures
        members(set) == Set::<usize>::empty(),
{
    BitSet::new()
}

/// Trusted: `BitSet::contains` tells whether the set holds `index`.
#[verifier::external_body]
pub(crate) fn holds(set: &BitSet, index: usize) -> (found: bool)
    ensures
        found == members(*set).contains(index),
{
    set.contains(index)
}

/// Trusted: `BitSet::insert` adds `index` to the set and leaves the other
/// members alone; it returns whether `index` was absent before. The largest
/// `usize` is kept out because the bit vector underneath would have to grow
/// to a length that does not fit.
#[verifier::external_body]
pub(crate) fn put(set: &mut BitSet, index: usize) -> (fresh: bool)
    requires
        index < usize::MAX,
    ensures
        members(*final(set)) == members(*old(set)).insert(index),
        fresh == !members(*old(set)).contains(index),
{
    set.insert(index)
}

/// Trusted: `==` on two `BitSet`s walks both in ascending order and compares
/// the indices met, so it holds exactly when they have the same members,
/// whatever their capacities.
#[verifier::external_body]
pub(crate) fn same_members(left: &BitSet, right: &BitSet) -> (same: bool)
    ensures
        same == (members(*left) == members(*right)),
{
    left == right
}

/// Trusted: `BitSet::clone` returns a set with the same members.
#[verifier::external_body]
pub(crate) fn copy_of(set: &BitSet) -> (copy: BitSet)
    ensures
        members(copy) == members(*set),
{
    set.clone()
}

/// The set `{0, .., n - 1}`.
pub fn full_set(n: usize) -> (set: BitSet)
    ensures
        members(set) == below(n as nat),
{
    let mut set = empty_set();
    let mut i: usize = 0;
    while i < n
        invariant
            i <= n,
            members(set) =~= below(i as nat),
        decreases n - i,
    {
        put(&mut set, i);
        i += 1;
    }
    set
}

/// Whether `set` is exactly `{0, .., n - 1}`.
pub fn is_full(set: &BitSet, n: usize) -> (full: bool)
    ensures
        full == (members(*set) == below(n as nat)),
{
    let all = full_set(n);
    same_members(set, &all)
}

/// The members of `set` that are smaller than `n`.
pub fn restricted(set: &BitSet, n: usize) -> (part: BitSet)
    ensures
        members(part) == members(*set).intersect(below(n as nat)),
{
    let mut part = empty_set();
    let mut i: usize = 0;
    while i < n
        invariant
            i <= n,
            members(part) =~= members(*set).intersect(below(i as nat)),
        decreases n - i,
    {
        if holds(set, i) {
            put(&mut part, i);
        }
        i += 1;
    }
    part
}

/// Whether every member of `set` is smaller than `n`.
pub fn fits(set: &BitSet, n: usize) -> (inside: bool)
    ensures
        inside == members(*set).subset_of(below(n as nat)),
{
    let part = restricted(set, n);
    let inside = same_members(set, &part);
    proof {
        if members(*set).subset_of(below(n as nat)) {
            assert(members(*set).intersect(below(n as nat)) =~= members(*set));
        }
    }
    inside
}

/// One check mark per index below `n`, set for the members of `set`.
pub fn pattern_of(set: &BitSet, n: usize) -> (pattern: Vec<bool>)
    ensures
        pattern@.len() == n,
        forall|i: int| 0 <= i < n ==> pattern@[i] == members(*set).contains(i as usize),
{
    let mut pattern: Vec<bool> = Vec::new();
    let mut i: usize = 0;
    while i < n
        invariant
            i <= n,
            pattern@.len() == i,
            forall|j: int| 0 <= j < i ==> pattern@[j] == members(*set).contains(j as usize),
        decreases n - i,
    {
        pattern.push(holds(set, i));
        i += 1;
    }
    pattern
}

} // verus!
