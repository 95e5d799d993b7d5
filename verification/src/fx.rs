use vstd::prelude::*;
use rustc_hash::{FxBuildHasher, FxHashSet};

verus! {

/// The hasher builder of rustc-hash's maps and sets; nothing is read from it.
#[verifier::external_type_specification]
#[verifier::external_body]
pub struct ExFxBuildHasher(FxBuildHasher);

/// What an `FxHashSet<u64>` holds.
pub uninterp spec fn key_set(s: FxHashSet<u64>) -> Set<u64>;

/// `FxHashSet::default`: an empty set.
#[verifier::external_body]
pub(crate) fn key_set_new() -> (s: FxHashSet<u64>)
    ensures
        key_set(s) == Set::<u64>::empty(),
{
    FxHashSet::default()
}

/// `FxHashSet::insert`: the set afterwards also holds `k`; the result says
/// whether `k` was new.
#[verifier::external_body]
pub(crate) fn key_set_insert(s: &mut FxHashSet<u64>, k: u64) -> (added: bool)
    ensures
        key_set(*final(s)) == key_set(*old(s)).insert(k),
        added == !key_set(*old(s)).contains(k),
{
    s.insert(k)
}

/// `FxHashSet::remove`: the set afterwards no longer holds `k`; the result
/// says whether it did.
#[verifier::external_body]
pub(crate) fn key_set_remove(s: &mut FxHashSet<u64>, k: u64) -> (removed: bool)
    ensures
        key_set(*final(s)) == key_set(*old(s)).remove(k),
        removed == key_set(*old(s)).contains(k),
{
    s.remove(&k)
}

/// `FxHashSet::contains`.
#[verifier::external_body]
pub(crate) fn key_set_contains(s: &FxHashSet<u64>, k: u64) -> (found: bool)
    ensures
        found == key_set(*s).contains(k),
{
    s.contains(&k)
}

/// The elements of an `FxHashSet<u64>` collected into a `Vec` by `iter`: each
/// element once, in the set's own (unspecified) order.
#[verifier::external_body]
pub(crate) fn key_set_elements(s: &FxHashSet<u64>) -> (v: Vec<u64>)
    ensures
        v@.to_set() == key_set(*s),
        v@.no_duplicates(),
{
    s.iter().cloned().collect()
}

} // verus!
