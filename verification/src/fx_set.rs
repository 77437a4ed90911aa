//! Hash sets of integers that hash with the Fx hasher.

use rustc_hash::FxHashSet;
use rustc_hash::FxHasher;
use std::hash::BuildHasherDefault;
use std::hash::Hash;
use vstd::prelude::*;
use vstd::std_specs::hash::obeys_key_model;

verus! {

/// The hasher state of `rustc_hash`; nothing is known of its contents.
#[verifier::external_type_specification]
#[verifier::external_body]
pub struct ExFxHasher(FxHasher);

/// `std::hash::BuildHasherDefault`, the zero-sized builder that makes a hasher by `Default`.
#[verifier::external_type_specification]
#[verifier::external_body]
#[verifier::reject_recursive_types(H)]
pub struct ExBuildHasherDefault<H>(BuildHasherDefault<H>);

/// `HashSet::insert` on a set that hashes with `FxHasher`: the value is in the
/// set afterwards, nothing else changes, and the result tells whether it was
/// absent before.
#[verifier::external_body]
pub(crate) fn set_insert<T: Hash + Eq>(set: &mut FxHashSet<T>, value: T) -> (fresh: bool)
    requires
        obeys_key_model::<T>(),
    ensures
        final(set)@ == old(set)@.insert(value),
        fresh == !old(set)@.contains(value),
{
    set.insert(value)
}

/// `HashSet::remove` on a set that hashes with `FxHasher`: the value is gone
/// afterwards, nothing else changes, and the result tells whether it was
/// present before.
#[verifier::external_body]
pub(crate) fn set_remove<T: Hash + Eq>(set: &mut FxHashSet<T>, value: &T) -> (present: bool)
    requires
        obeys_key_model::<T>(),
    ensures
        final(set)@ == old(set)@.remove(*value),
        present == old(set)@.contains(*value),
{
    set.remove(value)
}

/// `HashSet::contains` on a set that hashes with `FxHasher`.
#[verifier::external_body]
pub(crate) fn set_contains<T: Hash + Eq>(set: &FxHashSet<T>, value: &T) -> (present: bool)
    requires
        obeys_key_model::<T>(),
    ensures
        present == set@.contains(*value),
{
    set.contains(value)
}

/// `HashSet::iter`, collected: every member once, in the order in which the
/// table happens to be walked.
#[verifier::external_body]
pub(crate) fn set_items<T: Hash + Eq + Copy>(set: &FxHashSet<T>) -> (items: Vec<T>)
    requires
        obeys_key_model::<T>(),
    ensures
        items@.to_set() == set@,
        items@.no_duplicates(),
{
    set.iter().copied().collect()
}

} // verus!
