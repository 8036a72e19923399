use hashbrown::HashSet;
use vstd::prelude::*;

verus! {

/// `hashbrown::HashSet`, the hash set of the `hashbrown` crate. What a set holds is known
/// only through `job_set_contents` and the three operations below.
#[verifier::external_type_specification]
#[verifier::external_body]
#[verifier::reject_recursive_types(T)]
#[verifier::reject_recursive_types(S)]
pub struct ExHashSet<T, S>(HashSet<T, S>);

/// `hashbrown::hash_map::DefaultHashBuilder`, the hasher that a `HashSet<u64>` is built with.
#[verifier::external_type_specification]
#[verifier::external_body]
pub struct ExDefaultHashBuilder(hashbrown::hash_map::DefaultHashBuilder);

/// The job identifiers that a set holds.
pub uninterp spec fn job_set_contents(set: HashSet<u64>) -> Set<u64>;

/// Calls `hashbrown::HashSet::default`, which makes a set without elements.
#[verifier::external_body]
pub(crate) fn job_set_new() -> (set: HashSet<u64>)
    ensures
        job_set_contents(set) == Set::<u64>::empty(),
{
    HashSet::default()
}

/// Calls `hashbrown::HashSet::contains`: true exactly when the set holds `job`.
#[verifier::external_body]
pub(crate) fn job_set_contains(set: &HashSet<u64>, job: u64) -> (found: bool)
    ensures
        found == job_set_contents(*set).contains(job),
{
    set.contains(&job)
}

/// Calls `hashbrown::HashSet::insert`: afterwards the set holds `job` besides what it
/// held before, and the result is true exactly when `job` was not in it yet.
#[verifier::external_body]
pub(crate) fn job_set_insert(set: &mut HashSet<u64>, job: u64) -> (fresh: bool)
    ensures
        fresh == !job_set_contents(*old(set)).contains(job),
        job_set_contents(*final(set)) == job_set_contents(*old(set)).insert(job),
{
    set.insert(job)
}

} // verus!
