//! Choosing a bucket: the keys are hashed with `ahash`.
use std::hash::Hash;
use vstd::prelude::*;

verus! {

/// `ahash::RandomState`, the hasher builder that each map is created with. Its keys are
/// random; Verus sees nothing inside it.
#[verifier::external_type_specification]
#[verifier::external_body]
pub struct ExRandomState(ahash::RandomState);

/// Calls `ahash::RandomState::new`, which draws the hasher keys from a random source.
/// Nothing is stated of the state it returns.
#[verifier::external_body]
pub(crate) fn new_random_state() -> ahash::RandomState {
    ahash::RandomState::new()
}

/// Calls `ahash::RandomState::hash_one` on `key`. The hash is a function of `key` and of
/// the random keys inside `state`, which Verus cannot see; so no clause states its value,
/// and every `u64` counts as a possible result. In particular nothing here says that two
/// calls with one state and one key agree, though `ahash` documents that they do.
#[verifier::external_body]
pub(crate) fn hash_key<K: Hash>(state: &ahash::RandomState, key: &K) -> u64 {
    state.hash_one(key)
}

/// The bucket that a hash selects among `bucket_count` buckets.
pub fn bucket_for_hash(hash: u64, bucket_count: usize) -> (index: usize)
    requires
        bucket_count > 0,
    ensures
        index == (hash as usize) % bucket_count,
        index < bucket_count,
{
    (hash as usize) % bucket_count
}

} // verus!
