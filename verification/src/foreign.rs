//! Types of other crates that pass through this library unopened.

use vstd::prelude::*;

verus! {

/// `snap::Error`, the error of the Snappy codec; nothing is read out of
/// it.
#[verifier::external_type_specification]
#[verifier::external_body]
pub struct ExSnapError(snap::Error);

/// `std::io::Error`, the error of the LZ4 codec; nothing is read out of
/// it.
#[verifier::external_type_specification]
#[verifier::external_body]
pub struct ExIoError(std::io::Error);

} // verus!

verus! {

/// `crossbeam_skiplist::SkipMap`, a concurrent sorted map; what it holds
/// is known only through the functions that are given a contract over it.
#[verifier::external_type_specification]
#[verifier::external_body]
#[verifier::reject_recursive_types(K)]
#[verifier::reject_recursive_types(V)]
pub struct ExSkipMap<K, V>(crossbeam_skiplist::SkipMap<K, V>);

/// `std::ops::Bound`, the end of a range: a value that the range takes in,
/// a value that it leaves out, or no end.
#[verifier::external_type_specification]
#[verifier::reject_recursive_types(T)]
pub struct ExBound<T>(std::ops::Bound<T>);

} // verus!

verus! {

/// Calls `Arc::clone`: another handle to the same value.
#[verifier::external_body]
pub fn share<T>(handle: &std::sync::Arc<T>) -> (other: std::sync::Arc<T>)
    ensures
        other == *handle,
{
    handle.clone()
}

} // verus!
