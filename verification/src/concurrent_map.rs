//! The concurrent hash map of the `ccl` crate, as the library sees it.
//!
//! Verus sees nothing inside a map: each module that keeps one names its
//! contents with a spec function and reaches the map only through wrappers
//! whose contracts speak of that name.
use vstd::prelude::*;
use ccl::dhashmap::DHashMap;
use std::hash::Hash;

verus! {

#[verifier::external_type_specification]
#[verifier::external_body]
#[verifier::reject_recursive_types(K)]
#[verifier::reject_recursive_types(V)]
pub struct ExDHashMap<K: Hash + Eq, V>(DHashMap<K, V>);

} // verus!
