//! Hash sets with the `fnv` hasher.
//!
//! Nothing in this file is proved. An `fnv::FnvHasher` starts from a fixed
//! offset basis and folds in the bytes it is given in a fixed way, so two of
//! them that were given the same bytes give the same digest. For keys whose
//! `Hash` and `Eq` agree, a std hash set built on it therefore finds again
//! what was put into it, which is what the contract below says.

use fnv::{FnvHashSet, FnvHasher};
use std::hash::{BuildHasherDefault, Hash};
use vstd::prelude::*;
use vstd::std_specs::hash::obeys_key_model;

verus! {

/// `fnv::FnvHasher`. Nothing of its inside is known here.
#[verifier::external_type_specification]
#[verifier::external_body]
pub struct ExFnvHasher(FnvHasher);

/// `std::hash::BuildHasherDefault`, which makes each hasher of a set by
/// `Default`. Nothing of its inside is known here.
#[verifier::external_type_specification]
#[verifier::external_body]
#[verifier::reject_recursive_types(H)]
pub struct ExBuildHasherDefault<H>(BuildHasherDefault<H>);

/// `HashSet::insert` on an `FnvHashSet`: the key is in the set afterwards,
/// nothing else changes, and the result tells whether the key was new.
#[verifier::external_body]
pub(crate) fn fnv_insert<K: Eq + Hash>(s: &mut FnvHashSet<K>, key: K) -> (fresh: bool)
    requires
        obeys_key_model::<K>(),
    ensures
        final(s)@ == old(s)@.insert(key),
        fresh == !old(s)@.contains(key),
{
    s.insert(key)
}

} // verus!
