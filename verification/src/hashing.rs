use vstd::prelude::*;
use core::hash::{Hash, Hasher};

verus! {

/// Feeds one value to a hasher through `Hash::hash`. Nothing is stated of
/// the hasher's state afterwards: what it holds depends on the hasher and on
/// the value's own `Hash`.
#[verifier::external_body]
pub(crate) fn hash_value<X: Hash, H: Hasher>(x: &X, state: &mut H) {
    x.hash(state)
}

} // verus!
