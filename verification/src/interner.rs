//! The hash table behind hash-consing: a standard `HashMap` with the Fx
//! hasher, from the four child identities of a node to the node's identity.
//!
//! The functions in this file are the only ones of the library whose
//! contracts are taken on trust.

use rustc_hash::FxBuildHasher;
use std::collections::HashMap;
use vstd::prelude::*;

verus! {

/// The four child identities of a node: north-west, north-east, south-west,
/// south-east.
pub type NodeKey = (usize, usize, usize, usize);

/// The table from the children of a node to the node.
pub type Interner = HashMap<NodeKey, usize, FxBuildHasher>;

/// `rustc_hash::FxBuildHasher`, the builder of Fx hashers. It is a unit
/// struct; every hasher it builds starts from the same state.
#[verifier::external_type_specification]
#[verifier::external_body]
pub struct ExFxBuildHasher(FxBuildHasher);

/// `HashMap::with_capacity_and_hasher` with an `FxBuildHasher`: a table that
/// holds nothing yet.
#[verifier::external_body]
pub(crate) fn interner_new(capacity: usize) -> (table: Interner)
    ensures
        table@.dom() == Set::<NodeKey>::empty(),
{
    HashMap::with_capacity_and_hasher(capacity, FxBuildHasher)
}

/// `HashMap::get` on a table with the Fx hasher: the value stored under the
/// key, if there is one. This rests on keys that are equal hashing alike: an
/// Fx hasher's result is a function of the integers written to it, and
/// tuples of integers are written and compared field by field.
#[verifier::external_body]
pub(crate) fn interner_get(m: &Interner, key: &NodeKey) -> (r: Option<usize>)
    ensures
        r == (if m@.contains_key(*key) {
            Some(m@[*key])
        } else {
            None::<usize>
        }),
{
    m.get(key).copied()
}

/// `HashMap::insert` on a table with the Fx hasher: afterwards the key maps
/// to the value, and every other key to what it mapped to before.
#[verifier::external_body]
pub(crate) fn interner_insert(m: &mut Interner, key: NodeKey, id: usize)
    ensures
        final(m)@ == old(m)@.insert(key, id),
{
    m.insert(key, id);
}

} // verus!
