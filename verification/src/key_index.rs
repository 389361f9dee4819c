//! Finding the slot of a key: a hash map from key bytes to slot numbers.

use rustc_hash::{FxBuildHasher, FxHashMap};
use vstd::prelude::*;

verus! {

/// `rustc_hash::FxBuildHasher`, the hasher of an `FxHashMap`. Nothing is said
/// of it; it is only carried inside the map.
#[verifier::external_type_specification]
#[verifier::external_body]
pub struct ExFxBuildHasher(FxBuildHasher);

/// What an index holds: for each key that was inserted, by its bytes, the
/// slot number that was inserted with it last. The contracts of `index_new`,
/// `index_get` and `index_insert` say all that is known of it.
pub uninterp spec fn slots(index: FxHashMap<Vec<u8>, usize>) -> Map<Seq<u8>, usize>;

/// `FxHashMap::default`: a map built with the Fx hasher, which holds nothing
/// yet.
#[verifier::external_body]
pub(crate) fn index_new() -> (fresh: FxHashMap<Vec<u8>, usize>)
    ensures
        slots(fresh).dom() == Set::<Seq<u8>>::empty(),
{
    FxHashMap::default()
}

/// `HashMap::get` on an Fx map: the slot stored for the key whose bytes are
/// `key`, if one is stored.
#[verifier::external_body]
pub(crate) fn index_get(index: &FxHashMap<Vec<u8>, usize>, key: &[u8]) -> (slot: Option<usize>)
    ensures
        slot == if slots(*index).contains_key(key@) {
            Some(slots(*index)[key@])
        } else {
            None
        },
{
    index.get(key).copied()
}

/// `HashMap::insert` on an Fx map: afterwards `key` maps to `slot`, and every
/// other key maps to what it mapped to before.
#[verifier::external_body]
pub(crate) fn index_insert(index: &mut FxHashMap<Vec<u8>, usize>, key: Vec<u8>, slot: usize)
    ensures
        slots(*final(index)) == slots(*old(index)).insert(key@, slot),
{
    index.insert(key, slot);
}

} // verus!
