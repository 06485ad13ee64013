use std::collections::HashMap;
use vstd::prelude::*;

verus! {

/// `HashMap::get_mut`: a mutable reference to the value under `key`, `None` when the key is
/// absent; what is written through the reference becomes the value.
#[verifier::external_body]
pub(crate) fn hash_map_get_mut<V>(map: &mut HashMap<u64, V>, key: u64) -> (entry: Option<&mut V>)
    ensures
        match entry {
            Some(value) => {
                &&& old(map)@.contains_key(key)
                &&& *value == old(map)@[key]
                &&& final(map)@ == old(map)@.insert(key, *final(value))
            },
            None => !old(map)@.contains_key(key) && final(map)@ == old(map)@,
        },
{
    map.get_mut(&key)
}

} // verus!
