//! The copy with the least destination in an ordered map of copies.

use crate::machine::is_least_key;
use crate::register::RegisterCopy;
use std::collections::BTreeMap;
use vstd::prelude::*;
use vstd::std_specs::btree::increasing_seq;
use vstd::std_specs::cmp::OrdSpec;

verus! {

/// The copy with the least key in a map of copies by destination, with that
/// key, or nothing where the map is empty.
pub(crate) fn least_entry(copies: &BTreeMap<u32, RegisterCopy>) -> (first: Option<
    (u32, RegisterCopy),
>)
    ensures
        first is None <==> copies@.len() == 0,
        first matches Some((key, copy)) ==> is_least_key(copies@, key) && copies@[key] == copy,
{
    for entry in entries: copies.iter()
        invariant
            entries.index() == 0,
            increasing_seq(entries.seq().map_values(|kv: (&u32, &RegisterCopy)| *kv.0)),
    {
        let (key, copy) = entry;
        proof {
            let all = entries.seq();
            let numbers = all.map_values(|kv: (&u32, &RegisterCopy)| *kv.0);
            assert forall|other: u32| copies@.contains_key(other) implies *key <= other by {
                let j = choose|j: int| 0 <= j < all.len() && all[j] == (&other, &copies@[other]);
                if j > 0 {
                    assert(numbers[0].cmp_spec(&numbers[j]) is Less);
                }
            }
        }
        return Some((*key, *copy));
    }
    None
}

} // verus!
