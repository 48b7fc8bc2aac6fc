//! Header of a directly addressed node.
use vstd::prelude::*;
use crate::raw::node::iter::{
    ascending, in_key_order, lemma_ascending_equal, lemma_in_key_order, KeyIndex, KeyIter256,
};

verus! {

/// Keys of a directly addressed node: each is its own slot.
pub open spec fn all_keys() -> Seq<u8> {
    Seq::new(256, |i: int| i as u8)
}

/// Entries with a key from `lower` to `upper`, in key order.
pub fn keys(lower: u8, upper: u8) -> (iter: KeyIter256)
    requires
        lower <= upper,
    ensures
        iter.wf(),
        iter.remaining() == in_key_order(all_keys(), lower, upper, 256),
{
    let iter = KeyIter256::new(lower, upper);
    proof {
        let entries = iter.remaining();
        lemma_in_key_order(all_keys(), lower, upper, 256);
        assert(ascending(entries));
        let sorted = in_key_order(all_keys(), lower, upper, 256);
        assert forall|e: KeyIndex|
            #![trigger entries.contains(e)]
            #![trigger sorted.contains(e)]
            entries.contains(e) <==> sorted.contains(e) by {
            if sorted.contains(e) {
                assert(all_keys()[e.index as int] == e.key);
                assert(entries[e.key - lower] == e);
            }
        }
        lemma_ascending_equal(entries, sorted);
    }
    iter
}

} // verus!
