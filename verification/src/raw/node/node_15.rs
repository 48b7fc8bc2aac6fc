//! Header of a node with at most fifteen slots.
use fearless_simd::{Fallback, Simd, SimdFrom};
use vstd::prelude::*;
use vstd::std_specs::bits::axiom_u64_trailing_zeros;
use crate::raw::node::iter::{in_slot_order, KeyIndex, KeyIter15};

verus! {

/// Keys of at most fifteen slots, one per lane.
///
/// The last lane holds the number of slots in use, above the frozen bit.
#[derive(Copy, Clone, Debug)]
pub struct Header {
    lanes: [u8; 16],
}

/// Bit mask of the lanes that equal `key`.
///
/// Calls `Simd::simd_eq_u8x16` of `fearless_simd` on the lanes and a splat of
/// `key`, and reads the mask with `Simd::to_bitmask_mask8x16`. Bit `i` of the
/// result is set exactly when lane `i` equals `key`; there are sixteen lanes.
#[verifier::external_body]
fn eq_mask(lanes: [u8; 16], key: u8) -> (mask: u64)
    ensures
        mask < 0x1_0000,
        forall|i: u64| i < 16 ==> (#[trigger] (mask >> i) & 1 == 1 <==> lanes@[i as int] == key),
{
    let simd = Fallback::new();
    let lanes = fearless_simd::u8x16::simd_from(simd, lanes);
    simd.to_bitmask_mask8x16(simd.simd_eq_u8x16(lanes, simd.splat_u8x16(key)))
}

impl View for Header {
    type V = Seq<u8>;

    closed spec fn view(&self) -> Seq<u8> {
        self.lanes@.subrange(0, (self.lanes@[15] / 2) as int)
    }
}

impl Header {
    pub closed spec fn wf(self) -> bool {
        &&& self.lanes@[15] < 32
        &&& self@.no_duplicates()
    }

    /// No key can be added any more.
    pub closed spec fn frozen(self) -> bool {
        self.lanes@[15] % 2 == 1
    }

    /// The keys are distinct and fit the slots.
    pub proof fn lemma_wf(&self)
        requires
            self.wf(),
        ensures
            self@.no_duplicates(),
            self@.len() <= 15,
    {
    }

    /// Header without keys.
    pub fn new() -> (header: Header)
        ensures
            header.wf(),
            !header.frozen(),
            header@ == Seq::<u8>::empty(),
    {
        let header = Header { lanes: [0u8; 16] };
        assert(header@ =~= Seq::<u8>::empty());
        header
    }

    /// Number of slots in use.
    pub fn len(&self) -> (len: usize)
        requires
            self.wf(),
        ensures
            len == self@.len(),
            len <= 15,
    {
        (self.lanes[15] / 2) as usize
    }

    /// Key of a slot.
    pub fn slot_key(&self, slot: usize) -> (key: u8)
        requires
            self.wf(),
            slot < self@.len(),
        ensures
            key == self@[slot as int],
    {
        self.lanes[slot]
    }

    /// Slot of `key`.
    pub fn get(&self, key: u8) -> (index: Option<u8>)
        requires
            self.wf(),
        ensures
            match index {
                Some(index) => index < self@.len() && self@[index as int] == key,
                None => !self@.contains(key),
            },
    {
        let mask: u64 = eq_mask(self.lanes, key);
        let index: u32 = mask.trailing_zeros();
        proof {
            broadcast use axiom_u64_trailing_zeros;

            assert forall|i: int| 0 <= i < 16 && i < index implies self.lanes@[i] != key by {
                let j = i as u64;
                assert((mask >> j) & 1 == 0);
            }
            if index < 16 {
                let j = index as u64;
                assert((mask >> j) & 1 == 1);
            }
        }
        if (index as usize) < self.len() {
            Some(index as u8)
        } else {
            None
        }
    }

    /// Slot of `key`, which is added if there is room.
    pub fn get_or_insert(&mut self, key: u8) -> (index: Option<u8>)
        requires
            old(self).wf(),
        ensures
            final(self).wf(),
            final(self).frozen() == old(self).frozen(),
            match index {
                Some(index) => index < final(self)@.len() && final(self)@[index as int] == key && (
                if old(self)@.contains(key) {
                    final(self)@ == old(self)@
                } else {
                    old(self)@.len() < 15 && !old(self).frozen() && final(self)@ == old(self)@.push(
                        key,
                    )
                }),
                None => !old(self)@.contains(key) && (old(self)@.len() == 15 || old(self).frozen())
                    && final(self)@ == old(self)@,
            },
    {
        if let Some(index) = self.get(key) {
            return Some(index);
        }
        let len: usize = self.len();
        if len >= 15 || self.lanes[15] % 2 == 1 {
            return None;
        }
        self.lanes[len] = key;
        self.lanes[15] = self.lanes[15] + 2;
        assert(self@ =~= old(self)@.push(key));
        assert(self@.no_duplicates());
        Some(len as u8)
    }

    /// Stop keys from being added. Returns the number of slots in use.
    pub fn freeze(&mut self) -> (len: usize)
        requires
            old(self).wf(),
        ensures
            final(self).wf(),
            final(self).frozen(),
            final(self)@ == old(self)@,
            len == old(self)@.len(),
    {
        let len: usize = self.len();
        if self.lanes[15] % 2 == 0 {
            self.lanes[15] = self.lanes[15] + 1;
        }
        assert(self@ =~= old(self)@);
        len
    }

    /// Entries with a key from `lower` to `upper`, in slot order.
    pub fn keys(&self, lower: u8, upper: u8) -> (iter: KeyIter15)
        requires
            self.wf(),
        ensures
            iter.wf(),
            iter.fresh(),
            iter.remaining() == in_slot_order(self@, lower, upper, self@.len() as int),
    {
        let mut iter = KeyIter15::new();
        let len: usize = self.len();
        let mut i: usize = 0;
        while i < len
            invariant
                self.wf(),
                i <= len <= 15,
                len == self@.len(),
                iter.wf(),
                iter.fresh(),
                iter.room() >= 15 - i,
                iter.remaining() == in_slot_order(self@, lower, upper, i as int),
            decreases len - i,
        {
            let key: u8 = self.lanes[i];
            assert(key == self@[i as int]);
            if lower <= key && key <= upper {
                iter.push(KeyIndex { key, index: i as u8 });
            }
            i += 1;
        }
        iter
    }
}

} // verus!
