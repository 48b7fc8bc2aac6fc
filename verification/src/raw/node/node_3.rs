//! Header of a node with at most three slots.
use vstd::prelude::*;
use crate::raw::node::iter::{in_slot_order, KeyIndex, KeyIter3};
use crate::raw::{find_zero, le_byte};

verus! {

/// Keys of at most three slots in one word, the first slot in the lowest byte.
#[derive(Copy, Clone, Debug)]
pub struct Header {
    keys: u64,
    len: u8,
    frozen: bool,
}

impl View for Header {
    type V = Seq<u8>;

    closed spec fn view(&self) -> Seq<u8> {
        Seq::new(self.len as nat, |i: int| le_byte(self.keys, i))
    }
}

impl Header {
    pub closed spec fn wf(self) -> bool {
        &&& self.len <= 3
        &&& self.keys < 1u64 << ((8 * self.len) as u64)
        &&& self@.no_duplicates()
    }

    /// No key can be added any more.
    pub closed spec fn frozen(self) -> bool {
        self.frozen
    }

    /// The keys are distinct and fit the slots.
    pub proof fn lemma_wf(&self)
        requires
            self.wf(),
        ensures
            self@.no_duplicates(),
            self@.len() <= 3,
    {
    }

    /// Header without keys.
    pub fn new() -> (header: Header)
        ensures
            header.wf(),
            !header.frozen(),
            header@ == Seq::<u8>::empty(),
    {
        let header = Header { keys: 0, len: 0, frozen: false };
        assert(1u64 << 0u64 == 1) by (bit_vector);
        assert(header@ =~= Seq::<u8>::empty());
        header
    }

    /// Number of slots in use.
    pub fn len(&self) -> (len: usize)
        requires
            self.wf(),
        ensures
            len == self@.len(),
            len <= 3,
    {
        self.len as usize
    }

    /// Key of a slot.
    pub fn slot_key(&self, slot: usize) -> (key: u8)
        requires
            self.wf(),
            slot < self@.len(),
        ensures
            key == self@[slot as int],
    {
        let shift: u64 = 8 * (slot as u64);
        ((self.keys >> shift) & 0xff) as u8
    }

    /// Slot of `key`.
    pub fn get(&self, key: u8) -> (index: Option<u8>)
        requires
            self.wf(),
        ensures
            match index {
                Some(index) => index < self@.len() && self@[index as int] == key,
                None => !self@.contains(key),
            },
    {
        let word: u64 = self.keys;
        let splat: u64 = (key as u64) * 0x0101_0101_0101_0101;
        let index: u8 = find_zero(word ^ splat);
        proof {
            assert forall|i: int| 0 <= i < 8 implies (le_byte(word ^ splat, i) == 0) == (le_byte(
                word,
                i,
            ) == key) by {
                let k = key as u64;
                let n = i as u64;
                assert((((word ^ splat) >> ((8 * n) as u64)) & 0xff == 0) == ((word >> ((8
                    * n) as u64)) & 0xff == k) && ((word ^ splat) >> ((8 * n) as u64)) & 0xff
                    <= 0xff && (word >> ((8 * n) as u64)) & 0xff <= 0xff) by (bit_vector)
                    requires
                        k <= 0xff,
                        n < 8,
                        splat == k * 0x0101_0101_0101_0101,
                ;
            }
        }
        if index < self.len {
            Some(index)
        } else {
            None
        }
    }

    /// Slot of `key`, which is added if there is room.
    pub fn get_or_insert(&mut self, key: u8) -> (index: Option<u8>)
        requires
            old(self).wf(),
        ensures
            final(self).wf(),
            final(self).frozen() == old(self).frozen(),
            match index {
                Some(index) => index < final(self)@.len() && final(self)@[index as int] == key && (
                if old(self)@.contains(key) {
                    final(self)@ == old(self)@
                } else {
                    old(self)@.len() < 3 && !old(self).frozen() && final(self)@ == old(self)@.push(
                        key,
                    )
                }),
                None => !old(self)@.contains(key) && (old(self)@.len() == 3 || old(self).frozen())
                    && final(self)@ == old(self)@,
            },
    {
        if let Some(index) = self.get(key) {
            return Some(index);
        }
        let len: u8 = self.len;
        if len >= 3 || self.frozen {
            return None;
        }
        let ghost before = *self;
        let word: u64 = self.keys;
        let shift: u64 = 8 * (len as u64);
        self.keys = word | ((key as u64) << shift);
        self.len = len + 1;
        proof {
            let k = key as u64;
            let n = len as u64;
            let w = self.keys;
            assert(w < 1u64 << ((8 * (n + 1)) as u64) && (w >> ((8 * n) as u64)) & 0xff == k)
                by (bit_vector)
                requires
                    k <= 0xff,
                    n < 3,
                    word < 1u64 << ((8 * n) as u64),
                    w == word | (k << ((8 * n) as u64)),
            ;
            assert forall|i: int| 0 <= i < len implies le_byte(w, i) == le_byte(word, i) by {
                let j = i as u64;
                assert((w >> ((8 * j) as u64)) & 0xff == (word >> ((8 * j) as u64)) & 0xff)
                    by (bit_vector)
                    requires
                        n < 3,
                        j < n,
                        w == word | (k << ((8 * n) as u64)),
                ;
            }
            assert(self@ =~= before@.push(key));
            assert(self@.no_duplicates());
        }
        Some(len)
    }

    /// Stop keys from being added. Returns the number of slots in use.
    pub fn freeze(&mut self) -> (len: usize)
        requires
            old(self).wf(),
        ensures
            final(self).wf(),
            final(self).frozen(),
            final(self)@ == old(self)@,
            len == old(self)@.len(),
    {
        self.frozen = true;
        assert(self@ =~= old(self)@);
        self.len as usize
    }

    /// Entries with a key from `lower` to `upper`, in slot order.
    pub fn keys(&self, lower: u8, upper: u8) -> (iter: KeyIter3)
        requires
            self.wf(),
        ensures
            iter.wf(),
            iter.fresh(),
            iter.remaining() == in_slot_order(self@, lower, upper, self@.len() as int),
    {
        let mut iter = KeyIter3::new();
        let mut i: u8 = 0;
        while i < self.len
            invariant
                self.wf(),
                i <= self.len,
                iter.wf(),
                iter.fresh(),
                iter.room() >= 3 - i,
                iter.remaining() == in_slot_order(self@, lower, upper, i as int),
            decreases self.len - i,
        {
            let shift: u64 = 8 * (i as u64);
            let key: u8 = ((self.keys >> shift) & 0xff) as u8;
            assert(key == self@[i as int]);
            if lower <= key && key <= upper {
                iter.push(KeyIndex { key, index: i });
            }
            i += 1;
        }
        iter
    }
}

} // verus!
