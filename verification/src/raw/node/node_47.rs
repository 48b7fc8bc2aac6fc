//! Header of a node with at most forty-seven slots.
use vstd::prelude::*;
use crate::raw::node::iter::{in_key_order, slot_of, KeyIndex, KeyIter47};

verus! {

/// Marks a key without a slot.
const NONE: u8 = 255;

/// Slot of each key, indexed by the key.
pub struct Header {
    slots: [u8; 256],
    len: u8,
    frozen: bool,
    keys: Ghost<Seq<u8>>,
}

impl View for Header {
    type V = Seq<u8>;

    closed spec fn view(&self) -> Seq<u8> {
        self.keys@
    }
}

impl Header {
    pub closed spec fn wf(self) -> bool {
        &&& self.len == self@.len()
        &&& self.len <= 47
        &&& self@.no_duplicates()
        &&& forall|b: u8| #[trigger]
            self.slots@[b as int] == NONE || (self.slots@[b as int] < self.len
                && self@[self.slots@[b as int] as int] == b)
        &&& forall|i: int| 0 <= i < self.len ==> self.slots@[(#[trigger] self@[i]) as int] == i
    }

    /// No key can be added any more.
    pub closed spec fn frozen(self) -> bool {
        self.frozen
    }

    /// The keys are distinct and fit the slots.
    pub proof fn lemma_wf(&self)
        requires
            self.wf(),
        ensures
            self@.no_duplicates(),
            self@.len() <= 47,
    {
    }

    /// Header without keys.
    pub fn new() -> (header: Header)
        ensures
            header.wf(),
            !header.frozen(),
            header@ == Seq::<u8>::empty(),
    {
        Header { slots: [NONE; 256], len: 0, frozen: false, keys: Ghost(Seq::empty()) }
    }

    /// Number of slots in use.
    pub fn len(&self) -> (len: usize)
        requires
            self.wf(),
        ensures
            len == self@.len(),
            len <= 47,
    {
        self.len as usize
    }

    /// Key of a slot.
    pub fn slot_key(&self, slot: usize) -> (key: u8)
        requires
            self.wf(),
            slot < self@.len(),
        ensures
            key == self@[slot as int],
    {
        let mut key: u8 = 0;
        while self.slots[key as usize] as usize != slot
            invariant
                self.wf(),
                slot < self@.len(),
                key <= self@[slot as int],
            decreases 255 - key,
        {
            assert(self.slots@[self@[slot as int] as int] == slot);
            key += 1;
        }
        assert(self.slots@[key as int] == NONE || self@[self.slots@[key as int] as int] == key);
        key
    }

    /// Slot of `key`.
    pub fn get(&self, key: u8) -> (index: Option<u8>)
        requires
            self.wf(),
        ensures
            match index {
                Some(index) => index < self@.len() && self@[index as int] == key,
                None => !self@.contains(key),
            },
    {
        let index: u8 = self.slots[key as usize];
        if index == NONE {
            assert(forall|i: int| 0 <= i < self@.len() ==> self.slots@[self@[i] as int] == i);
            None
        } else {
            Some(index)
        }
    }

    /// Slot of `key`, which is added if there is room.
    pub fn get_or_insert(&mut self, key: u8) -> (index: Option<u8>)
        requires
            old(self).wf(),
        ensures
            final(self).wf(),
            final(self).frozen() == old(self).frozen(),
            match index {
                Some(index) => index < final(self)@.len() && final(self)@[index as int] == key && (
                if old(self)@.contains(key) {
                    final(self)@ == old(self)@
                } else {
                    old(self)@.len() < 47 && !old(self).frozen() && final(self)@ == old(self)@.push(
                        key,
                    )
                }),
                None => !old(self)@.contains(key) && (old(self)@.len() == 47 || old(self).frozen())
                    && final(self)@ == old(self)@,
            },
    {
        if let Some(index) = self.get(key) {
            return Some(index);
        }
        let len: u8 = self.len;
        if len >= 47 || self.frozen {
            return None;
        }
        self.slots[key as usize] = len;
        self.len = len + 1;
        self.keys = Ghost(self.keys@.push(key));
        Some(len)
    }

    /// Stop keys from being added. Returns the number of slots in use.
    pub fn freeze(&mut self) -> (len: usize)
        requires
            old(self).wf(),
        ensures
            final(self).wf(),
            final(self).frozen(),
            final(self)@ == old(self)@,
            len == old(self)@.len(),
    {
        self.frozen = true;
        self.len as usize
    }

    /// Entries with a key from `lower` to `upper`, in key order.
    pub fn keys(&self, lower: u8, upper: u8) -> (iter: KeyIter47)
        requires
            self.wf(),
        ensures
            iter.wf(),
            iter.fresh(),
            iter.remaining() == in_key_order(self@, lower, upper, 256),
    {
        let mut iter = KeyIter47::new();
        let mut b: usize = 0;
        let ghost mut used = Set::<int>::empty();
        while b < 256
            invariant
                self.wf(),
                b <= 256,
                iter.wf(),
                iter.fresh(),
                iter.room() == 47 - iter.remaining().len(),
                iter.remaining() == in_key_order(self@, lower, upper, b as int),
                used.finite(),
                used.len() == iter.remaining().len(),
                forall|i: int| #[trigger] used.contains(i) ==> 0 <= i < self.len && self@[i] < b,
            decreases 256 - b,
        {
            let key: u8 = b as u8;
            if lower <= key && key <= upper {
                let index: u8 = self.slots[b];
                proof {
                    assert(forall|i: int|
                        0 <= i < self@.len() ==> self.slots@[(#[trigger] self@[i]) as int] == i);
                }
                if index != NONE {
                    proof {
                        assert(self@[index as int] == key);
                        assert(slot_of(self@, key) == index);
                        lemma_used(used, index as int, self.len as int);
                        used = used.insert(index as int);
                    }
                    iter.push(KeyIndex { key, index });
                }
            }
            b += 1;
        }
        iter
    }
}

/// A set of slots without `index` has room for it.
proof fn lemma_used(used: Set<int>, index: int, len: int)
    requires
        used.finite(),
        forall|i: int| #[trigger] used.contains(i) ==> 0 <= i < len,
        0 <= index < len,
        !used.contains(index),
    ensures
        used.len() < len,
{
    let all = vstd::set_lib::set_int_range(0, len);
    vstd::set_lib::lemma_int_range(0, len);
    vstd::set_lib::lemma_len_subset(used.insert(index), all);
}

} // verus!
