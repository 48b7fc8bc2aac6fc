//! Non-edge metadata of a node: which key byte is held by which slot.
use vstd::prelude::*;
use crate::raw::node::iter::{
    in_key_order, in_slot_order, lemma_in_slot_order, lemma_sorted, KeyIndex, KeyIter,
};
use crate::raw::node::node_256::all_keys;
use crate::raw::node::{node_15, node_256, node_3, node_47, Type};

verus! {

/// Header of a node of any type.
pub enum Header {
    Node3(node_3::Header),
    Node15(node_15::Header),
    Node47(node_47::Header),
    Node256,
}

impl View for Header {
    type V = Seq<u8>;

    /// Key of each slot in use.
    open spec fn view(&self) -> Seq<u8> {
        match self {
            Header::Node3(header) => header@,
            Header::Node15(header) => header@,
            Header::Node47(header) => header@,
            Header::Node256 => all_keys(),
        }
    }
}

impl Header {
    pub open spec fn wf(self) -> bool {
        match self {
            Header::Node3(header) => header.wf(),
            Header::Node15(header) => header.wf(),
            Header::Node47(header) => header.wf(),
            Header::Node256 => true,
        }
    }

    /// No key can be added any more.
    pub open spec fn frozen(self) -> bool {
        match self {
            Header::Node3(header) => header.frozen(),
            Header::Node15(header) => header.frozen(),
            Header::Node47(header) => header.frozen(),
            Header::Node256 => false,
        }
    }

    /// Type of the node.
    pub open spec fn kind(self) -> Type {
        match self {
            Header::Node3(_) => Type::Node3,
            Header::Node15(_) => Type::Node15,
            Header::Node47(_) => Type::Node47,
            Header::Node256 => Type::Node256,
        }
    }

    /// Entries with a key from `lower` to `upper` in the header's own order.
    pub open spec fn entries(self, lower: u8, upper: u8) -> Seq<KeyIndex> {
        match self.kind() {
            Type::Node3 | Type::Node15 => in_slot_order(self@, lower, upper, self@.len() as int),
            Type::Node47 | Type::Node256 => in_key_order(self@, lower, upper, 256),
        }
    }

    /// No byte is held by two slots, and the slots fit the node.
    pub proof fn lemma_wf(&self)
        requires
            self.wf(),
        ensures
            self@.no_duplicates(),
            self@.len() <= self.kind().slots(),
            self.kind() is Node256 ==> self@ == all_keys(),
    {
        match self {
            Header::Node3(header) => header.lemma_wf(),
            Header::Node15(header) => header.lemma_wf(),
            Header::Node47(header) => header.lemma_wf(),
            Header::Node256 => {},
        }
    }

    /// Type of the node.
    pub fn node_type(&self) -> (kind: Type)
        ensures
            kind == self.kind(),
    {
        match self {
            Header::Node3(_) => Type::Node3,
            Header::Node15(_) => Type::Node15,
            Header::Node47(_) => Type::Node47,
            Header::Node256 => Type::Node256,
        }
    }

    /// Header of a fresh node.
    pub fn new(kind: Type) -> (header: Header)
        ensures
            header.wf(),
            !header.frozen(),
            header.kind() == kind,
            kind !is Node256 ==> header@ == Seq::<u8>::empty(),
    {
        match kind {
            Type::Node3 => Header::Node3(node_3::Header::new()),
            Type::Node15 => Header::Node15(node_15::Header::new()),
            Type::Node47 => Header::Node47(node_47::Header::new()),
            Type::Node256 => Header::Node256,
        }
    }

    /// Number of slots in use.
    pub fn len(&self) -> (len: usize)
        requires
            self.wf(),
        ensures
            len == self@.len(),
    {
        match self {
            Header::Node3(header) => header.len(),
            Header::Node15(header) => header.len(),
            Header::Node47(header) => header.len(),
            Header::Node256 => 256,
        }
    }

    /// Key of a slot.
    pub fn slot_key(&self, slot: usize) -> (key: u8)
        requires
            self.wf(),
            slot < self@.len(),
        ensures
            key == self@[slot as int],
    {
        match self {
            Header::Node3(header) => header.slot_key(slot),
            Header::Node15(header) => header.slot_key(slot),
            Header::Node47(header) => header.slot_key(slot),
            Header::Node256 => slot as u8,
        }
    }

    /// Slot of `key`.
    pub fn get(&self, key: u8) -> (index: Option<u8>)
        requires
            self.wf(),
        ensures
            match index {
                Some(index) => index < self@.len() && self@[index as int] == key,
                None => !self@.contains(key),
            },
    {
        match self {
            Header::Node3(header) => header.get(key),
            Header::Node15(header) => header.get(key),
            Header::Node47(header) => header.get(key),
            Header::Node256 => Some(key),
        }
    }

    /// Slot of `key`, which is added if there is room.
    pub fn get_or_insert(&mut self, key: u8) -> (index: Option<u8>)
        requires
            old(self).wf(),
        ensures
            final(self).wf(),
            final(self).kind() == old(self).kind(),
            final(self).frozen() == old(self).frozen(),
            match index {
                Some(index) => index < final(self)@.len() && final(self)@[index as int] == key && (
                if old(self)@.contains(key) {
                    final(self)@ == old(self)@
                } else {
                    old(self)@.len() < old(self).kind().slots() && !old(self).frozen()
                        && final(self)@ == old(self)@.push(key)
                }),
                None => !old(self)@.contains(key) && (old(self)@.len() == old(self).kind().slots()
                    || old(self).frozen()) && final(self)@ == old(self)@,
            },
    {
        match self {
            Header::Node3(header) => header.get_or_insert(key),
            Header::Node15(header) => header.get_or_insert(key),
            Header::Node47(header) => header.get_or_insert(key),
            Header::Node256 => {
                assert(all_keys()[key as int] == key);
                Some(key)
            },
        }
    }

    /// Stop keys from being added. Returns the number of slots in use.
    pub fn freeze(&mut self) -> (len: usize)
        requires
            old(self).wf(),
        ensures
            final(self).wf(),
            final(self).kind() == old(self).kind(),
            final(self)@ == old(self)@,
            old(self).kind() !is Node256 ==> final(self).frozen(),
            len == old(self)@.len(),
    {
        match self {
            Header::Node3(header) => header.freeze(),
            Header::Node15(header) => header.freeze(),
            Header::Node47(header) => header.freeze(),
            Header::Node256 => 256,
        }
    }

    /// Entries with a key from `lower` to `upper`.
    ///
    /// The keys of the smaller nodes are sorted on request only; those of the
    /// larger nodes always are.
    pub fn keys(&self, sort: bool, lower: u8, upper: u8) -> (iter: KeyIter)
        requires
            self.wf(),
            lower <= upper,
        ensures
            iter.wf(),
            !sort ==> iter.remaining() == self.entries(lower, upper),
            sort ==> iter.remaining() == in_key_order(self@, lower, upper, 256),
    {
        proof {
            self.lemma_wf();
            lemma_in_slot_order(self@, lower, upper, self@.len() as int);
        }
        match self {
            Header::Node3(header) => {
                let mut iter = header.keys(lower, upper);
                if sort {
                    iter.sort();
                    proof {
                        lemma_sorted(self@, lower, upper, iter.remaining());
                    }
                }
                KeyIter::Node3(iter)
            },
            Header::Node15(header) => {
                let mut iter = header.keys(lower, upper);
                if sort {
                    iter.sort();
                    proof {
                        lemma_sorted(self@, lower, upper, iter.remaining());
                    }
                }
                KeyIter::Node15(Box::new(iter))
            },
            Header::Node47(header) => KeyIter::Node47(Box::new(header.keys(lower, upper))),
            Header::Node256 => KeyIter::Node256(node_256::keys(lower, upper)),
        }
    }
}

} // verus!
