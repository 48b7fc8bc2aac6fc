//! A node is a partial map from key byte to edge.
//!
//! Adaptive radix trees use different node representations depending on
//! occupancy to reduce memory overhead. Each representation consists of a
//! header, which maps key bytes to slots, and of the edges in those slots.
use vstd::prelude::*;
use crate::raw::edge::{Edge, Meta};
use crate::raw::node::header::Header;
use crate::raw::node::iter::{
    distinct, in_key_order, in_slot_order, lemma_in_key_order, lemma_in_slot_order, slot_of,
    KeyIndex, KeyIter,
};
use crate::raw::node::node_256::all_keys;
use crate::raw::shape::laws::{lemma_holds, lemma_index};
use crate::raw::shape::{
    at, build, holds, index, kind_for, live, live_by_byte, live_by_slot, lookup, occupancy, unique,
    Shape,
};

pub mod header;
pub mod iter;
pub mod node_15;
pub mod node_256;
pub mod node_3;
pub mod node_47;

verus! {

/// Node type discriminant.
#[derive(Copy, Clone, Debug, PartialEq, Eq, Structural)]
pub enum Type {
    Node3,
    Node15,
    Node47,
    Node256,
}

impl Type {
    /// Number of edge slots in a node of this type.
    pub open spec fn slots(self) -> nat {
        match self {
            Type::Node3 => 3,
            Type::Node15 => 15,
            Type::Node47 => 47,
            Type::Node256 => 256,
        }
    }

    /// Number of edge slots in a node of this type.
    pub fn capacity(self) -> (capacity: usize)
        ensures
            capacity == self.slots(),
    {
        match self {
            Type::Node3 => 3,
            Type::Node15 => 15,
            Type::Node47 => 47,
            Type::Node256 => 256,
        }
    }
}

/// A node: a header and one edge per slot in use.
pub struct Node<M, V> {
    pub header: Header,
    pub edges: Vec<Edge<M, V>>,
}

impl<M: Meta, V> Node<M, V> {
    /// Structural validity of the whole subtree.
    pub open spec fn wf(self) -> bool {
        &&& self.header.wf()
        &&& !self.header.frozen()
        &&& self.edges@.len() == self.header@.len()
        &&& forall|i: int| 0 <= i < self.edges@.len() ==> (#[trigger] self.edges@[i]).wf()
    }

    /// Radix byte and child of each slot.
    pub open spec fn slots(self) -> Seq<(u8, Shape<V>)> {
        zip(self.header@, self.edges@)
    }

    /// Number of children.
    pub fn len(&self) -> (len: usize)
        requires
            self.wf(),
        ensures
            len == occupancy(self.slots()),
    {
        let mut len: usize = 0;
        let mut i: usize = 0;
        while i < self.edges.len()
            invariant
                i <= self.edges@.len(),
                len <= i,
                len == live_by_slot(self.slots(), i as int).len(),
            decreases self.edges@.len() - i,
        {
            assert(self.slots()[i as int].1 == self.edges@[i as int].shape());
            if !self.edges[i].is_null() {
                len += 1;
            }
            i += 1;
        }
        len
    }

    /// Radix byte of a slot.
    pub fn slot_key(&self, slot: usize) -> (key: u8)
        requires
            self.wf(),
            slot < self.edges@.len(),
        ensures
            key == self.header@[slot as int],
    {
        self.header.slot_key(slot)
    }

    /// Entries with a key from `lower` to `upper`, in key order.
    ///
    /// The only entry of a small node is returned as such.
    pub fn entry_or_entries(&self, lower: u8, upper: u8) -> (entries: Result<KeyIndex, KeyIter>)
        requires
            self.wf(),
            lower <= upper,
        ensures
            match entries {
                Ok(entry) => in_key_order(self.header@, lower, upper, 256) == seq![entry],
                Err(iter) => iter.wf() && iter.remaining() == in_key_order(
                    self.header@,
                    lower,
                    upper,
                    256,
                ),
            },
            entries is Ok <==> self.header.kind() is Node3 && in_key_order(
                self.header@,
                lower,
                upper,
                256,
            ).len() == 1,
    {
        let mut iter = self.header.keys(true, lower, upper);
        if let Type::Node3 = self.header.node_type() {
            if iter.len() == 1 {
                let ghost all = iter.remaining();
                if let Some(entry) = iter.next() {
                    assert(all =~= seq![entry]);
                    return Ok(entry);
                }
            }
        }
        Err(iter)
    }

    /// Take the children out, in the order in which the node is walked.
    pub fn into_entries(self) -> (entries: (Vec<u8>, Vec<Edge<M, V>>))
        requires
            self.wf(),
        ensures
            entries.0@.len() == entries.1@.len(),
            entries.0@.no_duplicates(),
            zip(entries.0@, entries.1@) == live(self.header.kind(), self.slots()),
            forall|i: int| 0 <= i < entries.1@.len() ==> (#[trigger] entries.1@[i]).wf(),
    {
        let ghost slots = self.slots();
        let ghost kind = self.header.kind();
        let Node { header, mut edges } = self;
        let mut iter = header.keys(false, 0, 255);
        let ghost all = iter.remaining();
        proof {
            header.lemma_wf();
            lemma_in_slot_order(header@, 0, 255, header@.len() as int);
            lemma_in_key_order(header@, 0, 255, 256);
            assert forall|i: int| 0 <= i < all.len() implies (#[trigger] all[i]).index
                < header@.len() && header@[all[i].index as int] == all[i].key by {
                assert(all.contains(all[i]));
            }
            assert(distinct(all));
        }
        let mut keys: Vec<u8> = Vec::new();
        let mut out: Vec<Edge<M, V>> = Vec::new();
        let ghost mut taken: int = 0;
        loop
            invariant
                0 <= taken <= all.len(),
                iter.wf(),
                iter.remaining() == all.skip(taken),
                edges@.len() == slots.len() == header@.len(),
                distinct(all),
                forall|i: int|
                    0 <= i < all.len() ==> (#[trigger] all[i]).index < header@.len()
                        && header@[all[i].index as int] == all[i].key,
                forall|i: int|
                    taken <= i < all.len() ==> edges@[(#[trigger] all[i]).index as int].wf()
                        && edges@[all[i].index as int].shape() == slots[all[i].index as int].1,
                keys@.len() == out@.len(),
                zip(keys@, out@) == select(all, slots, taken),
                forall|i: int| 0 <= i < out@.len() ==> (#[trigger] out@[i]).wf(),
                keys@.no_duplicates(),
                forall|i: int|
                    0 <= i < keys@.len() ==> exists|j: int|
                        0 <= j < taken && #[trigger] all[j].key == #[trigger] keys@[i],
            ensures
                taken == all.len(),
            decreases all.len() - taken,
        {
            match iter.next() {
                None => {
                    break ;
                },
                Some(KeyIndex { key, index }) => {
                    proof {
                        assert(all.skip(taken).first() == all[taken]);
                        assert(all.skip(taken).drop_first() =~= all.skip(taken + 1));
                    }
                    let mut edge = Edge::Null;
                    let ghost before = edges@;
                    core::mem::swap(&mut edge, &mut edges[index as usize]);
                    proof {
                        assert forall|i: int| taken + 1 <= i < all.len() implies edges@[(
                        #[trigger] all[i]).index as int].wf() && edges@[all[i].index as int].shape()
                            == slots[all[i].index as int].1 by {
                            assert(all[taken].key != all[i].key);
                            assert(edges@[all[i].index as int] == before[all[i].index as int]);
                        }
                        taken = taken + 1;
                    }
                    if !edge.is_null() {
                        let ghost keys_before = keys@;
                        let ghost out_before = out@;
                        keys.push(key);
                        out.push(edge);
                        proof {
                            assert(zip(keys@, out@) =~= zip(keys_before, out_before).push(
                                (key, edge.shape()),
                            ));
                            assert forall|i: int| 0 <= i < keys@.len() implies exists|j: int|
                                0 <= j < taken && #[trigger] all[j].key == #[trigger] keys@[i] by {
                                if i < keys_before.len() {
                                    assert(keys@[i] == keys_before[i]);
                                    let j = choose|j: int|
                                        0 <= j < taken - 1 && #[trigger] all[j].key
                                            == keys_before[i];
                                    assert(all[j].key == keys@[i]);
                                } else {
                                    assert(all[taken - 1].key == keys@[i]);
                                }
                            }
                            assert(keys@.no_duplicates());
                        }
                    }
                },
            }
        }
        proof {
            if kind is Node3 || kind is Node15 {
                lemma_select_by_slot(header@, slots, slots.len() as int);
                assert(in_slot_order(header@, 0, 255, slots.len() as int).len() == slots.len());
            } else {
                lemma_select_by_byte(header@, slots, 256);
            }
        }
        (keys, out)
    }

    /// Node of type `kind` that holds the given children.
    pub fn new_exact(kind: Type, keys: Vec<u8>, edges: Vec<Edge<M, V>>) -> (node: Node<M, V>)
        requires
            keys@.len() == edges@.len(),
            keys@.len() <= kind.slots(),
            keys@.no_duplicates(),
            forall|i: int| 0 <= i < edges@.len() ==> (#[trigger] edges@[i]).wf(),
        ensures
            node.wf(),
            node.header.kind() == kind,
            node.slots() == build(kind, zip(keys@, edges@)),
    {
        let mut header = Header::new(kind);
        if let Type::Node256 = kind {
            let edges = Self::spread(keys, edges);
            return Node { header, edges };
        }
        let mut i: usize = 0;
        while i < keys.len()
            invariant
                kind !is Node256,
                i <= keys@.len() <= kind.slots(),
                keys@.no_duplicates(),
                header.wf(),
                !header.frozen(),
                header.kind() == kind,
                header@ == keys@.take(i as int),
            decreases keys@.len() - i,
        {
            proof {
                assert forall|j: int| 0 <= j < i implies header@[j] != keys@[i as int] by {
                    assert(header@[j] == keys@[j]);
                }
            }
            let _ = header.get_or_insert(keys[i]);
            assert(header@ =~= keys@.take(i as int + 1));
            i += 1;
        }
        assert(header@ =~= keys@);
        Node { header, edges }
    }

    /// Place each edge in the slot of its key byte.
    fn spread(keys: Vec<u8>, edges: Vec<Edge<M, V>>) -> (all: Vec<Edge<M, V>>)
        requires
            keys@.len() == edges@.len(),
            keys@.no_duplicates(),
            forall|i: int| 0 <= i < edges@.len() ==> (#[trigger] edges@[i]).wf(),
        ensures
            all@.len() == 256,
            forall|i: int| 0 <= i < 256 ==> (#[trigger] all@[i]).wf(),
            zip(all_keys(), all@) == build(Type::Node256, zip(keys@, edges@)),
    {
        let ghost entries = zip(keys@, edges@);
        let mut edges = edges;
        let mut all: Vec<Edge<M, V>> = Vec::new();
        while all.len() < 256
            invariant
                all@.len() <= 256,
                forall|i: int| 0 <= i < all@.len() ==> (#[trigger] all@[i]) is Null,
            decreases 256 - all@.len(),
        {
            all.push(Edge::Null);
        }
        let ghost n = edges@.len();
        while edges.len() > 0
            invariant
                keys@.len() == n,
                entries.len() == n,
                keys@.no_duplicates(),
                edges@.len() <= n,
                all@.len() == 256,
                forall|i: int|
                    0 <= i < edges@.len() ==> (#[trigger] edges@[i]).wf() && edges@[i].shape()
                        == entries[i].1,
                forall|i: int| 0 <= i < n ==> (#[trigger] entries[i]).0 == keys@[i],
                forall|b: int| 0 <= b < 256 ==> (#[trigger] all@[b]).wf(),
                forall|i: int|
                    edges@.len() <= i < n ==> all@[(#[trigger] keys@[i]) as int].shape()
                        == entries[i].1,
                forall|b: u8|
                    (forall|i: int| edges@.len() <= i < n ==> keys@[i] != b) ==> (
                    #[trigger] all@[b as int]) is Null,
            decreases edges@.len(),
        {
            let ghost before = edges@;
            let ghost all_before = all@;
            match edges.pop() {
                Some(edge) => {
                    let key: u8 = keys[edges.len()];
                    all[key as usize] = edge;
                    proof {
                        let m = edges@.len() as int;
                        assert(edge == before[m]);
                        assert forall|i: int| m <= i < n implies all@[(
                        #[trigger] keys@[i]) as int].shape() == entries[i].1 by {
                            if i > m {
                                assert(keys@[i] != keys@[m]);
                            }
                        }
                        assert forall|b: u8|
                            (forall|i: int| m <= i < n ==> keys@[i] != b) implies (
                        #[trigger] all@[b as int]) is Null by {
                            assert(keys@[m] != b);
                            assert(all@[b as int] == all_before[b as int]);
                        }
                    }
                },
                None => {},
            }
        }
        proof {
            let slots = zip(all_keys(), all@);
            assert(unique(entries)) by {
                assert forall|i: int, j: int|
                    0 <= i < entries.len() && 0 <= j < entries.len() && #[trigger] entries[i].0
                        == #[trigger] entries[j].0 implies i == j by {
                    assert(keys@[i] == keys@[j]);
                }
            }
            assert forall|i: int| 0 <= i < 256 implies #[trigger] slots[i] == (
                i as u8,
                lookup(entries, i as u8),
            ) by {
                let b = i as u8;
                if holds(entries, b) {
                    lemma_holds(entries, b);
                    assert(keys@[index(entries, b)] == b);
                } else {
                    assert forall|j: int| 0 <= j < n implies keys@[j] != b by {
                        if keys@[j] == b {
                            assert(at(entries, j, b));
                        }
                    }
                    assert(all@[b as int] is Null);
                }
            }
            assert(slots =~= build(Type::Node256, entries));
        }
        all
    }

    /// Node of the type chosen for the given children.
    pub fn new_unchecked(grow: bool, keys: Vec<u8>, edges: Vec<Edge<M, V>>) -> (node: Node<M, V>)
        requires
            keys@.len() == edges@.len(),
            keys@.len() <= 256,
            keys@.no_duplicates(),
            forall|i: int| 0 <= i < edges@.len() ==> (#[trigger] edges@[i]).wf(),
        ensures
            node.wf(),
            node.header.kind() == kind_for(keys@.len(), grow),
            node.slots() == build(node.header.kind(), zip(keys@, edges@)),
    {
        let len: usize = if grow {
            keys.len() + 1
        } else {
            keys.len()
        };
        // Leave room for at least one insert, in the case where a full node
        // header with some null children is replaced and then added to.
        let kind = if len < 3 {
            Type::Node3
        } else if len < 14 {
            Type::Node15
        } else if len < 47 {
            Type::Node47
        } else {
            Type::Node256
        };
        Self::new_exact(kind, keys, edges)
    }
}

/// Pair key bytes with what edges lead to.
pub open spec fn zip<M: Meta, V>(keys: Seq<u8>, edges: Seq<Edge<M, V>>) -> Seq<(u8, Shape<V>)> {
    Seq::new(edges.len(), |i: int| (keys[i], edges[i].shape()))
}

/// The children of the first `n` entries.
spec fn select<V>(entries: Seq<KeyIndex>, slots: Seq<(u8, Shape<V>)>, n: int) -> Seq<
    (u8, Shape<V>),
>
    decreases n,
{
    if n <= 0 {
        Seq::empty()
    } else {
        let child = slots[entries[n - 1].index as int].1;
        if child is Null {
            select(entries, slots, n - 1)
        } else {
            select(entries, slots, n - 1).push((entries[n - 1].key, child))
        }
    }
}

/// Children of a longer list of entries.
proof fn lemma_select_push<V>(
    entries: Seq<KeyIndex>,
    more: Seq<KeyIndex>,
    slots: Seq<(u8, Shape<V>)>,
    n: int,
)
    requires
        n <= entries.len(),
        n <= more.len(),
        forall|i: int| 0 <= i < n ==> entries[i] == more[i],
    ensures
        select(entries, slots, n) == select(more, slots, n),
    decreases n,
{
    if n > 0 {
        lemma_select_push(entries, more, slots, n - 1);
    }
}

/// Entries in slot order give the live slots in slot order.
proof fn lemma_select_by_slot<V>(keys: Seq<u8>, slots: Seq<(u8, Shape<V>)>, n: int)
    requires
        0 <= n <= keys.len() <= 256,
        keys.len() == slots.len(),
        forall|i: int| 0 <= i < slots.len() ==> (#[trigger] slots[i]).0 == keys[i],
    ensures
        in_slot_order(keys, 0, 255, n).len() == n,
        select(in_slot_order(keys, 0, 255, n), slots, n) == live_by_slot(slots, n),
    decreases n,
{
    if n > 0 {
        lemma_select_by_slot(keys, slots, n - 1);
        let before = in_slot_order(keys, 0, 255, n - 1);
        let after = in_slot_order(keys, 0, 255, n);
        lemma_select_push(before, after, slots, n - 1);
        assert(after[n - 1] == KeyIndex { key: keys[n - 1], index: (n - 1) as u8 });
        assert(slots[n - 1].0 == keys[n - 1]);
    }
}

/// Entries in key order give the live slots in byte order.
proof fn lemma_select_by_byte<V>(keys: Seq<u8>, slots: Seq<(u8, Shape<V>)>, n: int)
    requires
        0 <= n <= 256,
        keys.len() <= 256,
        keys.no_duplicates(),
        keys.len() == slots.len(),
        forall|i: int| 0 <= i < slots.len() ==> (#[trigger] slots[i]).0 == keys[i],
    ensures
        select(
            in_key_order(keys, 0, 255, n),
            slots,
            in_key_order(keys, 0, 255, n).len() as int,
        ) == live_by_byte(slots, n),
    decreases n,
{
    if n > 0 {
        lemma_select_by_byte(keys, slots, n - 1);
        let before = in_key_order(keys, 0, 255, n - 1);
        let after = in_key_order(keys, 0, 255, n);
        let b = (n - 1) as u8;
        assert(unique(slots)) by {
            assert forall|i: int, j: int|
                0 <= i < slots.len() && 0 <= j < slots.len() && #[trigger] slots[i].0
                    == #[trigger] slots[j].0 implies i == j by {
                assert(keys[i] == keys[j]);
            }
        }
        if keys.contains(b) {
            let s = slot_of(keys, b);
            assert(keys[s] == b);
            assert(slots[s].0 == b);
            lemma_index(slots, s, b);
            assert(after == before.push(KeyIndex { key: b, index: s as u8 }));
            lemma_select_push(before, after, slots, before.len() as int);
        } else {
            if holds(slots, b) {
                lemma_holds(slots, b);
                assert(keys[index(slots, b)] == b);
            }
            assert(!holds(slots, b));
        }
    }
}

} // verus!
