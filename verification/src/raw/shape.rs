//! Mathematical model of a tree: what an edge leads to, without memory layout.
//!
//! A [`Shape`] records exactly what a topology snapshot can observe of a tree:
//! compressed prefixes, node types and physical slots. The operations on trees
//! are stated over it, both as changes of shape and as changes of the partial
//! map from byte sequences to values that a shape stands for.
use vstd::prelude::*;

pub mod entries;
pub mod laws;

use crate::bytes::{common_len, diverge};
use crate::raw::node::Type;

verus! {

/// What an edge leads to.
#[verifier::ext_equal]
pub enum Shape<V> {
    /// No child.
    Null,
    /// A value, after the bytes of `prefix`.
    Value { prefix: Seq<u8>, value: V },
    /// A node, after the bytes of `prefix`; `slots` lists the radix byte and
    /// the child of each initialized physical slot.
    Node { prefix: Seq<u8>, kind: Type, slots: Seq<(u8, Shape<V>)> },
}

/// Slot `i` holds radix byte `b`.
pub open spec fn at<V>(slots: Seq<(u8, Shape<V>)>, i: int, b: u8) -> bool {
    0 <= i < slots.len() && slots[i].0 == b
}

/// Some slot holds radix byte `b`.
pub open spec fn holds<V>(slots: Seq<(u8, Shape<V>)>, b: u8) -> bool {
    exists|i: int| at(slots, i, b)
}

/// The slot that holds radix byte `b`.
pub open spec fn index<V>(slots: Seq<(u8, Shape<V>)>, b: u8) -> int {
    choose|i: int| at(slots, i, b)
}

/// Child under radix byte `b`, or [`Shape::Null`].
pub open spec fn lookup<V>(slots: Seq<(u8, Shape<V>)>, b: u8) -> Shape<V> {
    if holds(slots, b) {
        slots[index(slots, b)].1
    } else {
        Shape::Null
    }
}

/// No radix byte occurs twice.
pub open spec fn unique<V>(slots: Seq<(u8, Shape<V>)>) -> bool {
    forall|i: int, j: int|
        0 <= i < slots.len() && 0 <= j < slots.len() && #[trigger] slots[i].0
            == #[trigger] slots[j].0 ==> i == j
}

/// Slots that a node of type `kind` can have.
pub open spec fn slots_wf<V>(kind: Type, slots: Seq<(u8, Shape<V>)>) -> bool {
    &&& unique(slots)
    &&& slots.len() <= kind.slots()
    &&& kind is Node256 ==> slots.len() == 256 && forall|i: int|
        0 <= i < 256 ==> #[trigger] slots[i].0 == i
}

/// Slots with a child, in slot order.
pub open spec fn live_by_slot<V>(slots: Seq<(u8, Shape<V>)>, n: int) -> Seq<(u8, Shape<V>)>
    decreases n,
{
    if n <= 0 {
        Seq::empty()
    } else if slots[n - 1].1 is Null {
        live_by_slot(slots, n - 1)
    } else {
        live_by_slot(slots, n - 1).push(slots[n - 1])
    }
}

/// Slots with a child whose radix byte is less than `n`, in byte order.
pub open spec fn live_by_byte<V>(slots: Seq<(u8, Shape<V>)>, n: int) -> Seq<(u8, Shape<V>)>
    decreases n,
{
    if n <= 0 {
        Seq::empty()
    } else if lookup(slots, (n - 1) as u8) is Null {
        live_by_byte(slots, n - 1)
    } else {
        live_by_byte(slots, n - 1).push(((n - 1) as u8, lookup(slots, (n - 1) as u8)))
    }
}

/// Slots with a child, in the order in which a node of type `kind` is walked.
///
/// The smaller nodes are walked by slot, the larger ones by radix byte.
pub open spec fn live<V>(kind: Type, slots: Seq<(u8, Shape<V>)>) -> Seq<(u8, Shape<V>)> {
    match kind {
        Type::Node3 | Type::Node15 => live_by_slot(slots, slots.len() as int),
        Type::Node47 | Type::Node256 => live_by_byte(slots, 256),
    }
}

/// Number of slots with a child.
pub open spec fn occupancy<V>(slots: Seq<(u8, Shape<V>)>) -> nat {
    live_by_slot(slots, slots.len() as int).len()
}

/// Node type chosen for `n` entries; `grow` asks for room beyond them.
pub open spec fn kind_for(n: nat, grow: bool) -> Type {
    let n = if grow {
        n + 1
    } else {
        n
    };
    if n < 3 {
        Type::Node3
    } else if n < 14 {
        Type::Node15
    } else if n < 47 {
        Type::Node47
    } else {
        Type::Node256
    }
}

/// Slots of a fresh node of type `kind` that holds `entries`.
pub open spec fn build<V>(kind: Type, entries: Seq<(u8, Shape<V>)>) -> Seq<(u8, Shape<V>)> {
    if kind is Node256 {
        Seq::new(256, |i: int| (i as u8, lookup(entries, i as u8)))
    } else {
        entries
    }
}

/// Edge that leads to `value` after the bytes of `key`, where one edge holds
/// at most `max` bytes.
pub open spec fn path<V>(key: Seq<u8>, value: V, max: nat) -> Shape<V>
    decreases key.len(),
{
    if key.len() <= max {
        Shape::Value { prefix: key, value }
    } else {
        Shape::Node {
            prefix: key.take(max as int),
            kind: Type::Node3,
            slots: seq![(key[max as int], path(key.skip(max as int + 1), value, max))],
        }
    }
}

impl<V> Shape<V> {
    /// Bytes on the edge itself.
    pub open spec fn prefix(self) -> Seq<u8> {
        match self {
            Shape::Null => Seq::empty(),
            Shape::Value { prefix, .. } => prefix,
            Shape::Node { prefix, .. } => prefix,
        }
    }

    /// The same child behind other bytes.
    pub open spec fn with_prefix(self, prefix: Seq<u8>) -> Shape<V> {
        match self {
            Shape::Null => Shape::Null,
            Shape::Value { prefix: _, value } => Shape::Value { prefix, value },
            Shape::Node { prefix: _, kind, slots } => Shape::Node { prefix, kind, slots },
        }
    }

    /// Structural validity, where one edge holds at most `max` bytes.
    pub open spec fn wf(self, max: nat) -> bool
        decreases self,
    {
        match self {
            Shape::Null => true,
            Shape::Value { prefix, .. } => prefix.len() <= max,
            Shape::Node { prefix, kind, slots } => {
                &&& prefix.len() <= max
                &&& slots_wf(kind, slots)
                &&& forall|i: int| 0 <= i < slots.len() ==> (#[trigger] slots[i]).1.wf(max)
            },
        }
    }

    /// Every node has a child that is not null.
    pub open spec fn compact(self) -> bool
        decreases self,
    {
        match self {
            Shape::Node { slots, .. } => {
                &&& exists|i: int| 0 <= i < slots.len() && (#[trigger] slots[i]).1 !is Null
                &&& forall|i: int| 0 <= i < slots.len() ==> (#[trigger] slots[i]).1.compact()
            },
            _ => true,
        }
    }

    /// Value stored under `key`.
    pub open spec fn get(self, key: Seq<u8>) -> Option<V>
        decreases self,
    {
        match self {
            Shape::Null => None,
            Shape::Value { prefix, value } => if prefix == key {
                Some(value)
            } else {
                None
            },
            Shape::Node { prefix, slots, .. } => if descends(prefix, key) && holds(
                slots,
                key[prefix.len() as int],
            ) {
                slots[index(slots, key[prefix.len() as int])].1.get(rest(prefix, key))
            } else {
                None
            },
        }
    }

    /// `key` neither ends inside the tree nor runs past a value, so that it
    /// can be stored.
    pub open spec fn accepts(self, key: Seq<u8>) -> bool
        decreases self,
    {
        match self {
            Shape::Null => true,
            Shape::Value { prefix, .. } => prefix == key || diverge(prefix, key),
            Shape::Node { prefix, slots, .. } => if descends(prefix, key) {
                holds(slots, key[prefix.len() as int]) ==> slots[index(
                    slots,
                    key[prefix.len() as int],
                )].1.accepts(rest(prefix, key))
            } else {
                diverge(prefix, key)
            },
        }
    }

    /// Split the edge where `key` departs from its bytes.
    ///
    /// The new branch comes first.
    pub open spec fn expand(self, key: Seq<u8>, value: V, max: nat) -> Shape<V> {
        let prefix = self.prefix();
        let n = common_len(prefix, key) as int;
        Shape::Node {
            prefix: prefix.take(n),
            kind: Type::Node3,
            slots: seq![
                (key[n], path(key.skip(n + 1), value, max)),
                (prefix[n], self.with_prefix(prefix.skip(n + 1))),
            ],
        }
    }

    /// Whether a node that is down to one entry can give way to a longer edge.
    pub open spec fn compresses(prefix: Seq<u8>, entries: Seq<(u8, Shape<V>)>, max: nat) -> bool {
        entries.len() == 1 && prefix.len() + 1 + entries[0].1.prefix().len() <= max
    }

    /// Edge to the only entry of a node, through the node's own bytes.
    pub open spec fn compress(prefix: Seq<u8>, entry: (u8, Shape<V>)) -> Shape<V> {
        entry.1.with_prefix(prefix.push(entry.0) + entry.1.prefix())
    }

    /// What takes a node's place when it is rewritten without its null slots.
    pub open spec fn replace(self, max: nat) -> Shape<V> {
        match self {
            Shape::Node { prefix, kind, slots } => {
                let entries = live(kind, slots);
                if entries.len() == 0 {
                    Shape::Null
                } else if Self::compresses(prefix, entries, max) {
                    Self::compress(prefix, entries[0])
                } else {
                    let new = kind_for(entries.len(), entries.len() == kind.slots());
                    Shape::Node { prefix, kind: new, slots: build(new, entries) }
                }
            },
            _ => self,
        }
    }

    /// Node with the path to `value` under the byte of `key` after its prefix.
    pub open spec fn attach(self, key: Seq<u8>, value: V, max: nat) -> Shape<V> {
        match self {
            Shape::Node { prefix, kind, slots } => {
                let b = key[prefix.len() as int];
                let child = path(rest(prefix, key), value, max);
                Shape::Node {
                    prefix,
                    kind,
                    slots: if holds(slots, b) {
                        slots.update(index(slots, b), (b, child))
                    } else {
                        slots.push((b, child))
                    },
                }
            },
            _ => self,
        }
    }

    /// Shape after `key` is associated with `value`.
    pub open spec fn insert(self, key: Seq<u8>, value: V, max: nat) -> Shape<V>
        decreases self,
    {
        match self {
            Shape::Null => path(key, value, max),
            Shape::Value { prefix, .. } => if prefix == key {
                Shape::Value { prefix, value }
            } else {
                self.expand(key, value, max)
            },
            Shape::Node { prefix, kind, slots } => if descends(prefix, key) {
                let b = key[prefix.len() as int];
                if holds(slots, b) {
                    let child = slots[index(slots, b)].1.insert(rest(prefix, key), value, max);
                    Shape::Node { prefix, kind, slots: slots.update(index(slots, b), (b, child)) }
                } else if slots.len() < kind.slots() {
                    self.attach(key, value, max)
                } else {
                    let new = self.replace(max);
                    let entries = live(kind, slots);
                    if entries.len() == 0 {
                        path(key, value, max)
                    } else if Self::compresses(prefix, entries, max) {
                        new.expand(key, value, max)
                    } else {
                        new.attach(key, value, max)
                    }
                }
            } else {
                self.expand(key, value, max)
            },
        }
    }

    /// Shape after `key` is removed, and whether the nodes above are still to
    /// be looked at.
    ///
    /// With `recursive`, each node on the way back up that is left with at
    /// most one child is rewritten, until one with more children is met.
    pub open spec fn remove(self, key: Seq<u8>, recursive: bool, max: nat) -> (Shape<V>, bool)
        decreases self,
    {
        match self {
            Shape::Null => (self, false),
            Shape::Value { prefix, .. } => if prefix == key {
                (Shape::Null, recursive)
            } else {
                (self, false)
            },
            Shape::Node { prefix, kind, slots } => if descends(prefix, key) && holds(
                slots,
                key[prefix.len() as int],
            ) {
                let b = key[prefix.len() as int];
                let (child, up) = slots[index(slots, b)].1.remove(
                    rest(prefix, key),
                    recursive,
                    max,
                );
                let node = Shape::Node {
                    prefix,
                    kind,
                    slots: slots.update(index(slots, b), (b, child)),
                };
                if up && occupancy(node->slots) <= 1 {
                    (node.replace(max), true)
                } else {
                    (node, false)
                }
            } else {
                (self, false)
            },
        }
    }
}

/// `key` goes through a node behind `prefix`.
pub open spec fn descends(prefix: Seq<u8>, key: Seq<u8>) -> bool {
    prefix.len() < key.len() && prefix.is_prefix_of(key)
}

/// Bytes of `key` that are left below a node behind `prefix`.
pub open spec fn rest(prefix: Seq<u8>, key: Seq<u8>) -> Seq<u8> {
    key.skip(prefix.len() as int + 1)
}

} // verus!
