//! Pointer-free import and export of the adaptive radix-tree topology.
//!
//! This module deliberately exposes a typed interchange representation rather
//! than a byte codec. Durable framing, checksums, generations, and write-ahead
//! logging remain the caller's responsibility.
use vstd::prelude::*;
use crate::bytes::{diverge, lemma_common_len, lemma_common_len_is};
use crate::raw::cursor::lemma_node_shape;
use crate::raw::edge::be::{
    be_word_bytes, be_word_valid, lemma_word_injective, prefix_mask, Be, FLAGS, LENGTH,
};
use crate::raw::edge::le::{self, le_prefix_mask, le_word_len, le_word_valid};
use crate::raw::edge::{Edge as RawEdge, Meta};
use crate::raw::key::{Implicit, Key as RawKey};
use crate::raw::node::{zip, Node as RawNode, Type};
use crate::raw::shape::laws::{lemma_descends, lemma_holds, lemma_index, lemma_node_get};
use crate::raw::shape::{at, build, descends, holds, index, lookup, rest, Shape};
use crate::sequential::map::{contents, keyed, Leaf, SequentialMap};

verus! {

/// Version of the typed topology interchange contract.
pub const VERSION: u16 = 1;

/// An exported, pointer-free topology.
#[derive(Debug, PartialEq, Eq)]
pub struct Topology<V> {
    /// Interchange contract version. Must equal [`VERSION`].
    pub version: u16,
    /// Root edge, or `None` for an empty map.
    pub root: Option<Edge<V>>,
}

/// A compressed edge and its child.
#[derive(Debug, PartialEq, Eq)]
pub struct Edge<V> {
    /// Compressed-edge bits with transient flags cleared.
    pub metadata: u64,
    /// Value or adaptive node reached by this edge.
    pub child: Child<V>,
}

/// Child reached by a compressed edge.
#[derive(Debug, PartialEq, Eq)]
pub enum Child<V> {
    /// A caller-encoded value.
    Value(V),
    /// An adaptive radix-tree node.
    Node(Node<V>),
}

/// An adaptive node and its physical branches.
#[derive(Debug, PartialEq, Eq)]
pub struct Node<V> {
    /// Exact adaptive node representation.
    pub kind: NodeKind,
    /// Number of physical slots initialized in the node header.
    ///
    /// This can exceed the number of live branches after removals.
    pub slot_count: u16,
    /// Live branches, including their physical edge slots.
    pub branches: Vec<Branch<V>>,
}

/// A byte branch stored in a physical node edge slot.
#[derive(Debug, PartialEq, Eq)]
pub struct Branch<V> {
    /// Radix byte selecting this branch.
    pub key: u8,
    /// Physical slot in the node's edge array.
    pub slot: u16,
    /// Compressed child edge.
    pub edge: Edge<V>,
}

/// Adaptive node representations.
#[derive(Copy, Clone, Debug, PartialEq, Eq, Hash, Structural)]
pub enum NodeKind {
    /// Up to three branches in one cache line.
    Node3,
    /// Up to fifteen branches.
    Node15,
    /// Up to forty-seven branches.
    Node47,
    /// Directly addressed 256-way node.
    Node256,
}

impl NodeKind {
    /// The node type that this represents.
    pub open spec fn kind(self) -> Type {
        match self {
            NodeKind::Node3 => Type::Node3,
            NodeKind::Node15 => Type::Node15,
            NodeKind::Node47 => Type::Node47,
            NodeKind::Node256 => Type::Node256,
        }
    }

    /// The representation of a node type.
    pub open spec fn of(kind: Type) -> NodeKind {
        match kind {
            Type::Node3 => NodeKind::Node3,
            Type::Node15 => NodeKind::Node15,
            Type::Node47 => NodeKind::Node47,
            Type::Node256 => NodeKind::Node256,
        }
    }

    /// Each representation stands for one node type, and has as many slots.
    pub proof fn law_kind(self)
        ensures
            NodeKind::of(self.kind()) == self,
            self.kind().slots() == (match self {
                NodeKind::Node3 => 3nat,
                NodeKind::Node15 => 15,
                NodeKind::Node47 => 47,
                NodeKind::Node256 => 256,
            }),
    {
    }

    /// Most slots that the node can have.
    fn capacity(self) -> (capacity: usize)
        ensures
            capacity == self.kind().slots(),
    {
        self.into_raw().capacity()
    }

    /// The representation of a node type.
    fn from_raw(kind: Type) -> (node_kind: NodeKind)
        ensures
            node_kind.kind() == kind,
            node_kind == NodeKind::of(kind),
    {
        match kind {
            Type::Node3 => NodeKind::Node3,
            Type::Node15 => NodeKind::Node15,
            Type::Node47 => NodeKind::Node47,
            Type::Node256 => NodeKind::Node256,
        }
    }

    /// The node type that this represents.
    fn into_raw(self) -> (kind: Type)
        ensures
            kind == self.kind(),
    {
        match self {
            NodeKind::Node3 => Type::Node3,
            NodeKind::Node15 => Type::Node15,
            NodeKind::Node47 => Type::Node47,
            NodeKind::Node256 => Type::Node256,
        }
    }
}

/// A malformed or unsupported topology.
#[derive(Copy, Clone, Debug, PartialEq, Eq, Structural)]
#[allow(inconsistent_fields)]
pub enum Error {
    /// The interchange version is not supported by this crate.
    UnsupportedVersion {
        /// Version found in the topology.
        found: u16,
    },
    /// Compressed-edge metadata contains invalid or transient bits.
    InvalidMetadata {
        /// Rejected metadata word.
        metadata: u64,
    },
    /// A value does not terminate at the unsigned key's exact byte length.
    InvalidKeyLength {
        /// Number of key bytes represented by the path.
        found: usize,
        /// Required number of key bytes.
        expected: usize,
    },
    /// A node has no live branches.
    EmptyNode,
    /// A node contains more branches than its recorded representation permits.
    NodeCapacity {
        /// Recorded node representation.
        kind: NodeKind,
        /// Number of branches found.
        found: usize,
    },
    /// Two branches in one node use the same radix byte.
    DuplicateKey {
        /// Duplicated radix byte.
        key: u8,
    },
    /// A physical edge slot is invalid or duplicated.
    InvalidSlot {
        /// Recorded node representation.
        kind: NodeKind,
        /// Invalid physical slot.
        slot: u16,
    },
}

/// Unsigned key types supported by pointer-free topology snapshots.
pub trait Key: RawKey<Edge = Be, Origin = Implicit> {
    /// Number of bytes in a key.
    spec fn size() -> nat;

    /// Keys are the byte sequences of one length.
    proof fn lemma_fixed(bytes: Seq<u8>)
        ensures
            Self::is_key(bytes) <==> bytes.len() == Self::size(),
            0 < Self::size() <= 16,
    ;

    /// Nothing beside its bytes gives a key back.
    proof fn lemma_implicit(origin: Implicit, bytes: Seq<u8>)
        ensures
            Self::origin_of(origin, bytes),
    ;

    /// Number of bytes in a key.
    fn key_bytes() -> (len: usize)
        ensures
            len == Self::size(),
            0 < len <= 16,
    ;
}

impl Key for u16 {
    open spec fn size() -> nat {
        2
    }

    proof fn lemma_fixed(bytes: Seq<u8>) {
    }

    proof fn lemma_implicit(origin: Implicit, bytes: Seq<u8>) {
    }

    fn key_bytes() -> (len: usize) {
        2
    }
}

impl Key for u32 {
    open spec fn size() -> nat {
        4
    }

    proof fn lemma_fixed(bytes: Seq<u8>) {
    }

    proof fn lemma_implicit(origin: Implicit, bytes: Seq<u8>) {
    }

    fn key_bytes() -> (len: usize) {
        4
    }
}

impl Key for u64 {
    open spec fn size() -> nat {
        8
    }

    proof fn lemma_fixed(bytes: Seq<u8>) {
    }

    proof fn lemma_implicit(origin: Implicit, bytes: Seq<u8>) {
    }

    fn key_bytes() -> (len: usize) {
        8
    }
}

impl Key for u128 {
    open spec fn size() -> nat {
        16
    }

    proof fn lemma_fixed(bytes: Seq<u8>) {
    }

    proof fn lemma_implicit(origin: Implicit, bytes: Seq<u8>) {
    }

    fn key_bytes() -> (len: usize) {
        16
    }
}

impl<V> Node<V> {
    /// The recorded representation has room for the slots and the branches.
    pub open spec fn fits(self) -> bool {
        &&& self.branches@.len() <= self.slot_count <= self.kind.kind().slots()
        &&& self.kind is Node256 ==> self.slot_count == 256
    }

    /// Branch `i` has a byte that an earlier branch has.
    pub open spec fn repeats_key(self, i: int) -> bool {
        exists|j: int| 0 <= j < i && #[trigger] self.branches@[j].key == self.branches@[i].key
    }

    /// Branch `i` has a slot that it must not have.
    pub open spec fn misplaced(self, i: int) -> bool {
        ||| self.branches@[i].slot >= self.slot_count
        ||| exists|j: int| 0 <= j < i && #[trigger] self.branches@[j].slot == self.branches@[i].slot
        ||| self.kind is Node256 && self.branches@[i].slot != self.branches@[i].key
    }
}

/// First fault among the first `n` branches of a node whose own byte follows
/// `depth` key bytes.
pub open spec fn branches_error<V>(node: Node<V>, n: int, depth: nat, size: nat) -> Option<Error>
    decreases node, n,
{
    if n <= 0 || n > node.branches@.len() {
        None
    } else {
        let branch = node.branches@[n - 1];
        match branches_error(node, n - 1, depth, size) {
            Some(error) => Some(error),
            None => if node.repeats_key(n - 1) {
                Some(Error::DuplicateKey { key: branch.key })
            } else if node.misplaced(n - 1) {
                Some(Error::InvalidSlot { kind: node.kind, slot: branch.slot })
            } else {
                edge_error(branch.edge, depth + 1, size)
            },
        }
    }
}

/// First fault of an edge after `depth` key bytes, where keys have `size`
/// bytes.
pub open spec fn edge_error<V>(edge: Edge<V>, depth: nat, size: nat) -> Option<Error>
    decreases edge, 0int,
{
    let path = depth + be_word_bytes(edge.metadata).len();
    if !be_word_valid(edge.metadata) {
        Some(Error::InvalidMetadata { metadata: edge.metadata })
    } else {
        match edge.child {
            Child::Value(_) => if path == size {
                None
            } else {
                Some(Error::InvalidKeyLength { found: path as usize, expected: size as usize })
            },
            Child::Node(node) => if path >= size {
                Some(
                    Error::InvalidKeyLength { found: (path + 1) as usize, expected: size as usize },
                )
            } else if node.branches@.len() == 0 {
                Some(Error::EmptyNode)
            } else if !node.fits() {
                Some(
                    Error::NodeCapacity {
                        kind: node.kind,
                        found: if node.slot_count > node.branches@.len() {
                            node.slot_count as usize
                        } else {
                            node.branches@.len() as usize
                        },
                    },
                )
            } else {
                branches_error(node, node.branches@.len() as int, path, size)
            },
        }
    }
}

/// First fault of a topology for keys of `size` bytes.
pub open spec fn topology_error<V>(topology: Topology<V>, size: nat) -> Option<Error> {
    if topology.version != VERSION {
        Some(Error::UnsupportedVersion { found: topology.version })
    } else {
        match topology.root {
            Some(root) => edge_error(root, 0, size),
            None => None,
        }
    }
}

/// Number of key bytes in a metadata word, unless it is malformed.
fn validate_be_metadata(metadata: u64) -> (checked: Result<usize, Error>)
    ensures
        checked == (if be_word_valid(metadata) {
            Ok::<usize, Error>(be_word_bytes(metadata).len() as usize)
        } else {
            Err(Error::InvalidMetadata { metadata })
        }),
        be_word_bytes(metadata).len() <= 7,
{
    let bits: u64 = metadata & LENGTH;
    assert(metadata & 0b11_1000 <= 56 && (metadata & 0b11_1000) % 8 == 0) by (bit_vector);
    let mask: u64 = if bits == 0 {
        0
    } else {
        0xffff_ffff_ffff_ffffu64 << (64 - bits)
    };
    assert(mask == prefix_mask(bits as int / 8));
    if metadata & FLAGS != 0 || metadata & !(mask | LENGTH) != 0 {
        return Err(Error::InvalidMetadata { metadata });
    }
    Ok((bits / 8) as usize)
}

/// Number of key bytes in a metadata word whose bytes stand at the least
/// significant end, unless it is malformed.
///
/// Edges of keys that are laid out this way are not part of a [`Topology`].
pub fn validate_le_metadata(metadata: u64) -> (checked: Result<usize, Error>)
    ensures
        checked == (if le_word_valid(metadata) {
            Ok::<usize, Error>(le_word_len(metadata) as usize)
        } else {
            Err(Error::InvalidMetadata { metadata })
        }),
        0 <= le_word_len(metadata) <= 7,
{
    let bits: u64 = (metadata & le::LENGTH) >> 56u64;
    assert((metadata & 0x3800_0000_0000_0000) >> 56u64 <= 56 && ((metadata & 0x3800_0000_0000_0000)
        >> 56u64) % 8 == 0) by (bit_vector);
    let mask: u64 = if bits == 0 {
        0
    } else {
        0xffff_ffff_ffff_ffffu64 >> (64 - bits)
    };
    assert(mask == le_prefix_mask(bits as int / 8));
    if metadata & le::FLAGS != 0 || metadata & !(mask | le::LENGTH) != 0 {
        return Err(Error::InvalidMetadata { metadata });
    }
    Ok((bits / 8) as usize)
}

fn validate_edge<V>(edge: &Edge<V>, path_bytes: usize, size: usize) -> (checked: Result<(), Error>)
    requires
        path_bytes <= size <= 16,
    ensures
        checked == (match edge_error(*edge, path_bytes as nat, size as nat) {
            Some(error) => Err::<(), Error>(error),
            None => Ok(()),
        }),
    decreases edge,
{
    let prefix_bytes: usize = match validate_be_metadata(edge.metadata) {
        Ok(len) => len,
        Err(error) => {
            return Err(error);
        },
    };
    let path_bytes: usize = path_bytes + prefix_bytes;
    match &edge.child {
        Child::Value(_) => if path_bytes == size {
            Ok(())
        } else {
            Err(Error::InvalidKeyLength { found: path_bytes, expected: size })
        },
        Child::Node(node) => {
            if path_bytes >= size {
                return Err(Error::InvalidKeyLength { found: path_bytes + 1, expected: size });
            }
            let len: usize = node.branches.len();
            if len == 0 {
                return Err(Error::EmptyNode);
            }
            let slot_count: usize = node.slot_count as usize;
            let capacity: usize = node.kind.capacity();
            if len > capacity || slot_count > capacity || slot_count < len || (node.kind
                == NodeKind::Node256 && slot_count != 256) {
                return Err(
                    Error::NodeCapacity {
                        kind: node.kind,
                        found: if slot_count > len {
                            slot_count
                        } else {
                            len
                        },
                    },
                );
            }
            validate_branches(node, path_bytes, size)
        },
    }
}

/// The first fault stays the first one when more branches are looked at.
proof fn lemma_first_error<V>(node: Node<V>, n: int, m: int, depth: nat, size: nat)
    requires
        0 <= n <= m <= node.branches@.len(),
        branches_error(node, n, depth, size) is Some,
    ensures
        branches_error(node, m, depth, size) == branches_error(node, n, depth, size),
    decreases m - n,
{
    if n < m {
        lemma_first_error(node, n, m - 1, depth, size);
    }
}

fn validate_branches<V>(node: &Node<V>, path_bytes: usize, size: usize) -> (checked: Result<
    (),
    Error,
>)
    requires
        path_bytes < size <= 16,
        node.slot_count <= 256,
    ensures
        checked == (match branches_error(
            *node,
            node.branches@.len() as int,
            path_bytes as nat,
            size as nat,
        ) {
            Some(error) => Err::<(), Error>(error),
            None => Ok(()),
        }),
    decreases node,
{
    let len: usize = node.branches.len();
    let ghost depth = path_bytes as nat;
    let mut keys: [bool; 256] = [false; 256];
    let mut slots: [bool; 256] = [false; 256];
    let mut i: usize = 0;
    while i < len
        invariant
            i <= len,
            len == node.branches@.len(),
            node.slot_count <= 256,
            path_bytes < size <= 16,
            depth == path_bytes,
            branches_error(*node, i as int, depth, size as nat) is None,
            forall|b: int|
                0 <= b < 256 ==> (#[trigger] keys@[b] <==> exists|j: int|
                    0 <= j < i && #[trigger] node.branches@[j].key == b),
            forall|b: int|
                0 <= b < 256 ==> (#[trigger] slots@[b] <==> exists|j: int|
                    0 <= j < i && #[trigger] node.branches@[j].slot == b),
        decreases len - i,
    {
        let branch = &node.branches[i];
        let key: usize = branch.key as usize;
        let slot: usize = branch.slot as usize;
        let ghost keys_before = keys@;
        let ghost slots_before = slots@;
        if keys[key] {
            proof {
                lemma_first_error(*node, i as int + 1, len as int, depth, size as nat);
            }
            return Err(Error::DuplicateKey { key: branch.key });
        }
        if slot >= node.slot_count as usize || slots[slot] || (node.kind == NodeKind::Node256 && slot
            != key) {
            proof {
                assert(slot < 256 ==> (slots_before[slot as int] <==> exists|j: int|
                    0 <= j < i && #[trigger] node.branches@[j].slot == slot));
                assert(!node.repeats_key(i as int));
                assert(node.misplaced(i as int));
                lemma_first_error(*node, i as int + 1, len as int, depth, size as nat);
            }
            return Err(Error::InvalidSlot { kind: node.kind, slot: branch.slot });
        }
        assert(!node.repeats_key(i as int)) by {
            assert(!keys_before[key as int]);
        }
        assert(!node.misplaced(i as int)) by {
            assert(!slots_before[slot as int]);
        }
        match validate_edge(&branch.edge, path_bytes + 1, size) {
            Ok(()) => {},
            Err(error) => {
                proof {
                    lemma_first_error(*node, i as int + 1, len as int, depth, size as nat);
                }
                return Err(error);
            },
        }
        keys[key] = true;
        slots[slot] = true;
        proof {
            assert forall|b: int| 0 <= b < 256 implies (#[trigger] keys@[b] <==> exists|j: int|
                0 <= j < i + 1 && #[trigger] node.branches@[j].key == b) by {
                assert(keys_before[b] <==> exists|j: int|
                    0 <= j < i && #[trigger] node.branches@[j].key == b);
                if b == key {
                    assert(node.branches@[i as int].key == b);
                }
            }
            assert forall|b: int| 0 <= b < 256 implies (#[trigger] slots@[b] <==> exists|j: int|
                0 <= j < i + 1 && #[trigger] node.branches@[j].slot == b) by {
                assert(slots_before[b] <==> exists|j: int|
                    0 <= j < i && #[trigger] node.branches@[j].slot == b);
                if b == slot {
                    assert(node.branches@[i as int].slot == b);
                }
            }
        }
        i += 1;
    }
    Ok(())
}

impl<V> Topology<V> {
    /// Validate all structural, slot, metadata, and key-length invariants.
    pub fn validate<K: Key>(&self) -> (checked: Result<(), Error>)
        ensures
            checked == (match topology_error(*self, K::size()) {
                Some(error) => Err::<(), Error>(error),
                None => Ok(()),
            }),
    {
        if self.version != VERSION {
            return Err(Error::UnsupportedVersion { found: self.version });
        }
        match &self.root {
            Some(root) => validate_edge(root, 0, K::key_bytes()),
            None => Ok(()),
        }
    }
}

/// `edge` is a picture of `shape`, where `rel` relates values and their
/// pictures.
///
/// The byte of a slot without a child is not pictured.
pub open spec fn depicts<V, T>(edge: Edge<T>, shape: Shape<V>, rel: spec_fn(V, T) -> bool) -> bool
    decreases edge,
{
    &&& be_word_valid(edge.metadata)
    &&& shape.prefix() == be_word_bytes(edge.metadata)
    &&& match edge.child {
        Child::Value(picture) => shape is Value && rel(shape->value, picture),
        Child::Node(node) => {
            &&& shape is Node
            &&& shape->kind == node.kind.kind()
            &&& shape->slots.len() == node.slot_count
            &&& forall|j: int|
                0 <= j < node.branches@.len() ==> {
                    let branch = #[trigger] node.branches@[j];
                    &&& branch.slot < node.slot_count
                    &&& shape->slots[branch.slot as int].0 == branch.key
                    &&& depicts(branch.edge, shape->slots[branch.slot as int].1, rel)
                }
            &&& forall|i: int|
                0 <= i < shape->slots.len() && (#[trigger] shape->slots[i]).1 !is Null
                    ==> exists|j: int|
                    0 <= j < node.branches@.len() && #[trigger] node.branches@[j].slot == i
        },
    }
}

/// The branches of each node are listed in ascending slot order.
pub open spec fn slot_sorted<T>(edge: Edge<T>) -> bool
    decreases edge,
{
    match edge.child {
        Child::Value(_) => true,
        Child::Node(node) => {
            &&& forall|i: int, j: int|
                0 <= i < j < node.branches@.len() ==> (#[trigger] node.branches@[i]).slot < (
                #[trigger] node.branches@[j]).slot
            &&& forall|j: int|
                0 <= j < node.branches@.len() ==> slot_sorted((#[trigger] node.branches@[j]).edge)
        },
    }
}

/// All paths to values have `left` bytes, and all paths to nodes fewer.
pub open spec fn fixed<V>(shape: Shape<V>, left: int) -> bool
    decreases shape,
{
    match shape {
        Shape::Null => true,
        Shape::Value { prefix, .. } => prefix.len() == left,
        Shape::Node { prefix, slots, .. } => {
            &&& prefix.len() < left
            &&& forall|i: int|
                0 <= i < slots.len() ==> fixed((#[trigger] slots[i]).1, left - prefix.len() - 1)
        },
    }
}

/// A tree that holds keys of one length, and accepts all of them, is fixed.
proof fn lemma_fixed_of_keys<V>(shape: Shape<V>, left: nat, max: nat)
    requires
        shape.wf(max),
        forall|k: Seq<u8>| k.len() == left ==> #[trigger] shape.accepts(k),
        forall|k: Seq<u8>| (#[trigger] shape.get(k)) is Some ==> k.len() == left,
    ensures
        fixed(shape, left as int),
    decreases shape,
{
    match shape {
        Shape::Null => {},
        Shape::Value { prefix, value } => {
            assert(shape.get(prefix) == Some(value));
        },
        Shape::Node { prefix, kind, slots } => {
            if prefix.len() >= left {
                let k = prefix.take(left as int);
                assert(shape.accepts(k));
                lemma_common_len_is(prefix, k, left);
            }
            let below = (left - prefix.len() - 1) as nat;
            assert forall|i: int| 0 <= i < slots.len() implies fixed(
                (#[trigger] slots[i]).1,
                below as int,
            ) by {
                let b = slots[i].0;
                let child = slots[i].1;
                assert forall|k: Seq<u8>|
                    #![trigger child.accepts(k)]
                    #![trigger child.get(k)]
                    child.accepts(k) == shape.accepts(prefix.push(b) + k) && child.get(k)
                        == shape.get(prefix.push(b) + k) by {
                    let whole = prefix.push(b) + k;
                    lemma_descends(prefix, whole);
                    assert(rest(prefix, whole) =~= k);
                    lemma_index(slots, i, b);
                    lemma_node_get(prefix, kind, slots, whole);
                }
                lemma_fixed_of_keys(child, below, max);
            }
        },
    }
}

/// A fixed tree holds keys of one length only, and accepts all of them.
proof fn lemma_keys_of_fixed<V>(shape: Shape<V>, left: int, k: Seq<u8>)
    requires
        fixed(shape, left),
        left >= 0,
    ensures
        k.len() == left ==> shape.accepts(k),
        shape.get(k) is Some ==> k.len() == left,
    decreases shape,
{
    match shape {
        Shape::Null => {},
        Shape::Value { prefix, .. } => {
            if k.len() == left && prefix != k {
                lemma_common_len(prefix, k);
                if crate::bytes::common_len(prefix, k) == left {
                    assert(prefix =~= k);
                }
            }
        },
        Shape::Node { prefix, slots, .. } => {
            lemma_descends(prefix, k);
            if descends(prefix, k) {
                let b = k[prefix.len() as int];
                if holds(slots, b) {
                    lemma_holds(slots, b);
                    lemma_keys_of_fixed(
                        slots[index(slots, b)].1,
                        left - prefix.len() - 1,
                        rest(prefix, k),
                    );
                }
            } else if k.len() == left {
                lemma_common_len(prefix, k);
                if !diverge(prefix, k) {
                    assert(crate::bytes::common_len(prefix, k) == prefix.len());
                }
            }
        },
    }
}

/// A map with keys of one length.
proof fn lemma_fixed_keyed<K: Key, V>(shape: Shape<Leaf<Implicit, V>>, max: nat)
    requires
        shape.wf(max),
    ensures
        keyed::<K, V>(shape) <==> fixed(shape, K::size() as int),
{
    assert forall|k: Seq<u8>| #[trigger] K::is_key(k) <==> k.len() == K::size() by {
        K::lemma_fixed(k);
    }
    if keyed::<K, V>(shape) {
        assert forall|k: Seq<u8>| k.len() == K::size() implies #[trigger] shape.accepts(k) by {
            assert(K::is_key(k));
        }
        lemma_fixed_of_keys(shape, K::size(), max);
    }
    if fixed(shape, K::size() as int) {
        assert forall|k: Seq<u8>| #[trigger] K::is_key(k) implies shape.accepts(k) by {
            lemma_keys_of_fixed(shape, K::size() as int, k);
        }
        assert forall|k: Seq<u8>| (#[trigger] shape.get(k)) is Some implies K::is_key(k)
            && K::origin_of(shape.get(k)->0.origin, k) by {
            lemma_keys_of_fixed(shape, K::size() as int, k);
            K::lemma_implicit(shape.get(k)->0.origin, k);
        }
    }
}

/// Strictly ascending slots are no more than there are.
proof fn lemma_slots_len<T>(branches: Seq<Branch<T>>, n: int, count: int)
    requires
        0 <= n <= branches.len(),
        forall|i: int, j: int|
            0 <= i < j < branches.len() ==> (#[trigger] branches[i]).slot < (
            #[trigger] branches[j]).slot,
        forall|j: int| 0 <= j < branches.len() ==> (#[trigger] branches[j]).slot < count,
        count >= 0,
    ensures
        n > 0 ==> branches[n - 1].slot >= n - 1,
        branches.len() <= count || n < branches.len(),
    decreases n,
{
    if n > 1 {
        lemma_slots_len(branches, n - 1, count);
        assert(branches[n - 2].slot < branches[n - 1].slot);
    }
    if n > 0 {
        assert(branches[n - 1].slot < count);
    }
}

/// A picture of a tree with keys of one length has no fault but empty nodes.
pub proof fn lemma_depicted_error<V, T>(
    edge: Edge<T>,
    shape: Shape<V>,
    rel: spec_fn(V, T) -> bool,
    depth: nat,
    size: nat,
    max: nat,
)
    requires
        depicts(edge, shape, rel),
        slot_sorted(edge),
        shape.wf(max),
        depth <= size,
        fixed(shape, size - depth),
    ensures
        edge_error(edge, depth, size) == (if shape.compact() {
            None::<Error>
        } else {
            Some(Error::EmptyNode)
        }),
    decreases edge, 0int,
{
    match edge.child {
        Child::Value(_) => {},
        Child::Node(node) => {
            let path = depth + be_word_bytes(edge.metadata).len();
            let n = node.branches@.len() as int;
            let slots = shape->slots;
            lemma_slots_len(node.branches@, n, node.slot_count as int);
            lemma_depicted_branches(node, shape, rel, n, path, size, max);
            if n == 0 {
                assert(forall|i: int| 0 <= i < slots.len() ==> (#[trigger] slots[i]).1 is Null);
            } else {
                let branch = node.branches@[0];
                assert(depicts(branch.edge, slots[branch.slot as int].1, rel));
                assert(slots[branch.slot as int].1 !is Null);
                if shape.compact() {
                    assert forall|j: int| 0 <= j < n implies slots[(
                    #[trigger] node.branches@[j]).slot as int].1.compact() by {}
                } else {
                    if forall|j: int|
                        0 <= j < n ==> slots[(
                        #[trigger] node.branches@[j]).slot as int].1.compact() {
                        assert forall|i: int| 0 <= i < slots.len() implies (
                        #[trigger] slots[i]).1.compact() by {
                            if slots[i].1 !is Null {
                                let j = choose|j: int|
                                    0 <= j < n && #[trigger] node.branches@[j].slot == i;
                                assert(slots[node.branches@[j].slot as int].1.compact());
                            }
                        }
                    }
                }
            }
        },
    }
}

proof fn lemma_depicted_branches<V, T>(
    node: Node<T>,
    shape: Shape<V>,
    rel: spec_fn(V, T) -> bool,
    n: int,
    path: nat,
    size: nat,
    max: nat,
)
    requires
        shape is Node,
        shape.wf(max),
        shape->kind == node.kind.kind(),
        shape->slots.len() == node.slot_count,
        path < size,
        0 <= n <= node.branches@.len(),
        forall|i: int|
            0 <= i < shape->slots.len() ==> fixed((#[trigger] shape->slots[i]).1, size - path - 1),
        forall|j: int|
            0 <= j < node.branches@.len() ==> {
                let branch = #[trigger] node.branches@[j];
                &&& branch.slot < node.slot_count
                &&& shape->slots[branch.slot as int].0 == branch.key
                &&& depicts(branch.edge, shape->slots[branch.slot as int].1, rel)
            },
        forall|i: int, j: int|
            0 <= i < j < node.branches@.len() ==> (#[trigger] node.branches@[i]).slot < (
            #[trigger] node.branches@[j]).slot,
        forall|j: int|
            0 <= j < node.branches@.len() ==> slot_sorted((#[trigger] node.branches@[j]).edge),
    ensures
        branches_error(node, n, path, size) == (if forall|j: int|
            0 <= j < n ==> shape->slots[(#[trigger] node.branches@[j]).slot as int].1.compact() {
            None::<Error>
        } else {
            Some(Error::EmptyNode)
        }),
    decreases node, n,
{
    if n > 0 {
        lemma_depicted_branches(node, shape, rel, n - 1, path, size, max);
        let slots = shape->slots;
        let branch = node.branches@[n - 1];
        let child = slots[branch.slot as int].1;
        assert(depicts(branch.edge, child, rel));
        assert(!node.repeats_key(n - 1)) by {
            if node.repeats_key(n - 1) {
                let j = choose|j: int|
                    0 <= j < n - 1 && #[trigger] node.branches@[j].key == branch.key;
                assert(node.branches@[j].slot < branch.slot);
                assert(slots[node.branches@[j].slot as int].0 == slots[branch.slot as int].0);
            }
        }
        assert(!node.misplaced(n - 1)) by {
            if exists|j: int| 0 <= j < n - 1 && #[trigger] node.branches@[j].slot == branch.slot {
                let j = choose|j: int|
                    0 <= j < n - 1 && #[trigger] node.branches@[j].slot == branch.slot;
                assert(node.branches@[j].slot < branch.slot);
            }
        }
        lemma_depicted_error(branch.edge, child, rel, path + 1, size, max);
    }
}

fn export_edge<V, T, F: Fn(&V) -> T>(
    edge: &RawEdge<Be, Leaf<Implicit, V>>,
    encode: &F,
) -> (exported: Option<Edge<T>>)
    requires
        edge.wf(),
        forall|value: &V| #[trigger] encode.requires((value,)),
    ensures
        match exported {
            None => edge.shape() is Null,
            Some(exported) => edge.shape() !is Null && slot_sorted(exported) && depicts(
                exported,
                edge.shape(),
                |leaf: Leaf<Implicit, V>, picture: T| encode.ensures((&leaf.value,), picture),
            ),
        },
    decreases edge,
{
    broadcast use lemma_node_shape;

    let ghost rel = |leaf: Leaf<Implicit, V>, picture: T| encode.ensures((&leaf.value,), picture);
    match edge {
        RawEdge::Null => None,
        RawEdge::Value { meta, value } => {
            let metadata: u64 = meta.into_raw();
            proof {
                meta.lemma_bytes();
            }
            Some(Edge { metadata, child: Child::Value(encode(&value.value)) })
        },
        RawEdge::Node { meta, node } => {
            let metadata: u64 = meta.into_raw();
            let kind = NodeKind::from_raw(node.header.node_type());
            let slot_count: usize = node.header.len();
            let mut branches: Vec<Branch<T>> = Vec::new();
            let mut slot: usize = 0;
            let ghost slots = node.slots();
            proof {
                meta.lemma_bytes();
                node.header.lemma_wf();
            }
            while slot < slot_count
                invariant
                    slot <= slot_count <= 256,
                    node.wf(),
                    slots == node.slots(),
                    slot_count == node.edges@.len() == slots.len(),
                    node.header@.len() == slot_count,
                    decreases_to!(edge => node),
                    forall|value: &V| #[trigger] encode.requires((value,)),
                    rel == (|leaf: Leaf<Implicit, V>, picture: T|
                        encode.ensures((&leaf.value,), picture)),
                    forall|j: int|
                        0 <= j < branches@.len() ==> {
                            let branch = #[trigger] branches@[j];
                            &&& branch.slot < slot
                            &&& slots[branch.slot as int].0 == branch.key
                            &&& depicts(branch.edge, slots[branch.slot as int].1, rel)
                            &&& slot_sorted(branch.edge)
                        },
                    forall|i: int, j: int|
                        0 <= i < j < branches@.len() ==> (#[trigger] branches@[i]).slot < (
                        #[trigger] branches@[j]).slot,
                    forall|i: int|
                        0 <= i < slot && (#[trigger] slots[i]).1 !is Null ==> exists|j: int|
                            0 <= j < branches@.len() && #[trigger] branches@[j].slot == i,
                decreases slot_count - slot,
            {
                let ghost before = branches@;
                if let Some(child) = export_edge(&node.edges[slot], encode) {
                    let key: u8 = node.slot_key(slot);
                    branches.push(Branch { key, slot: slot as u16, edge: child });
                    assert(branches@[before.len() as int].slot == slot);
                    assert forall|i: int|
                        0 <= i < slot + 1 && (#[trigger] slots[i]).1 !is Null implies exists|
                        j: int,
                    | 0 <= j < branches@.len() && #[trigger] branches@[j].slot == i by {
                        if i < slot {
                            let j = choose|j: int|
                                0 <= j < before.len() && #[trigger] before[j].slot == i;
                            assert(branches@[j].slot == i);
                        }
                    }
                }
                slot += 1;
            }
            Some(
                Edge {
                    metadata,
                    child: Child::Node(
                        Node { kind, slot_count: slot_count as u16, branches },
                    ),
                },
            )
        },
    }
}

/// Bytes used by branches.
spec fn used_keys<T>(branches: Seq<Branch<T>>) -> Seq<int> {
    Seq::new(branches.len(), |j: int| branches[j].key as int)
}

/// Distinct bytes that no branch uses, one per slot.
fn filler_keys<T>(branches: &Vec<Branch<T>>, count: usize) -> (fillers: Vec<u8>)
    requires
        branches@.len() <= count <= 47,
    ensures
        fillers@.len() == count,
        fillers@.no_duplicates(),
        forall|i: int, j: int|
            0 <= i < fillers@.len() && 0 <= j < branches@.len() ==> #[trigger] fillers@[i]
                != (#[trigger] branches@[j]).key,
{
    let mut used: [bool; 256] = [false; 256];
    let len: usize = branches.len();
    let mut i: usize = 0;
    while i < len
        invariant
            i <= len,
            len == branches@.len(),
            forall|b: int|
                0 <= b < 256 ==> (#[trigger] used@[b] <==> exists|j: int|
                    0 <= j < i && #[trigger] branches@[j].key == b),
        decreases len - i,
    {
        let ghost before = used@;
        used[branches[i].key as usize] = true;
        proof {
            assert forall|b: int| 0 <= b < 256 implies (#[trigger] used@[b] <==> exists|j: int|
                0 <= j < i + 1 && #[trigger] branches@[j].key == b) by {
                assert(before[b] <==> exists|j: int|
                    0 <= j < i && #[trigger] branches@[j].key == b);
                if b == branches@[i as int].key {
                    assert(branches@[i as int].key == b);
                }
            }
        }
        i += 1;
    }
    let mut fillers: Vec<u8> = Vec::new();
    let mut next: usize = 0;
    let ghost mut skipped = Set::<int>::empty();
    let ghost all = used_keys(branches@).to_set();
    proof {
        used_keys(branches@).lemma_cardinality_of_set();
        vstd::seq_lib::seq_to_set_is_finite(used_keys(branches@));
    }
    while fillers.len() < count
        invariant
            fillers@.len() <= count <= 47,
            branches@.len() <= count,
            len == branches@.len(),
            all == used_keys(branches@).to_set(),
            all.finite(),
            all.len() <= len,
            skipped.finite(),
            skipped.subset_of(all),
            next == fillers@.len() + skipped.len(),
            next <= 256,
            forall|b: int| #[trigger] skipped.contains(b) ==> b < next,
            forall|b: int|
                0 <= b < 256 ==> (#[trigger] used@[b] <==> exists|j: int|
                    0 <= j < len && #[trigger] branches@[j].key == b),
            forall|x: int| 0 <= x < fillers@.len() ==> (#[trigger] fillers@[x]) < next,
            fillers@.no_duplicates(),
            forall|x: int, j: int|
                0 <= x < fillers@.len() && 0 <= j < branches@.len() ==> #[trigger] fillers@[x]
                    != (#[trigger] branches@[j]).key,
        decreases 256 - next,
    {
        proof {
            vstd::set_lib::lemma_len_subset(skipped, all);
        }
        if used[next] {
            proof {
                let j = choose|j: int| 0 <= j < len && #[trigger] branches@[j].key == next;
                assert(used_keys(branches@)[j] == next);
                skipped = skipped.insert(next as int);
            }
        } else {
            fillers.push(next as u8);
        }
        next += 1;
    }
    fillers
}

/// Slots of a fresh linear node in which some fillers gave way to branches.
proof fn lemma_placed_keys<T>(
    keys: Seq<u8>,
    fillers: Seq<u8>,
    branches: Seq<Branch<T>>,
)
    requires
        keys.len() == fillers.len(),
        fillers.no_duplicates(),
        forall|i: int, j: int|
            0 <= i < fillers.len() && 0 <= j < branches.len() ==> #[trigger] fillers[i]
                != (#[trigger] branches[j]).key,
        forall|i: int, j: int|
            0 <= i < j < branches.len() ==> (#[trigger] branches[i]).key != (
            #[trigger] branches[j]).key,
        forall|j: int|
            0 <= j < branches.len() ==> (#[trigger] branches[j]).slot < keys.len()
                && keys[branches[j].slot as int] == branches[j].key,
        forall|i: int|
            0 <= i < keys.len() && (forall|j: int|
                0 <= j < branches.len() ==> (#[trigger] branches[j]).slot != i)
                ==> #[trigger] keys[i] == fillers[i],
    ensures
        keys.no_duplicates(),
{
    assert forall|x: int, y: int| 0 <= x < keys.len() && 0 <= y < keys.len() && x != y implies
        keys[x] != keys[y] by {
        let placed_x = exists|j: int| 0 <= j < branches.len() && (#[trigger] branches[j]).slot == x;
        let placed_y = exists|j: int| 0 <= j < branches.len() && (#[trigger] branches[j]).slot == y;
        if placed_x && placed_y {
            let i = choose|j: int| 0 <= j < branches.len() && (#[trigger] branches[j]).slot == x;
            let j = choose|j: int| 0 <= j < branches.len() && (#[trigger] branches[j]).slot == y;
            assert(i != j);
            if i < j {
                assert(branches[i].key != branches[j].key);
            } else {
                assert(branches[j].key != branches[i].key);
            }
        } else if placed_x {
            let i = choose|j: int| 0 <= j < branches.len() && (#[trigger] branches[j]).slot == x;
            assert(keys[y] == fillers[y]);
            assert(fillers[y] != branches[i].key);
        } else if placed_y {
            let j = choose|j: int| 0 <= j < branches.len() && (#[trigger] branches[j]).slot == y;
            assert(keys[x] == fillers[x]);
            assert(fillers[x] != branches[j].key);
        } else {
            assert(keys[x] == fillers[x] && keys[y] == fillers[y]);
        }
    }
}

/// What a node without a fault guarantees of each of its branches.
proof fn lemma_branch_sound<T>(node: Node<T>, n: int, i: int, depth: nat, size: nat)
    requires
        0 <= i < n <= node.branches@.len(),
        branches_error(node, n, depth, size) is None,
    ensures
        !node.repeats_key(i),
        !node.misplaced(i),
        edge_error(node.branches@[i].edge, depth + 1, size) is None,
    decreases n,
{
    if i < n - 1 {
        lemma_branch_sound(node, n - 1, i, depth, size);
    }
}

fn import_edge<V, T, F: Fn(T) -> V>(
    edge: Edge<T>,
    decode: &F,
    depth: Ghost<nat>,
    size: Ghost<nat>,
) -> (imported: RawEdge<Be, Leaf<Implicit, V>>)
    requires
        edge_error(edge, depth@, size@) is None,
        depth@ <= size@,
        forall|picture: T| #[trigger] decode.requires((picture,)),
    ensures
        imported.wf(),
        imported.shape() !is Null,
        imported.shape().compact(),
        fixed(imported.shape(), size@ - depth@),
        depicts(
            edge,
            imported.shape(),
            |leaf: Leaf<Implicit, V>, picture: T| decode.ensures((picture,), leaf.value),
        ),
    decreases edge,
{
    broadcast use lemma_node_shape;

    let ghost rel = |leaf: Leaf<Implicit, V>, picture: T| decode.ensures((picture,), leaf.value);
    let ghost whole = edge;
    let meta = Be::from_raw(edge.metadata);
    let ghost path = depth@ + be_word_bytes(edge.metadata).len();
    match edge.child {
        Child::Value(picture) => {
            let value = decode(picture);
            RawEdge::Value { meta, value: Leaf { origin: Implicit, value } }
        },
        Child::Node(node) => {
            let raw = import_node(node, decode, Ghost(path), size);
            let imported = RawEdge::Node { meta, node: Box::new(raw) };
            proof {
                let slots = raw.slots();
                let b = node.branches@[0];
                assert(depicts(b.edge, slots[b.slot as int].1, rel));
                assert(slots[b.slot as int].1 !is Null);
                assert forall|i: int| 0 <= i < slots.len() implies (
                #[trigger] slots[i]).1.compact() && fixed(slots[i].1, size@ - path - 1) by {
                    if slots[i].1 !is Null {
                        let j = choose|j: int|
                            0 <= j < node.branches@.len() && #[trigger] node.branches@[j].slot == i;
                        assert(slots[node.branches@[j].slot as int].1.compact());
                    }
                }
                assert(imported.shape() == Shape::Node {
                    prefix: meta.bytes(),
                    kind: raw.header.kind(),
                    slots,
                });
            }
            imported
        },
    }
}

/// `slots` hold the branches of `node`, and no other child.
spec fn holds_branches<V, T>(
    node: Node<T>,
    slots: Seq<(u8, Shape<V>)>,
    rel: spec_fn(V, T) -> bool,
    left: int,
) -> bool {
    &&& slots.len() == node.slot_count
    &&& forall|j: int|
        0 <= j < node.branches@.len() ==> {
            let branch = #[trigger] node.branches@[j];
            &&& branch.slot < node.slot_count
            &&& slots[branch.slot as int].0 == branch.key
            &&& depicts(branch.edge, slots[branch.slot as int].1, rel)
            &&& slots[branch.slot as int].1.compact()
            &&& fixed(slots[branch.slot as int].1, left)
        }
    &&& forall|i: int|
        0 <= i < slots.len() && (#[trigger] slots[i]).1 !is Null ==> exists|j: int|
            0 <= j < node.branches@.len() && #[trigger] node.branches@[j].slot == i
}

/// `keys` and `edges` hold the branches from the `n`th on, and else nothing.
#[verifier::opaque]
spec fn placed<V, T>(
    branches: Seq<Branch<T>>,
    n: int,
    keys: Seq<u8>,
    edges: Seq<RawEdge<Be, Leaf<Implicit, V>>>,
    fillers: Seq<u8>,
    rel: spec_fn(Leaf<Implicit, V>, T) -> bool,
    left: int,
) -> bool {
    &&& keys.len() == edges.len() == fillers.len()
    &&& forall|i: int| 0 <= i < edges.len() ==> (#[trigger] edges[i]).wf()
    &&& forall|j: int|
        n <= j < branches.len() ==> {
            let branch = #[trigger] branches[j];
            &&& keys[branch.slot as int] == branch.key
            &&& depicts(branch.edge, edges[branch.slot as int].shape(), rel)
            &&& edges[branch.slot as int].shape().compact()
            &&& fixed(edges[branch.slot as int].shape(), left)
        }
    &&& forall|i: int|
        0 <= i < edges.len() && (forall|j: int|
            n <= j < branches.len() ==> (#[trigger] branches[j]).slot != i) ==> (
        #[trigger] edges[i]) is Null && keys[i] == fillers[i]
}

/// No two branches share a byte or a slot, and all slots exist.
spec fn separate<T>(branches: Seq<Branch<T>>, count: int) -> bool {
    &&& forall|j: int| 0 <= j < branches.len() ==> (#[trigger] branches[j]).slot < count
    &&& forall|i: int, j: int|
        0 <= i < j < branches.len() ==> (#[trigger] branches[i]).key != (
        #[trigger] branches[j]).key && branches[i].slot != branches[j].slot
}

/// One more branch is placed.
proof fn lemma_place<V, T>(
    branches: Seq<Branch<T>>,
    n: int,
    keys: Seq<u8>,
    edges: Seq<RawEdge<Be, Leaf<Implicit, V>>>,
    fillers: Seq<u8>,
    rel: spec_fn(Leaf<Implicit, V>, T) -> bool,
    left: int,
    child: RawEdge<Be, Leaf<Implicit, V>>,
)
    requires
        0 < n <= branches.len(),
        separate(branches, edges.len() as int),
        placed(branches, n, keys, edges, fillers, rel, left),
        child.wf(),
        child.shape().compact(),
        fixed(child.shape(), left),
        depicts(branches[n - 1].edge, child.shape(), rel),
    ensures
        placed(
            branches,
            n - 1,
            keys.update(branches[n - 1].slot as int, branches[n - 1].key),
            edges.update(branches[n - 1].slot as int, child),
            fillers,
            rel,
            left,
        ),
{
    reveal(placed);
    let slot = branches[n - 1].slot as int;
    let new_keys = keys.update(slot, branches[n - 1].key);
    let new_edges = edges.update(slot, child);
    assert forall|j: int| n - 1 <= j < branches.len() implies {
        let b = #[trigger] branches[j];
        &&& new_keys[b.slot as int] == b.key
        &&& depicts(b.edge, new_edges[b.slot as int].shape(), rel)
        &&& new_edges[b.slot as int].shape().compact()
        &&& fixed(new_edges[b.slot as int].shape(), left)
    } by {
        if j > n - 1 {
            assert(branches[n - 1].slot != branches[j].slot);
            assert(new_edges[branches[j].slot as int] == edges[branches[j].slot as int]);
        }
    }
    assert forall|i: int|
        0 <= i < new_edges.len() && (forall|j: int|
            n - 1 <= j < branches.len() ==> (#[trigger] branches[j]).slot != i) implies (
    #[trigger] new_edges[i]) is Null && new_keys[i] == fillers[i] by {
        assert(branches[n - 1].slot != i);
        assert(edges[i] is Null);
    }
}

/// Import the branches of a node into the slots of their own.
fn import_branches<V, T, F: Fn(T) -> V>(
    branches: Vec<Branch<T>>,
    keys: &mut Vec<u8>,
    decode: &F,
    path: Ghost<nat>,
    size: Ghost<nat>,
) -> (edges: Vec<RawEdge<Be, Leaf<Implicit, V>>>)
    requires
        separate(branches@, old(keys)@.len() as int),
        path@ < size@,
        forall|j: int|
            0 <= j < branches@.len() ==> edge_error(
                (#[trigger] branches@[j]).edge,
                path@ + 1,
                size@,
            ) is None,
        forall|picture: T| #[trigger] decode.requires((picture,)),
    ensures
        placed(
            branches@,
            0,
            final(keys)@,
            edges@,
            old(keys)@,
            |leaf: Leaf<Implicit, V>, picture: T| decode.ensures((picture,), leaf.value),
            size@ - path@ - 1,
        ),
    decreases branches,
{
    let ghost rel = |leaf: Leaf<Implicit, V>, picture: T| decode.ensures((picture,), leaf.value);
    let ghost all = branches@;
    let ghost left = size@ - path@ - 1;
    let ghost fillers = keys@;
    let slot_count: usize = keys.len();
    let mut pending = branches;
    assert forall|j: int| 0 <= j < all.len() implies decreases_to!(
        branches => (#[trigger] all[j]).edge
    ) by {
        assert(decreases_to!(branches => branches@[j].edge));
    }
    let mut edges: Vec<RawEdge<Be, Leaf<Implicit, V>>> = Vec::new();
    while edges.len() < slot_count
        invariant
            edges@.len() <= slot_count,
            forall|i: int| 0 <= i < edges@.len() ==> (#[trigger] edges@[i]) is Null,
        decreases slot_count - edges@.len(),
    {
        edges.push(RawEdge::Null);
    }
    assert(pending@ =~= all.take(all.len() as int));
    assert(placed(all, all.len() as int, keys@, edges@, fillers, rel, left)) by {
        reveal(placed);
    }
    while pending.len() > 0
        invariant
            left == size@ - path@ - 1,
            path@ < size@,
            pending@.len() <= all.len(),
            pending@ == all.take(pending@.len() as int),
            separate(all, slot_count as int),
            keys@.len() == slot_count,
            edges@.len() == slot_count,
            rel == (|leaf: Leaf<Implicit, V>, picture: T|
                decode.ensures((picture,), leaf.value)),
            forall|picture: T| #[trigger] decode.requires((picture,)),
            forall|j: int|
                0 <= j < all.len() ==> edge_error(
                    (#[trigger] all[j]).edge,
                    path@ + 1,
                    size@,
                ) is None,
            forall|j: int|
                0 <= j < all.len() ==> decreases_to!(branches => (#[trigger] all[j]).edge),
            placed(all, pending@.len() as int, keys@, edges@, fillers, rel, left),
        decreases pending@.len(),
    {
        let ghost n = pending@.len() as int;
        if let Some(branch) = pending.pop() {
            let slot: usize = branch.slot as usize;
            assert(branch == all[n - 1]);
            let child = import_edge(branch.edge, decode, Ghost(path@ + 1), size);
            proof {
                lemma_place(all, n, keys@, edges@, fillers, rel, left, child);
            }
            keys[slot] = branch.key;
            edges[slot] = child;
            assert(pending@ =~= all.take(n - 1));
        }
    }
    edges
}

/// Slots of a fresh node that holds imported branches.
proof fn lemma_imported_slots<V, T>(
    node: Node<T>,
    keys: Seq<u8>,
    edges: Seq<RawEdge<Be, Leaf<Implicit, V>>>,
    fillers: Seq<u8>,
    rel: spec_fn(Leaf<Implicit, V>, T) -> bool,
    left: int,
)
    requires
        node.fits(),
        separate(node.branches@, node.slot_count as int),
        fillers.len() == node.slot_count,
        placed(node.branches@, 0, keys, edges, fillers, rel, left),
        node.kind is Node256 ==> forall|i: int|
            0 <= i < fillers.len() ==> #[trigger] fillers[i] == i,
        node.kind is Node256 ==> forall|j: int|
            0 <= j < node.branches@.len() ==> (#[trigger] node.branches@[j]).slot
                == node.branches@[j].key,
        node.kind !is Node256 ==> fillers.no_duplicates() && forall|i: int, j: int|
            0 <= i < fillers.len() && 0 <= j < node.branches@.len() ==> #[trigger] fillers[i]
                != (#[trigger] node.branches@[j]).key,
    ensures
        keys.len() == edges.len() == node.slot_count,
        forall|i: int| 0 <= i < edges.len() ==> (#[trigger] edges[i]).wf(),
        keys.no_duplicates(),
        build(node.kind.kind(), zip(keys, edges)) == zip(keys, edges),
        holds_branches(node, zip(keys, edges), rel, left),
{
    reveal(placed);
    let all = node.branches@;
    let entries = zip(keys, edges);
    assert forall|i: int|
        0 <= i < keys.len() && (forall|j: int|
            0 <= j < all.len() ==> (#[trigger] all[j]).slot != i) implies #[trigger] keys[i]
        == fillers[i] by {
        assert(edges[i] is Null);
    }
    if node.kind is Node256 {
        assert forall|i: int| 0 <= i < 256 implies #[trigger] keys[i] == i by {
            if exists|j: int| 0 <= j < all.len() && (#[trigger] all[j]).slot == i {
                let j = choose|j: int| 0 <= j < all.len() && (#[trigger] all[j]).slot == i;
                assert(all[j].slot == all[j].key);
            } else {
                assert(keys[i] == fillers[i]);
            }
        }
        assert forall|i: int, j: int|
            0 <= i < entries.len() && 0 <= j < entries.len() && #[trigger] entries[i].0
                == #[trigger] entries[j].0 implies i == j by {
            assert(keys[i] == i && keys[j] == j);
        }
        let slots = build(Type::Node256, entries);
        assert forall|i: int| 0 <= i < 256 implies #[trigger] slots[i] == entries[i] by {
            assert(keys[i] == i);
            assert(entries[i].0 == i as u8);
            lemma_index(entries, i, i as u8);
        }
        assert(slots =~= entries);
        assert forall|x: int, y: int| 0 <= x < keys.len() && 0 <= y < keys.len() && x != y implies
            keys[x] != keys[y] by {
            assert(keys[x] == x && keys[y] == y);
        }
    } else {
        lemma_placed_keys(keys, fillers, all);
    }
    assert forall|i: int|
        0 <= i < entries.len() && (#[trigger] entries[i]).1 !is Null implies exists|j: int|
        0 <= j < all.len() && #[trigger] all[j].slot == i by {
        if forall|j: int| 0 <= j < all.len() ==> (#[trigger] all[j]).slot != i {
            assert(edges[i] is Null);
        }
    }
}

fn import_node<V, T, F: Fn(T) -> V>(
    node: Node<T>,
    decode: &F,
    path: Ghost<nat>,
    size: Ghost<nat>,
) -> (imported: RawNode<Be, Leaf<Implicit, V>>)
    requires
        node.fits(),
        branches_error(node, node.branches@.len() as int, path@, size@) is None,
        path@ < size@,
        forall|picture: T| #[trigger] decode.requires((picture,)),
    ensures
        imported.wf(),
        imported.header.kind() == node.kind.kind(),
        holds_branches(
            node,
            imported.slots(),
            |leaf: Leaf<Implicit, V>, picture: T| decode.ensures((picture,), leaf.value),
            size@ - path@ - 1,
        ),
    decreases node,
{
    let ghost rel = |leaf: Leaf<Implicit, V>, picture: T| decode.ensures((picture,), leaf.value);
    let ghost all = node.branches@;
    let kind = node.kind;
    let slot_count: usize = node.slot_count as usize;
    proof {
        assert forall|j: int| 0 <= j < all.len() implies edge_error(
            (#[trigger] all[j]).edge,
            path@ + 1,
            size@,
        ) is None && all[j].slot < node.slot_count && (kind is Node256 ==> all[j].slot
            == all[j].key) by {
            lemma_branch_sound(node, all.len() as int, j, path@, size@);
        }
        assert forall|i: int, j: int| 0 <= i < j < all.len() implies (#[trigger] all[i]).key != (
        #[trigger] all[j]).key && all[i].slot != all[j].slot by {
            lemma_branch_sound(node, all.len() as int, j, path@, size@);
            assert(node.branches@[i].key == all[i].key);
            assert(node.branches@[i].slot == all[i].slot);
        }
    }
    let mut keys: Vec<u8>;
    if kind == NodeKind::Node256 {
        keys = Vec::new();
        while keys.len() < 256
            invariant
                keys@.len() <= 256,
                forall|i: int| 0 <= i < keys@.len() ==> #[trigger] keys@[i] == i,
            decreases 256 - keys@.len(),
        {
            let byte: u8 = keys.len() as u8;
            keys.push(byte);
        }
    } else {
        keys = filler_keys(&node.branches, slot_count);
    }
    let ghost fillers = keys@;
    let edges = import_branches(node.branches, &mut keys, decode, path, size);
    proof {
        lemma_imported_slots(node, keys@, edges@, fillers, rel, size@ - path@ - 1);
    }
    RawNode::new_exact(kind.into_raw(), keys, edges)
}

impl<K: Key, V> SequentialMap<K, V> {
    /// Export the exact quiescent topology without process pointers.
    ///
    /// `encode` must copy or otherwise encode the logical value.
    pub fn export_topology<T, F: Fn(&V) -> T>(&self, encode: F) -> (exported: Result<
        Topology<T>,
        Error,
    >)
        requires
            self.wf(),
            forall|value: &V| #[trigger] encode.requires((value,)),
        ensures
            match exported {
                Ok(topology) => {
                    &&& self.compact()
                    &&& topology_error(topology, K::size()) is None
                    &&& pictures(
                        topology,
                        self.root.shape(),
                        |leaf: Leaf<Implicit, V>, picture: T|
                            encode.ensures((&leaf.value,), picture),
                    )
                    &&& topology.root matches Some(root) ==> slot_sorted(root)
                },
                Err(error) => !self.compact() && error == Error::EmptyNode,
            },
    {
        let root = export_edge(&self.root, &encode);
        let topology = Topology { version: VERSION, root };
        proof {
            self.root.lemma_shape_wf();
            lemma_fixed_keyed::<K, V>(self.root.shape(), 7);
            if topology.root is Some {
                lemma_depicted_error(
                    topology.root->0,
                    self.root.shape(),
                    |leaf: Leaf<Implicit, V>, picture: T| encode.ensures((&leaf.value,), picture),
                    0,
                    K::size(),
                    7,
                );
            }
        }
        match topology.validate::<K>() {
            Ok(()) => Ok(topology),
            Err(error) => Err(error),
        }
    }

    /// Restore a validated topology and reconstruct its exact adaptive node
    /// kinds.
    pub fn from_topology<T, F: Fn(T) -> V>(topology: Topology<T>, decode: F) -> (restored: Result<
        Self,
        Error,
    >)
        requires
            forall|picture: T| #[trigger] decode.requires((picture,)),
        ensures
            match restored {
                Ok(map) => {
                    &&& topology_error(topology, K::size()) is None
                    &&& map.wf()
                    &&& map.compact()
                    &&& pictures(
                        topology,
                        map.root.shape(),
                        |leaf: Leaf<Implicit, V>, picture: T|
                            decode.ensures((picture,), leaf.value),
                    )
                },
                Err(error) => topology_error(topology, K::size()) == Some(error),
            },
    {
        match topology.validate::<K>() {
            Ok(()) => {},
            Err(error) => {
                return Err(error);
            },
        }
        match topology.root {
            Some(root) => {
                let root = import_edge(root, &decode, Ghost(0), Ghost(K::size()));
                proof {
                    root.lemma_shape_wf();
                    lemma_fixed_keyed::<K, V>(root.shape(), 7);
                }
                Ok(SequentialMap { root })
            },
            None => Ok(SequentialMap::new()),
        }
    }
}

/// A topology is a picture of a whole tree.
pub open spec fn pictures<V, T>(
    topology: Topology<T>,
    shape: Shape<V>,
    rel: spec_fn(V, T) -> bool,
) -> bool {
    &&& topology.version == VERSION
    &&& match topology.root {
        Some(root) => depicts(root, shape, rel),
        None => shape is Null,
    }
}

/// The same edge, field by field.
pub open spec fn same_edge<T>(a: Edge<T>, b: Edge<T>) -> bool
    decreases a,
{
    &&& a.metadata == b.metadata
    &&& match (a.child, b.child) {
        (Child::Value(x), Child::Value(y)) => x == y,
        (Child::Node(x), Child::Node(y)) => {
            &&& x.kind == y.kind
            &&& x.slot_count == y.slot_count
            &&& x.branches@.len() == y.branches@.len()
            &&& forall|j: int|
                0 <= j < x.branches@.len() ==> {
                    let branch = #[trigger] x.branches@[j];
                    &&& branch.key == y.branches@[j].key
                    &&& branch.slot == y.branches@[j].slot
                    &&& same_edge(branch.edge, y.branches@[j].edge)
                }
        },
        _ => false,
    }
}

/// The same topology, field by field.
pub open spec fn same_topology<T>(a: Topology<T>, b: Topology<T>) -> bool {
    &&& a.version == b.version
    &&& match (a.root, b.root) {
        (Some(x), Some(y)) => same_edge(x, y),
        (None, None) => true,
        _ => false,
    }
}

/// A copy of a child: its values are clones, and all else is the same.
pub open spec fn copied_child<V: Clone>(a: Child<V>, b: Child<V>) -> bool
    decreases a,
{
    match (a, b) {
        (Child::Value(x), Child::Value(y)) => cloned(x, y),
        (Child::Node(x), Child::Node(y)) => {
            &&& x.kind == y.kind
            &&& x.slot_count == y.slot_count
            &&& x.branches@.len() == y.branches@.len()
            &&& forall|j: int|
                0 <= j < x.branches@.len() ==> {
                    let branch = #[trigger] x.branches@[j];
                    &&& branch.key == y.branches@[j].key
                    &&& branch.slot == y.branches@[j].slot
                    &&& branch.edge.metadata == y.branches@[j].edge.metadata
                    &&& copied_child(branch.edge.child, y.branches@[j].edge.child)
                }
        },
        _ => false,
    }
}

/// A copy of an edge.
pub open spec fn copied_edge<V: Clone>(a: Edge<V>, b: Edge<V>) -> bool {
    a.metadata == b.metadata && copied_child(a.child, b.child)
}

/// Copy an edge with all that is below it.
fn copy_edge<V: Clone>(edge: &Edge<V>) -> (copy: Edge<V>)
    ensures
        copied_edge(*edge, copy),
    decreases *edge,
{
    let child = match &edge.child {
        Child::Value(value) => Child::Value(value.clone()),
        Child::Node(node) => Child::Node(copy_node(node)),
    };
    Edge { metadata: edge.metadata, child }
}

/// Copy a node with all that is below it.
fn copy_node<V: Clone>(node: &Node<V>) -> (copy: Node<V>)
    ensures
        copied_child(Child::Node(*node), Child::Node(copy)),
    decreases *node,
{
    let mut branches: Vec<Branch<V>> = Vec::new();
    let mut i: usize = 0;
    while i < node.branches.len()
        invariant
            i <= node.branches@.len(),
            branches@.len() == i,
            forall|j: int|
                0 <= j < i ==> {
                    let branch = #[trigger] node.branches@[j];
                    &&& branch.key == branches@[j].key
                    &&& branch.slot == branches@[j].slot
                    &&& copied_edge(branch.edge, branches@[j].edge)
                },
        decreases node.branches@.len() - i,
    {
        let branch = &node.branches[i];
        assert(decreases_to!(*node => node.branches@[i as int].edge));
        let edge = copy_edge(&branch.edge);
        branches.push(Branch { key: branch.key, slot: branch.slot, edge });
        i += 1;
    }
    Node { kind: node.kind, slot_count: node.slot_count, branches }
}

impl<V: Clone> Clone for Topology<V> {
    fn clone(&self) -> (copy: Self)
        ensures
            copy.version == self.version,
            match (self.root, copy.root) {
                (Some(x), Some(y)) => copied_edge(x, y),
                (None, None) => true,
                _ => false,
            },
    {
        let root = match &self.root {
            Some(root) => Some(copy_edge(root)),
            None => None,
        };
        Topology { version: self.version, root }
    }
}

impl<V: Clone> Clone for Edge<V> {
    fn clone(&self) -> (copy: Self)
        ensures
            copied_edge(*self, copy),
    {
        copy_edge(self)
    }
}

impl<V: Clone> Clone for Child<V> {
    fn clone(&self) -> (copy: Self)
        ensures
            copied_child(*self, copy),
    {
        match self {
            Child::Value(value) => Child::Value(value.clone()),
            Child::Node(node) => Child::Node(copy_node(node)),
        }
    }
}

impl<V: Clone> Clone for Node<V> {
    fn clone(&self) -> (copy: Self)
        ensures
            copied_child(Child::Node(*self), Child::Node(copy)),
    {
        copy_node(self)
    }
}

impl<V: Clone> Clone for Branch<V> {
    fn clone(&self) -> (copy: Self)
        ensures
            copy.key == self.key,
            copy.slot == self.slot,
            copied_edge(self.edge, copy.edge),
    {
        Branch { key: self.key, slot: self.slot, edge: copy_edge(&self.edge) }
    }
}

/// Some branch is in `slot`.
spec fn lists_slot<T>(branches: Seq<Branch<T>>, slot: int) -> bool {
    exists|j: int| 0 <= j < branches.len() && #[trigger] branches[j].slot == slot
}

/// Branches in slot order that list the same slots are the same in number,
/// and each lists the same slot.
proof fn lemma_same_slots<T>(a: Seq<Branch<T>>, b: Seq<Branch<T>>, n: int)
    requires
        0 <= n <= a.len(),
        forall|i: int, j: int|
            0 <= i < j < a.len() ==> (#[trigger] a[i]).slot < (#[trigger] a[j]).slot,
        forall|i: int, j: int|
            0 <= i < j < b.len() ==> (#[trigger] b[i]).slot < (#[trigger] b[j]).slot,
        forall|slot: int| #[trigger] lists_slot(a, slot) <==> lists_slot(b, slot),
    ensures
        n <= b.len(),
        forall|i: int| 0 <= i < n ==> (#[trigger] a[i]).slot == b[i].slot,
    decreases n,
{
    if n > 0 {
        lemma_same_slots(a, b, n - 1);
        let m = n - 1;
        assert(lists_slot(a, a[m].slot as int));
        let j = choose|j: int| 0 <= j < b.len() && #[trigger] b[j].slot == a[m].slot as int;
        if j < m {
            assert(a[j].slot == b[j].slot);
            assert(a[j].slot < a[m].slot);
        }
        if j > m {
            assert(lists_slot(b, b[m].slot as int));
            assert(lists_slot(a, b[m].slot as int));
            let i = choose|i: int| 0 <= i < a.len() && #[trigger] a[i].slot == b[m].slot as int;
            assert(b[m].slot < b[j].slot);
            if i < m {
                assert(a[i].slot == b[i].slot);
                assert(b[i].slot < b[m].slot);
            } else if i > m {
                assert(a[m].slot < a[i].slot);
            }
        }
        assert(j == m);
    }
}

/// Some value of the edge has this picture.
pub open spec fn occurs<T>(edge: Edge<T>, picture: T) -> bool
    decreases edge,
{
    match edge.child {
        Child::Value(value) => value == picture,
        Child::Node(node) => exists|j: int|
            0 <= j < node.branches@.len() && occurs((#[trigger] node.branches@[j]).edge, picture),
    }
}

/// What is encoded of a value that was decoded from a picture of the edge is
/// that picture.
pub open spec fn gives_back<V, T>(
    edge: Edge<T>,
    decode: spec_fn(V, T) -> bool,
    encode: spec_fn(V, T) -> bool,
) -> bool {
    forall|value: V, x: T, y: T|
        occurs(edge, x) && #[trigger] decode(value, x) && #[trigger] encode(value, y) ==> x == y
}

/// What holds of the pictures of an edge holds of those below it.
proof fn lemma_gives_back<V, T>(
    edge: Edge<T>,
    j: int,
    decode: spec_fn(V, T) -> bool,
    encode: spec_fn(V, T) -> bool,
)
    requires
        gives_back(edge, decode, encode),
        edge.child is Node,
        0 <= j < edge.child->Node_0.branches@.len(),
    ensures
        gives_back(edge.child->Node_0.branches@[j].edge, decode, encode),
{
    let below = edge.child->Node_0.branches@[j].edge;
    assert forall|value: V, x: T, y: T|
        occurs(below, x) && #[trigger] decode(value, x) && #[trigger] encode(
            value,
            y,
        ) implies x == y by {
        assert(occurs(edge.child->Node_0.branches@[j].edge, x));
        assert(occurs(edge, x));
    }
}

/// Two pictures of one tree in slot order are the same, where the pictures of
/// a value are.
pub proof fn lemma_same_picture<V, T>(
    a: Edge<T>,
    b: Edge<T>,
    shape: Shape<V>,
    first: spec_fn(V, T) -> bool,
    second: spec_fn(V, T) -> bool,
)
    requires
        depicts(a, shape, first),
        depicts(b, shape, second),
        slot_sorted(a),
        slot_sorted(b),
        gives_back(a, first, second),
    ensures
        same_edge(a, b),
    decreases a,
{
    lemma_word_injective(a.metadata, b.metadata);
    match (a.child, b.child) {
        (Child::Node(x), Child::Node(y)) => {
            let slots = shape->slots;
            assert forall|slot: int| #[trigger]
                lists_slot(x.branches@, slot) <==> lists_slot(y.branches@, slot) by {
                if lists_slot(x.branches@, slot) {
                    let i = choose|i: int|
                        0 <= i < x.branches@.len() && #[trigger] x.branches@[i].slot == slot;
                    assert(depicts(x.branches@[i].edge, slots[slot].1, first));
                    assert(slots[slot].1 !is Null);
                }
                if lists_slot(y.branches@, slot) {
                    let i = choose|i: int|
                        0 <= i < y.branches@.len() && #[trigger] y.branches@[i].slot == slot;
                    assert(depicts(y.branches@[i].edge, slots[slot].1, second));
                    assert(slots[slot].1 !is Null);
                }
            }
            assert forall|slot: int| #[trigger]
                lists_slot(y.branches@, slot) <==> lists_slot(x.branches@, slot) by {
                assert(lists_slot(x.branches@, slot) <==> lists_slot(y.branches@, slot));
            }
            lemma_same_slots(x.branches@, y.branches@, x.branches@.len() as int);
            lemma_same_slots(y.branches@, x.branches@, y.branches@.len() as int);
            assert forall|j: int| 0 <= j < x.branches@.len() implies {
                let branch = #[trigger] x.branches@[j];
                &&& branch.key == y.branches@[j].key
                &&& branch.slot == y.branches@[j].slot
                &&& same_edge(branch.edge, y.branches@[j].edge)
            } by {
                let slot = x.branches@[j].slot as int;
                assert(y.branches@[j].slot == slot);
                lemma_gives_back(a, j, first, second);
                lemma_same_picture(
                    x.branches@[j].edge,
                    y.branches@[j].edge,
                    slots[slot].1,
                    first,
                    second,
                );
            }
        },
        _ => {},
    }
}

/// Exporting what was restored from a topology gives that topology back.
///
/// `decode` tells which value is restored from a picture, and `encode` which
/// picture is exported of a value; decoding and encoding must give the pictures
/// of this topology back.
pub proof fn law_round_trip<V, T>(
    before: Topology<T>,
    after: Topology<T>,
    shape: Shape<V>,
    decode: spec_fn(V, T) -> bool,
    encode: spec_fn(V, T) -> bool,
)
    requires
        pictures(before, shape, decode),
        pictures(after, shape, encode),
        before.root matches Some(root) ==> slot_sorted(root),
        after.root matches Some(root) ==> slot_sorted(root),
        before.root matches Some(root) ==> gives_back(root, decode, encode),
    ensures
        same_topology(before, after),
{
    if before.root is Some && after.root is Some {
        lemma_same_picture(before.root->0, after.root->0, shape, decode, encode);
    }
}

/// The same edge, up to the order in which branches are listed.
pub open spec fn reordered_edge<T>(a: Edge<T>, b: Edge<T>) -> bool
    decreases a,
{
    &&& a.metadata == b.metadata
    &&& match (a.child, b.child) {
        (Child::Value(x), Child::Value(y)) => x == y,
        (Child::Node(x), Child::Node(y)) => {
            &&& x.kind == y.kind
            &&& x.slot_count == y.slot_count
            &&& x.branches@.len() == y.branches@.len()
            &&& forall|j: int|
                0 <= j < x.branches@.len() ==> {
                    let branch = #[trigger] x.branches@[j];
                    exists|i: int|
                        0 <= i < y.branches@.len() && (#[trigger] y.branches@[i]).slot
                            == branch.slot && y.branches@[i].key == branch.key && reordered_edge(
                            branch.edge,
                            y.branches@[i].edge,
                        )
                }
        },
        _ => false,
    }
}

/// The same topology, up to the order in which branches are listed.
pub open spec fn reordered<T>(a: Topology<T>, b: Topology<T>) -> bool {
    &&& a.version == b.version
    &&& match (a.root, b.root) {
        (Some(x), Some(y)) => reordered_edge(x, y),
        (None, None) => true,
        _ => false,
    }
}

/// Branches in different slots that list the same slots are the same in
/// number.
proof fn lemma_same_count<T>(a: Seq<Branch<T>>, b: Seq<Branch<T>>)
    requires
        forall|i: int, j: int|
            0 <= i < j < a.len() ==> (#[trigger] a[i]).slot != (#[trigger] a[j]).slot,
        forall|i: int, j: int|
            0 <= i < j < b.len() ==> (#[trigger] b[i]).slot != (#[trigger] b[j]).slot,
        forall|slot: int| #[trigger] lists_slot(a, slot) <==> lists_slot(b, slot),
    ensures
        a.len() == b.len(),
{
    let x = a.map_values(|branch: Branch<T>| branch.slot as int);
    let y = b.map_values(|branch: Branch<T>| branch.slot as int);
    x.unique_seq_to_set();
    y.unique_seq_to_set();
    assert forall|slot: int| x.to_set().contains(slot) == y.to_set().contains(slot) by {
        if x.contains(slot) {
            let i = x.index_of(slot);
            assert(a[i].slot == slot);
            assert(lists_slot(a, slot));
            let j = choose|j: int| 0 <= j < b.len() && #[trigger] b[j].slot == slot;
            assert(y[j] == slot);
        }
        if y.contains(slot) {
            let i = y.index_of(slot);
            assert(b[i].slot == slot);
            assert(lists_slot(b, slot));
            assert(lists_slot(a, slot));
            let j = choose|j: int| 0 <= j < a.len() && #[trigger] a[j].slot == slot;
            assert(x[j] == slot);
        }
    }
    assert(x.to_set() =~= y.to_set());
}

/// A valid picture of a tree and one in slot order are the same up to the
/// order of branches, where the pictures of a value are.
proof fn lemma_reordered_picture<V, T>(
    a: Edge<T>,
    b: Edge<T>,
    shape: Shape<V>,
    first: spec_fn(V, T) -> bool,
    second: spec_fn(V, T) -> bool,
    depth: nat,
    size: nat,
)
    requires
        depicts(a, shape, first),
        depicts(b, shape, second),
        edge_error(a, depth, size) is None,
        slot_sorted(b),
        gives_back(a, first, second),
    ensures
        reordered_edge(a, b),
    decreases a,
{
    lemma_word_injective(a.metadata, b.metadata);
    match (a.child, b.child) {
        (Child::Node(x), Child::Node(y)) => {
            let slots = shape->slots;
            let path = depth + be_word_bytes(a.metadata).len();
            let count = x.branches@.len() as int;
            assert forall|slot: int| #[trigger]
                lists_slot(x.branches@, slot) <==> lists_slot(y.branches@, slot) by {
                if lists_slot(x.branches@, slot) {
                    let i = choose|i: int|
                        0 <= i < x.branches@.len() && #[trigger] x.branches@[i].slot == slot;
                    assert(depicts(x.branches@[i].edge, slots[slot].1, first));
                    assert(slots[slot].1 !is Null);
                }
                if lists_slot(y.branches@, slot) {
                    let i = choose|i: int|
                        0 <= i < y.branches@.len() && #[trigger] y.branches@[i].slot == slot;
                    assert(depicts(y.branches@[i].edge, slots[slot].1, second));
                    assert(slots[slot].1 !is Null);
                }
            }
            assert forall|j: int| 0 <= j < count implies {
                let branch = #[trigger] x.branches@[j];
                exists|i: int|
                    0 <= i < y.branches@.len() && (#[trigger] y.branches@[i]).slot == branch.slot
                        && y.branches@[i].key == branch.key && reordered_edge(
                        branch.edge,
                        y.branches@[i].edge,
                    )
            } by {
                let branch = x.branches@[j];
                assert(lists_slot(x.branches@, branch.slot as int));
                assert(lists_slot(y.branches@, branch.slot as int));
                let i = choose|i: int|
                    0 <= i < y.branches@.len() && #[trigger] y.branches@[i].slot
                        == branch.slot as int;
                lemma_branch_sound(x, count, j, path, size);
                lemma_gives_back(a, j, first, second);
                lemma_reordered_picture(
                    branch.edge,
                    y.branches@[i].edge,
                    slots[branch.slot as int].1,
                    first,
                    second,
                    path + 1,
                    size,
                );
            }
            assert forall|i: int, j: int| 0 <= i < j < count implies (
            #[trigger] x.branches@[i]).slot != (#[trigger] x.branches@[j]).slot by {
                lemma_branch_sound(x, count, j, path, size);
            }
            lemma_same_count(x.branches@, y.branches@);
        },
        _ => {},
    }
}

/// Exporting what was restored from a topology gives that topology back, with
/// the branches of each node in slot order, whatever order they were in.
///
/// `decode` tells which value is restored from a picture, and `encode` which
/// picture is exported of a value; decoding and encoding must give the pictures
/// of this topology back.
pub proof fn law_any_order<V, T>(
    before: Topology<T>,
    after: Topology<T>,
    shape: Shape<V>,
    decode: spec_fn(V, T) -> bool,
    encode: spec_fn(V, T) -> bool,
    size: nat,
)
    requires
        topology_error(before, size) is None,
        pictures(before, shape, decode),
        pictures(after, shape, encode),
        after.root matches Some(root) ==> slot_sorted(root),
        before.root matches Some(root) ==> gives_back(root, decode, encode),
    ensures
        reordered(before, after),
        after.root matches Some(root) ==> slot_sorted(root),
{
    if before.root is Some && after.root is Some {
        lemma_reordered_picture(before.root->0, after.root->0, shape, decode, encode, 0, size);
    }
}

/// Two trees with one picture map the same keys.
pub proof fn lemma_same_contents<V, W, T>(
    edge: Edge<T>,
    a: Shape<V>,
    b: Shape<W>,
    first: spec_fn(V, T) -> bool,
    second: spec_fn(W, T) -> bool,
    key: Seq<u8>,
    max: nat,
)
    requires
        depicts(edge, a, first),
        depicts(edge, b, second),
        a.wf(max),
        b.wf(max),
    ensures
        a.get(key) is Some <==> b.get(key) is Some,
        a.get(key) is Some ==> exists|picture: T| #[trigger]
            first(a.get(key)->0, picture) && #[trigger] second(b.get(key)->0, picture),
    decreases edge,
{
    match edge.child {
        Child::Value(picture) => {
            if a.get(key) is Some {
                assert(first(a.get(key)->0, picture) && second(b.get(key)->0, picture));
            }
        },
        Child::Node(node) => {
            let prefix = a.prefix();
            let x = a->slots;
            let y = b->slots;
            lemma_node_get(prefix, a->kind, x, key);
            lemma_node_get(prefix, b->kind, y, key);
            if descends(prefix, key) {
                let c = key[prefix.len() as int];
                let below = rest(prefix, key);
                if exists|j: int| 0 <= j < node.branches@.len() && #[trigger] node.branches@[j].key == c {
                    let j = choose|j: int|
                        0 <= j < node.branches@.len() && #[trigger] node.branches@[j].key == c;
                    let slot = node.branches@[j].slot as int;
                    assert(at(x, slot, c) && at(y, slot, c));
                    lemma_index(x, slot, c);
                    lemma_index(y, slot, c);
                    lemma_same_contents(
                        node.branches@[j].edge,
                        x[slot].1,
                        y[slot].1,
                        first,
                        second,
                        below,
                        max,
                    );
                } else {
                    assert(lookup(x, c) is Null) by {
                        if holds(x, c) {
                            lemma_holds(x, c);
                            let i = index(x, c);
                            if x[i].1 !is Null {
                                let j = choose|j: int|
                                    0 <= j < node.branches@.len()
                                        && #[trigger] node.branches@[j].slot == i;
                                assert(node.branches@[j].key == c);
                            }
                        }
                    }
                    assert(lookup(y, c) is Null) by {
                        if holds(y, c) {
                            lemma_holds(y, c);
                            let i = index(y, c);
                            if y[i].1 !is Null {
                                let j = choose|j: int|
                                    0 <= j < node.branches@.len()
                                        && #[trigger] node.branches@[j].slot == i;
                                assert(node.branches@[j].key == c);
                            }
                        }
                    }
                }
            }
        },
    }
}

/// What an edge holds under a key.
pub open spec fn picture_at<T>(edge: Edge<T>, key: Seq<u8>) -> Option<T>
    decreases edge,
{
    let prefix = be_word_bytes(edge.metadata);
    match edge.child {
        Child::Value(picture) => if key == prefix {
            Some(picture)
        } else {
            None
        },
        Child::Node(node) => if descends(prefix, key) && exists|j: int|
            0 <= j < node.branches@.len() && #[trigger] node.branches@[j].key
                == key[prefix.len() as int] {
            let j = choose|j: int|
                0 <= j < node.branches@.len() && #[trigger] node.branches@[j].key
                    == key[prefix.len() as int];
            if 0 <= j < node.branches@.len() {
                picture_at(node.branches@[j].edge, rest(prefix, key))
            } else {
                None
            }
        } else {
            None
        },
    }
}

/// No edge has a transient flag.
pub open spec fn unflagged<T>(edge: Edge<T>) -> bool
    decreases edge,
{
    &&& edge.metadata & FLAGS == 0
    &&& match edge.child {
        Child::Value(_) => true,
        Child::Node(node) => forall|j: int|
            0 <= j < node.branches@.len() ==> unflagged((#[trigger] node.branches@[j]).edge),
    }
}

/// A tree and its picture hold the same keys.
proof fn lemma_pictured<V, T>(
    edge: Edge<T>,
    shape: Shape<V>,
    rel: spec_fn(V, T) -> bool,
    key: Seq<u8>,
    max: nat,
)
    requires
        depicts(edge, shape, rel),
        shape.wf(max),
    ensures
        picture_at(edge, key) is Some <==> shape.get(key) is Some,
        shape.get(key) is Some ==> rel(shape.get(key)->0, picture_at(edge, key)->0),
    decreases edge,
{
    match edge.child {
        Child::Value(_) => {},
        Child::Node(node) => {
            let prefix = shape.prefix();
            let slots = shape->slots;
            lemma_node_get(prefix, shape->kind, slots, key);
            if descends(prefix, key) {
                let c = key[prefix.len() as int];
                if exists|j: int| 0 <= j < node.branches@.len() && #[trigger] node.branches@[j].key == c {
                    let j = choose|j: int|
                        0 <= j < node.branches@.len() && #[trigger] node.branches@[j].key == c;
                    let slot = node.branches@[j].slot as int;
                    assert(at(slots, slot, c));
                    lemma_index(slots, slot, c);
                    lemma_pictured(
                        node.branches@[j].edge,
                        slots[slot].1,
                        rel,
                        rest(prefix, key),
                        max,
                    );
                } else {
                    assert(lookup(slots, c) is Null) by {
                        if holds(slots, c) {
                            lemma_holds(slots, c);
                            let i = index(slots, c);
                            if slots[i].1 !is Null {
                                let j = choose|j: int|
                                    0 <= j < node.branches@.len()
                                        && #[trigger] node.branches@[j].slot == i;
                                assert(node.branches@[j].key == c);
                            }
                        }
                    }
                }
            }
        },
    }
}

/// A picture has no transient flags.
proof fn lemma_unflagged<V, T>(edge: Edge<T>, shape: Shape<V>, rel: spec_fn(V, T) -> bool)
    requires
        depicts(edge, shape, rel),
    ensures
        unflagged(edge),
    decreases edge,
{
    if let Child::Node(node) = edge.child {
        assert forall|j: int| 0 <= j < node.branches@.len() implies unflagged(
            (#[trigger] node.branches@[j]).edge,
        ) by {
            let branch = node.branches@[j];
            lemma_unflagged(branch.edge, shape->slots[branch.slot as int].1, rel);
        }
    }
}

/// A topology that was exported from a map, or that a map was restored from,
/// has the current version and no transient flags. It is without a root
/// exactly if the tree of the map is empty, and holds the keys of the map,
/// each with a picture of its value.
proof fn lemma_pictured_topology<V, T>(
    topology: Topology<T>,
    shape: Shape<V>,
    rel: spec_fn(V, T) -> bool,
    key: Seq<u8>,
    max: nat,
)
    requires
        pictures(topology, shape, rel),
        shape.wf(max),
    ensures
        topology.version == VERSION,
        topology.root is None <==> shape is Null,
        topology.root matches Some(root) ==> {
            &&& unflagged(root)
            &&& picture_at(root, key) is Some <==> shape.get(key) is Some
            &&& shape.get(key) is Some ==> rel(shape.get(key)->0, picture_at(root, key)->0)
        },
        topology.root is None ==> shape.get(key) is None,
{
    if let Some(root) = topology.root {
        lemma_unflagged(root, shape, rel);
        lemma_pictured(root, shape, rel, key, max);
    }
}

impl<T> Topology<T> {
    /// What the topology holds under a key.
    pub open spec fn picture(self, key: Seq<u8>) -> Option<T> {
        match self.root {
            Some(root) => picture_at(root, key),
            None => None,
        }
    }
}

/// A topology that was exported from a map has the current version, is valid,
/// has no transient flags, and lists the branches of each node in slot order.
/// It holds the keys of the map, each with what its value was encoded as, and
/// no other keys.
pub proof fn law_exported<K: Key, V, T, F: Fn(&V) -> T>(
    map: SequentialMap<K, V>,
    topology: Topology<T>,
    encode: F,
    key: Seq<u8>,
)
    requires
        map.wf(),
        map.compact(),
        pictures(
            topology,
            map.root.shape(),
            |leaf: Leaf<Implicit, V>, picture: T| encode.ensures((&leaf.value,), picture),
        ),
        topology.root matches Some(root) ==> slot_sorted(root),
    ensures
        topology.version == VERSION,
        topology_error(topology, K::size()) is None,
        topology.root matches Some(root) ==> unflagged(root) && slot_sorted(root),
        map@.contains_key(key) <==> topology.picture(key) is Some,
        map@.contains_key(key) ==> encode.ensures((&map@[key],), topology.picture(key)->0),
{
    let shape = map.root.shape();
    let rel = |leaf: Leaf<Implicit, V>, picture: T| encode.ensures((&leaf.value,), picture);
    map.root.lemma_shape_wf();
    lemma_fixed_keyed::<K, V>(shape, 7);
    lemma_pictured_topology(topology, shape, rel, key, 7);
    if topology.root is Some {
        lemma_depicted_error(topology.root->0, shape, rel, 0, K::size(), 7);
    }
}

/// A map that was restored from a topology holds the keys of the topology,
/// each with a value that decodes what the topology holds, and no other keys.
pub proof fn law_restored<K: Key, V, T, F: Fn(T) -> V>(
    topology: Topology<T>,
    map: SequentialMap<K, V>,
    decode: F,
    key: Seq<u8>,
)
    requires
        map.wf(),
        pictures(
            topology,
            map.root.shape(),
            |leaf: Leaf<Implicit, V>, picture: T| decode.ensures((picture,), leaf.value),
        ),
    ensures
        map@.contains_key(key) <==> topology.picture(key) is Some,
        map@.contains_key(key) ==> decode.ensures((topology.picture(key)->0,), map@[key]),
{
    let rel = |leaf: Leaf<Implicit, V>, picture: T| decode.ensures((picture,), leaf.value);
    map.root.lemma_shape_wf();
    lemma_pictured_topology(topology, map.root.shape(), rel, key, 7);
}

/// A map restored from an exported topology holds the keys of the exported
/// map, each with a value that decodes what its own value was encoded as.
pub proof fn law_restored_contents<V, W, T>(
    topology: Topology<T>,
    exported: Shape<Leaf<Implicit, V>>,
    restored: Shape<Leaf<Implicit, W>>,
    encode: spec_fn(Leaf<Implicit, V>, T) -> bool,
    decode: spec_fn(Leaf<Implicit, W>, T) -> bool,
    key: Seq<u8>,
    max: nat,
)
    requires
        pictures(topology, exported, encode),
        pictures(topology, restored, decode),
        exported.wf(max),
        restored.wf(max),
    ensures
        contents(exported).contains_key(key) <==> contents(restored).contains_key(key),
        contents(exported).contains_key(key) ==> exists|picture: T| #[trigger]
            encode(exported.get(key)->0, picture) && #[trigger] decode(
                restored.get(key)->0,
                picture,
            ),
{
    if topology.root is Some {
        lemma_same_contents(topology.root->0, exported, restored, encode, decode, key, max);
    }
}

/// No fault is found exactly if no branch has one.
proof fn lemma_branches<V>(node: Node<V>, n: int, depth: nat, size: nat)
    requires
        0 <= n <= node.branches@.len(),
    ensures
        branches_error(node, n, depth, size) is None <==> forall|i: int|
            0 <= i < n ==> !node.repeats_key(i) && !node.misplaced(i) && edge_error(
                (#[trigger] node.branches@[i]).edge,
                depth + 1,
                size,
            ) is None,
    decreases n,
{
    if n > 0 {
        lemma_branches(node, n - 1, depth, size);
        let _ = node.branches@[n - 1];
    }
}

/// A topology is accepted exactly if its words are canonical, each value ends a
/// key of the right length, and each node lies before that length, has a branch,
/// has room for its slots and its branches, and has no byte and no slot twice; a
/// node with a slot per byte has each branch in the slot of its byte.
pub proof fn law_accepted<V>(edge: Edge<V>, depth: nat, size: nat)
    ensures
        edge_error(edge, depth, size) is None <==> {
            let path = depth + be_word_bytes(edge.metadata).len();
            &&& be_word_valid(edge.metadata)
            &&& match edge.child {
                Child::Value(_) => path == size,
                Child::Node(node) => {
                    let branches = node.branches@;
                    &&& path < size
                    &&& 0 < branches.len() <= node.slot_count
                    &&& node.slot_count <= (match node.kind {
                        NodeKind::Node3 => 3int,
                        NodeKind::Node15 => 15,
                        NodeKind::Node47 => 47,
                        NodeKind::Node256 => 256,
                    })
                    &&& node.kind is Node256 ==> node.slot_count == 256
                    &&& forall|i: int, j: int|
                        0 <= i < j < branches.len() ==> (#[trigger] branches[i]).key != (
                        #[trigger] branches[j]).key && branches[i].slot != branches[j].slot
                    &&& forall|i: int|
                        0 <= i < branches.len() ==> {
                            let branch = #[trigger] branches[i];
                            &&& branch.slot < node.slot_count
                            &&& node.kind is Node256 ==> branch.slot == branch.key
                            &&& edge_error(branch.edge, path + 1, size) is None
                        }
                },
            }
        },
{
    if let Child::Node(node) = edge.child {
        let branches = node.branches@;
        let path = depth + be_word_bytes(edge.metadata).len();
        lemma_branches(node, branches.len() as int, path, size);
        node.kind.law_kind();
        if branches_error(node, branches.len() as int, path, size) is None {
            assert forall|i: int, j: int| 0 <= i < j < branches.len() implies (
            #[trigger] branches[i]).key != (#[trigger] branches[j]).key && branches[i].slot
                != branches[j].slot by {
                assert(!node.repeats_key(j) && !node.misplaced(j));
                assert(node.branches@[i].key != node.branches@[j].key);
                assert(node.branches@[i].slot != node.branches@[j].slot);
            }
            assert forall|i: int| 0 <= i < branches.len() implies {
                let branch = #[trigger] branches[i];
                &&& branch.slot < node.slot_count
                &&& node.kind is Node256 ==> branch.slot == branch.key
                &&& edge_error(branch.edge, path + 1, size) is None
            } by {
                assert(!node.misplaced(i));
            }
        }
        if (forall|i: int, j: int|
            0 <= i < j < branches.len() ==> (#[trigger] branches[i]).key != (
            #[trigger] branches[j]).key && branches[i].slot != branches[j].slot) && (forall|i: int|
            0 <= i < branches.len() ==> {
                let branch = #[trigger] branches[i];
                &&& branch.slot < node.slot_count
                &&& node.kind is Node256 ==> branch.slot == branch.key
                &&& edge_error(branch.edge, path + 1, size) is None
            }) {
            assert forall|i: int| 0 <= i < branches.len() implies !node.repeats_key(i)
                && !node.misplaced(i) && edge_error(
                (#[trigger] node.branches@[i]).edge,
                path + 1,
                size,
            ) is None by {
                let branch = branches[i];
                if node.repeats_key(i) {
                    let j = choose|j: int|
                        0 <= j < i && #[trigger] node.branches@[j].key == node.branches@[i].key;
                    assert(branches[j].key != branches[i].key);
                }
                if exists|j: int|
                    0 <= j < i && #[trigger] node.branches@[j].slot == node.branches@[i].slot {
                    let j = choose|j: int|
                        0 <= j < i && #[trigger] node.branches@[j].slot == node.branches@[i].slot;
                    assert(branches[j].slot != branches[i].slot);
                }
            }
        }
    }
}

/// The fault that is reported of the branches of a node is that of the first
/// branch with a fault: a byte that an earlier branch has comes before a slot
/// that it cannot have, and that before a fault below it.
pub proof fn law_first_fault<V>(node: Node<V>, i: int, depth: nat, size: nat)
    requires
        0 <= i < node.branches@.len(),
        branches_error(node, i, depth, size) is None,
    ensures
        (exists|j: int| 0 <= j < i && (#[trigger] node.branches@[j]).key == node.branches@[i].key)
            ==> branches_error(node, node.branches@.len() as int, depth, size) == Some(
            Error::DuplicateKey { key: node.branches@[i].key },
        ),
        (forall|j: int| 0 <= j < i ==> (#[trigger] node.branches@[j]).key != node.branches@[i].key)
            && (node.branches@[i].slot >= node.slot_count || (exists|j: int|
            0 <= j < i && (#[trigger] node.branches@[j]).slot == node.branches@[i].slot)
            || node.kind is Node256 && node.branches@[i].slot != node.branches@[i].key)
            ==> branches_error(node, node.branches@.len() as int, depth, size) == Some(
            Error::InvalidSlot { kind: node.kind, slot: node.branches@[i].slot },
        ),
        !node.repeats_key(i) && !node.misplaced(i) && edge_error(
            node.branches@[i].edge,
            depth + 1,
            size,
        ) is Some ==> branches_error(node, node.branches@.len() as int, depth, size) == edge_error(
            node.branches@[i].edge,
            depth + 1,
            size,
        ),
{
    if exists|j: int|
        0 <= j < i && (#[trigger] node.branches@[j]).key == node.branches@[i].key {
        let j = choose|j: int|
            0 <= j < i && (#[trigger] node.branches@[j]).key == node.branches@[i].key;
        assert(node.branches@[j].key == node.branches@[i].key);
        assert(node.repeats_key(i));
    }
    if exists|j: int|
        0 <= j < i && (#[trigger] node.branches@[j]).slot == node.branches@[i].slot {
        let j = choose|j: int|
            0 <= j < i && (#[trigger] node.branches@[j]).slot == node.branches@[i].slot;
        assert(node.branches@[j].slot == node.branches@[i].slot);
        assert(node.misplaced(i));
    }
    if branches_error(node, i + 1, depth, size) is Some {
        lemma_first_error(node, i + 1, node.branches@.len() as int, depth, size);
    }
}

/// What is wrong with a single edge is reported before anything below it, and
/// another version before anything else.
pub proof fn law_fault<V>(topology: Topology<V>, edge: Edge<V>, depth: nat, size: nat)
    requires
        depth <= size <= 16,
    ensures
        topology.version != VERSION ==> topology_error(topology, size) == Some(
            Error::UnsupportedVersion { found: topology.version },
        ),
        topology.version == VERSION && topology.root is None ==> topology_error(topology, size)
            is None,
        topology.version == VERSION && topology.root is Some ==> topology_error(topology, size)
            == edge_error(topology.root->0, 0, size),
        !be_word_valid(edge.metadata) ==> edge_error(edge, depth, size) == Some(
            Error::InvalidMetadata { metadata: edge.metadata },
        ),
        be_word_valid(edge.metadata) ==> {
            let path = depth + be_word_bytes(edge.metadata).len();
            match edge.child {
                Child::Value(_) => path != size ==> edge_error(edge, depth, size) == Some(
                    Error::InvalidKeyLength { found: path as usize, expected: size as usize },
                ),
                Child::Node(node) => {
                    let most = if node.branches@.len() >= node.slot_count {
                        node.branches@.len() as int
                    } else {
                        node.slot_count as int
                    };
                    &&& path >= size ==> edge_error(edge, depth, size) == Some(
                        Error::InvalidKeyLength {
                            found: (path + 1) as usize,
                            expected: size as usize,
                        },
                    )
                    &&& path < size && node.branches@.len() == 0 ==> edge_error(edge, depth, size)
                        == Some(Error::EmptyNode)
                    &&& path < size && node.branches@.len() > 0 && (node.branches@.len()
                        > node.slot_count || node.slot_count > node.kind.kind().slots()
                        || node.kind is Node256 && node.slot_count != 256) ==> edge_error(
                        edge,
                        depth,
                        size,
                    ) == Some(Error::NodeCapacity { kind: node.kind, found: most as usize })
                },
            }
        },
{
}

/// A picture of a node records its type, how many slots it has, and one branch
/// for each of its children, in the child's slot and under its byte. The bytes on
/// the edge are in the word.
pub proof fn law_depicted<V, T>(edge: Edge<T>, shape: Shape<V>, rel: spec_fn(V, T) -> bool)
    requires
        depicts(edge, shape, rel),
        slot_sorted(edge),
    ensures
        shape !is Null,
        be_word_bytes(edge.metadata) == shape.prefix(),
        shape is Value <==> edge.child is Value,
        shape matches Shape::Value { value, .. } ==> rel(value, edge.child->Value_0),
        shape matches Shape::Node { kind, slots, .. } ==> {
            let node = edge.child->Node_0;
            &&& kind.slots() == node.kind.kind().slots()
            &&& node.slot_count == slots.len()
            &&& forall|i: int|
                0 <= i < slots.len() && (#[trigger] slots[i]).1 !is Null ==> exists|j: int|
                    0 <= j < node.branches@.len() && (#[trigger] node.branches@[j]).slot == i
                        && node.branches@[j].key == slots[i].0 && depicts(
                        node.branches@[j].edge,
                        slots[i].1,
                        rel,
                    )
            &&& forall|j: int|
                0 <= j < node.branches@.len() ==> (#[trigger] node.branches@[j]).slot < slots.len()
                    && slots[node.branches@[j].slot as int].1 !is Null
        },
{
    if let Child::Node(node) = edge.child {
        let slots = shape->slots;
        assert forall|i: int| 0 <= i < slots.len() && (#[trigger] slots[i]).1 !is Null implies exists|
            j: int,
        |
            0 <= j < node.branches@.len() && (#[trigger] node.branches@[j]).slot == i
                && node.branches@[j].key == slots[i].0 && depicts(
                node.branches@[j].edge,
                slots[i].1,
                rel,
            ) by {
            let j = choose|j: int|
                0 <= j < node.branches@.len() && #[trigger] node.branches@[j].slot == i;
            assert(node.branches@[j].slot == i);
        }
        assert forall|j: int| 0 <= j < node.branches@.len() implies (
        #[trigger] node.branches@[j]).slot < slots.len() && slots[node.branches@[j].slot as int].1
            !is Null by {
            let child = slots[node.branches@[j].slot as int].1;
            assert(depicts(node.branches@[j].edge, child, rel));
        }
    }
}


/// A copy is the same topology, where clones of values are the same values.
pub proof fn law_copied<V: Clone>(a: Edge<V>, b: Edge<V>)
    requires
        copied_edge(a, b),
        forall|x: V, y: V| #[trigger] cloned(x, y) ==> x == y,
    ensures
        same_edge(a, b),
    decreases a,
{
    if let (Child::Node(x), Child::Node(y)) = (a.child, b.child) {
        assert forall|j: int| 0 <= j < x.branches@.len() implies {
            let branch = #[trigger] x.branches@[j];
            &&& branch.key == y.branches@[j].key
            &&& branch.slot == y.branches@[j].slot
            &&& same_edge(branch.edge, y.branches@[j].edge)
        } by {
            assert(decreases_to!(a => x.branches@[j].edge));
            law_copied(x.branches@[j].edge, y.branches@[j].edge);
        }
    }
}

/// Topologies are the same if all that they record is: words, types, slots,
/// bytes, values, and all of it again below each branch.
pub proof fn law_same<T>(a: Edge<T>, b: Edge<T>, j: int)
    requires
        same_edge(a, b),
    ensures
        a.metadata == b.metadata,
        a.child is Value <==> b.child is Value,
        a.child is Value ==> a.child->Value_0 == b.child->Value_0,
        a.child is Node ==> {
            let x = a.child->Node_0;
            let y = b.child->Node_0;
            &&& x.kind == y.kind
            &&& x.slot_count == y.slot_count
            &&& x.branches@.len() == y.branches@.len()
            &&& 0 <= j < x.branches@.len() ==> x.branches@[j].key == y.branches@[j].key
                && x.branches@[j].slot == y.branches@[j].slot && same_edge(
                x.branches@[j].edge,
                y.branches@[j].edge,
            )
        },
{
    if let Child::Node(x) = a.child {
        if 0 <= j < x.branches@.len() {
            let _ = x.branches@[j];
        }
    }
}


} // verus!
