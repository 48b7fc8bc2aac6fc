//! Traversal of the tree for point operations.
use vstd::pervasive::unreached;
use vstd::prelude::*;
use crate::bytes::{common_len, diverge, lemma_common_len, lemma_common_len_prefix};
use crate::raw::edge::{Edge, Meta};
use crate::raw::key::Read;
use crate::raw::node::{zip, Node, Type};
use crate::raw::shape::entries::{
    beginning, extend, lemma_beginning_edge, lemma_beginning_node, lemma_beginning_none,
    lemma_extend_empty, lemma_extend_twice,
};
use crate::raw::shape::laws::{
    lemma_build, lemma_descends, lemma_holds, lemma_index, lemma_live, lemma_node_get,
    lemma_replace,
};
use crate::raw::shape::{at, descends, holds, index, live, lookup, path, rest, unique, Shape};
use crate::raw::Smo;

verus! {

/// How the bytes of an edge meet a key.
proof fn lemma_match(prefix: Seq<u8>, key: Seq<u8>)
    ensures
        common_len(prefix, key) <= prefix.len(),
        common_len(prefix, key) <= key.len(),
        common_len(prefix, key) == prefix.len() && prefix.len() < key.len() <==> descends(
            prefix,
            key,
        ),
        common_len(prefix, key) == prefix.len() && prefix.len() == key.len() <==> prefix == key,
        common_len(prefix, key) < prefix.len() && common_len(prefix, key) < key.len() <==> diverge(
            prefix,
            key,
        ),
{
    lemma_common_len(prefix, key);
    lemma_common_len_prefix(prefix, key);
    if prefix == key {
        assert(key.subrange(0, key.len() as int) =~= key);
    }
}

impl<M: Meta, V> Edge<M, V> {
    /// The slots of a node edge.
    proof fn lemma_slots(&self)
        requires
            self is Node,
        ensures
            self.shape() == (Shape::Node {
                prefix: self->Node_meta.bytes(),
                kind: self->node.header.kind(),
                slots: self->node.slots(),
            }),
            self.wf() ==> self->node.wf(),
            self->Node_meta.valid() && self->node.wf() ==> self.wf(),
            self.wf() ==> unique(self->node.slots()),
    {
        assert(self.shape()->slots =~= self->node.slots());
        if self.wf() {
            self.lemma_shape_wf();
        }
    }

    /// Value associated with the key.
    pub fn get<R: Read<Edge = M>>(&self, reader: R) -> (value: Option<&V>)
        requires
            self.wf(),
            reader.valid(),
        ensures
            self.shape().get(reader.bytes()) == (match value {
                Some(value) => Some(*value),
                None => None,
            }),
    {
        let mut edge = self;
        let mut rest = reader;
        loop
            invariant
                edge.wf(),
                rest.valid(),
                edge.shape().get(rest.bytes()) == self.shape().get(reader.bytes()),
            decreases rest.bytes().len(),
        {
            match edge {
                Edge::Null => {
                    return None;
                },
                Edge::Value { meta, value } => {
                    let len: usize = rest.match_prefix(meta);
                    proof {
                        lemma_match(meta.bytes(), rest.bytes());
                    }
                    if len == meta.len() && len == rest.len() {
                        return Some(value);
                    }
                    return None;
                },
                Edge::Node { meta, node } => {
                    let len: usize = rest.match_prefix(meta);
                    proof {
                        rest.lemma_len();
                        edge.lemma_slots();
                        lemma_match(meta.bytes(), rest.bytes());
                        lemma_node_get(
                            meta.bytes(),
                            node.header.kind(),
                            node.slots(),
                            rest.bytes(),
                        );
                    }
                    if len != meta.len() {
                        return None;
                    }
                    let byte: u8 = match rest.get_byte(len) {
                        Some(byte) => byte,
                        None => {
                            return None;
                        },
                    };
                    let slot: u8 = match node.header.get(byte) {
                        Some(slot) => slot,
                        None => {
                            proof {
                                node.lemma_no_slot(byte);
                            }
                            return None;
                        },
                    };
                    proof {
                        lemma_index(node.slots(), slot as int, byte);
                    }
                    edge = &node.edges[slot as usize];
                    rest = rest.suffix(len + 1);
                },
            }
        }
    }

    /// Root of the subtree whose keys begin with the prefix, if there are any.
    ///
    /// Also returns how many bytes of the prefix lead to it.
    pub fn traverse_prefix<R: Read<Edge = M>>(&self, prefix: R) -> (subtree: Option<
        (&Self, usize),
    >)
        requires
            self.wf(),
            prefix.valid(),
        ensures
            match subtree {
                Some((edge, len)) => {
                    &&& edge.wf()
                    &&& len <= prefix.bytes().len()
                    &&& beginning(self.shape().entries(), prefix.bytes()) == extend(
                        prefix.bytes().take(len as int),
                        edge.shape().entries(),
                    )
                },
                None => beginning(self.shape().entries(), prefix.bytes()).len() == 0,
            },
    {
        broadcast use lemma_node_shape;

        let ghost whole = prefix.bytes();
        let ghost entries = beginning(self.shape().entries(), whole);
        let mut edge = self;
        let mut left = prefix;
        let mut len: usize = 0;
        proof {
            lemma_extend_empty(entries);
            assert(whole.take(0) =~= Seq::<u8>::empty());
            assert(whole.skip(0) =~= whole);
        }
        loop
            invariant
                edge.wf(),
                left.valid(),
                prefix.valid(),
                whole == prefix.bytes(),
                len <= whole.len(),
                left.bytes() == whole.skip(len as int),
                entries == beginning(self.shape().entries(), whole),
                entries == extend(
                    whole.take(len as int),
                    beginning(edge.shape().entries(), left.bytes()),
                ),
            decreases left.bytes().len(),
        {
            broadcast use lemma_node_shape;

            let meta = match edge {
                Edge::Null => {
                    proof {
                        lemma_beginning_none(edge.shape().entries(), left.bytes());
                    }
                    return None;
                },
                Edge::Value { meta, .. } => meta,
                Edge::Node { meta, .. } => meta,
            };
            let common: usize = left.match_prefix(meta);
            proof {
                prefix.lemma_len();
                lemma_common_len(meta.bytes(), left.bytes());
                lemma_match(meta.bytes(), left.bytes());
                lemma_beginning_edge(edge.shape(), left.bytes());
            }
            if common == left.len() {
                return Some((edge, len));
            }
            match edge {
                Edge::Node { node, .. } => {
                    if common != meta.len() {
                        return None;
                    }
                    let byte: u8 = match left.get_byte(common) {
                        Some(byte) => byte,
                        None => unreached(),
                    };
                    proof {
                        edge.lemma_slots();
                        lemma_beginning_node(edge.shape(), left.bytes(), 256);
                    }
                    let slot: u8 = match node.header.get(byte) {
                        Some(slot) => slot,
                        None => {
                            proof {
                                node.lemma_no_slot(byte);
                            }
                            return None;
                        },
                    };
                    proof {
                        lemma_index(node.slots(), slot as int, byte);
                        lemma_extend_twice(
                            whole.take(len as int),
                            meta.bytes().push(byte),
                            beginning(
                                node.slots()[slot as int].1.entries(),
                                rest(meta.bytes(), left.bytes()),
                            ),
                        );
                        lemma_descends(meta.bytes(), left.bytes());
                        assert(whole.take(len as int + common + 1) =~= whole.take(len as int)
                            + meta.bytes().push(byte));
                        assert(whole.skip(len as int + common + 1) =~= left.bytes().skip(
                            common as int + 1,
                        ));
                    }
                    left = left.suffix(common + 1);
                    len = len + common + 1;
                    edge = &node.edges[slot as usize];
                },
                _ => {
                    return None;
                },
            }
        }
    }

    /// Value associated with the key, for modification.
    pub fn get_mut<R: Read<Edge = M>>(&mut self, reader: R) -> (value: Option<&mut V>)
        requires
            old(self).wf(),
            reader.valid(),
        ensures
            final(self).wf(),
            match value {
                Some(value) => old(self).shape().get(reader.bytes()) == Some(*value)
                    && final(self).shape() == old(self).shape().insert(
                    reader.bytes(),
                    *final(value),
                    M::max(),
                ),
                None => old(self).shape().get(reader.bytes()) is None && final(self).shape() == old(
                    self,
                ).shape(),
            },
        decreases reader.bytes().len(),
    {
        broadcast use lemma_node_shape;

        let ghost before = *self;
        match self {
            Edge::Null => None,
            Edge::Value { meta, value } => {
                let len: usize = reader.match_prefix(meta);
                proof {
                    lemma_match(meta.bytes(), reader.bytes());
                }
                if len == meta.len() && len == reader.len() {
                    Some(value)
                } else {
                    None
                }
            },
            Edge::Node { meta, node } => {
                let len: usize = reader.match_prefix(meta);
                proof {
                    reader.lemma_len();
                    before.lemma_slots();
                    lemma_match(meta.bytes(), reader.bytes());
                    lemma_node_get(meta.bytes(), node.header.kind(), node.slots(), reader.bytes());
                }
                if len != meta.len() {
                    return None;
                }
                let byte: u8 = match reader.get_byte(len) {
                    Some(byte) => byte,
                    None => {
                        return None;
                    },
                };
                let slot: u8 = match node.header.get(byte) {
                    Some(slot) => slot,
                    None => {
                        proof {
                            node.lemma_no_slot(byte);
                        }
                        return None;
                    },
                };
                proof {
                    let slots = node.slots();
                    lemma_index(slots, slot as int, byte);
                    assert(slots.update(slot as int, slots[slot as int]) =~= slots);
                }
                node.child_mut(slot).get_mut(reader.suffix(len + 1))
            },
        }
    }
}

/// What stands in the way of a key that is to be inserted.
enum Step {
    /// Nothing: the edge has no child.
    Create,
    /// Its own value.
    Update,
    /// An edge that departs from the key.
    Expand,
    /// An edge below, in `slot`, after `len` bytes.
    Descend { len: usize, slot: u8 },
    /// A node without the next byte, and with room for it.
    Attach,
    /// A node without the next byte, and without room.
    Replace,
}

impl<M: Meta, V> Edge<M, V> {
    /// Compressed bytes of an edge with a child.
    fn meta(&self) -> (meta: &M)
        requires
            self.wf(),
            self.shape() !is Null,
        ensures
            meta.valid(),
            meta.bytes() == self.shape().prefix(),
    {
        match self {
            Edge::Null => unreached(),
            Edge::Value { meta, .. } => meta,
            Edge::Node { meta, .. } => meta,
        }
    }

    /// The same child behind other bytes.
    fn with_meta(self, meta: M) -> (edge: Self)
        requires
            self.wf(),
            meta.valid(),
        ensures
            edge.wf(),
            edge.shape() == self.shape().with_prefix(meta.bytes()),
    {
        broadcast use lemma_node_shape;

        match self {
            Edge::Null => Edge::Null,
            Edge::Value { meta: _, value } => Edge::Value { meta, value },
            Edge::Node { meta: _, node } => Edge::Node { meta, node },
        }
    }

    /// Edge that leads to `value` along the bytes of `reader`.
    ///
    /// Creates nodes recursively if the remaining key is long.
    fn new_path<R: Read<Edge = M>>(reader: R, value: V) -> (edge: Self)
        requires
            reader.valid(),
        ensures
            edge.wf(),
            edge.shape() == path(reader.bytes(), value, M::max()),
        decreases reader.bytes().len(),
    {
        broadcast use lemma_node_shape;

        let len: usize = reader.len();
        let capacity: usize = M::capacity();
        if len <= capacity {
            let meta = reader.get_edge(len);
            assert(reader.bytes().take(len as int) =~= reader.bytes());
            return Edge::Value { meta, value };
        }
        let meta = reader.get_edge(capacity);
        let byte: u8 = match reader.get_byte(capacity) {
            Some(byte) => byte,
            None => unreached(),
        };
        let child = Self::new_path(reader.suffix(capacity + 1), value);
        let mut keys: Vec<u8> = Vec::new();
        let mut edges: Vec<Self> = Vec::new();
        keys.push(byte);
        edges.push(child);
        let node = Node::new_exact(Type::Node3, keys, edges);
        assert(node.slots() =~= seq![(byte, child.shape())]);
        Edge::Node { meta, node: Box::new(node) }
    }

    /// The value at the end of a fresh path.
    fn path_mut(&mut self, key: Ghost<Seq<u8>>, value: Ghost<V>) -> (end: &mut V)
        requires
            old(self).wf(),
            old(self).shape() == path(key@, value@, M::max()),
        ensures
            *end == value@,
            final(self).wf(),
            final(self).shape() == path(key@, *final(end), M::max()),
        decreases key@.len(),
    {
        broadcast use lemma_node_shape;

        let ghost max = M::max() as int;
        match self {
            Edge::Null => unreached(),
            Edge::Value { meta, value } => value,
            Edge::Node { meta, node } => {
                assert forall|v: Shape<V>|
                    #![trigger node.slots().update(0, (key@[max], v))]
                    node.slots().update(0, (key@[max], v)) =~= seq![(key@[max], v)] by {}
                assert(node.slots()[0] == (
                    key@[max],
                    path(key@.skip(max + 1), value@, M::max()),
                ));
                node.child_mut(0).path_mut(Ghost(key@.skip(max + 1)), value)
            },
        }
    }

    /// Rewrite a node without its null slots, as a larger node, as a smaller
    /// node or as a longer edge.
    pub fn replace(&mut self) -> (smo: Smo)
        requires
            old(self).wf(),
            old(self).shape() is Node,
        ensures
            final(self).wf(),
            final(self).shape() == old(self).shape().replace(M::max()),
            ({
                let entries = live(old(self).shape()->kind, old(self).shape()->slots);
                smo == (if entries.len() == 0 {
                    Smo::DeleteNode
                } else if Shape::<V>::compresses(old(self).shape().prefix(), entries, M::max()) {
                    Smo::CompressEdge
                } else {
                    Smo::ReplaceNode
                })
            }),
    {
        broadcast use lemma_node_shape;

        let mut edge = Edge::Null;
        core::mem::swap(self, &mut edge);
        match edge {
            Edge::Node { meta, node } => {
                let node: Node<M, V> = *node;
                let capacity: usize = node.header.node_type().capacity();
                let (keys, mut edges) = node.into_entries();
                let len: usize = keys.len();
                let ghost entries = zip(keys@, edges@);
                if len == 0 {
                    return Smo::DeleteNode;
                }
                if len == 1 {
                    let byte: u8 = keys[0];
                    assert(entries[0] == (byte, edges@[0].shape()));
                    proof {
                        old(self).lemma_shape_wf();
                        lemma_live(old(self).shape()->kind, old(self).shape()->slots);
                    }
                    if let Some(joined) = meta.try_compress(byte, edges[0].meta()) {
                        let child = match edges.pop() {
                            Some(child) => child,
                            None => unreached(),
                        };
                        *self = child.with_meta(joined);
                        return Smo::CompressEdge;
                    }
                }
                proof {
                    lemma_no_duplicates_len(keys@);
                }
                // Heuristic: assume a full node should be expanded.
                let node = Node::new_unchecked(len == capacity, keys, edges);
                *self = Edge::Node { meta, node: Box::new(node) };
                Smo::ReplaceNode
            },
            _ => unreached(),
        }
    }
}

impl<M: Meta, V> Edge<M, V> {
    /// Split the edge where the key departs from it.
    fn expand<R: Read<Edge = M>>(&mut self, reader: R, value: V) -> (new: &mut V)
        requires
            old(self).wf(),
            old(self).shape() !is Null,
            reader.valid(),
            diverge(old(self).shape().prefix(), reader.bytes()),
        ensures
            *new == value,
            final(self).wf(),
            final(self).shape() == old(self).shape().expand(
                reader.bytes(),
                *final(new),
                M::max(),
            ),
    {
        broadcast use lemma_node_shape;

        let ghost key = reader.bytes();
        let ghost v = value;
        let mut edge = Edge::Null;
        core::mem::swap(self, &mut edge);
        let len: usize = reader.match_prefix(edge.meta());
        proof {
            reader.lemma_len();
            lemma_match(edge.shape().prefix(), key);
        }
        let (parent, old_byte, old_meta) = match edge.meta().try_expand(len) {
            Some(parts) => parts,
            None => unreached(),
        };
        let new_byte: u8 = match reader.get_byte(len) {
            Some(byte) => byte,
            None => unreached(),
        };
        let new_edge = Self::new_path(reader.suffix(len + 1), value);
        let old_edge = edge.with_meta(old_meta);
        let ghost new_entry = (new_byte, new_edge.shape());
        let ghost old_entry = (old_byte, old_edge.shape());
        proof {
            lemma_common_len(old(self).shape().prefix(), key);
        }
        let mut keys: Vec<u8> = Vec::new();
        keys.push(new_byte);
        keys.push(old_byte);
        let mut edges: Vec<Self> = Vec::new();
        edges.push(new_edge);
        edges.push(old_edge);
        let mut node = Node::new_exact(Type::Node3, keys, edges);
        let ghost slots = node.slots();
        proof {
            assert(slots =~= seq![new_entry, old_entry]);
            assert forall|e: (u8, Shape<V>)| #[trigger] slots.update(0, e) =~= seq![
                e,
                old_entry,
            ] by {}
        }
        *self = Edge::Node { meta: parent, node: Box::new(node) };
        match self {
            Edge::Node { node, .. } => {
                assert(node.slots()[0] == new_entry);
                node.child_mut(0).path_mut(Ghost(key.skip(len as int + 1)), Ghost(v))
            },
            _ => unreached(),
        }
    }

    /// Add the key to a node that does not hold its next byte, or that holds
    /// it with a null edge.
    fn attach<R: Read<Edge = M>>(&mut self, reader: R, value: V) -> (new: &mut V)
        requires
            old(self).wf(),
            old(self).shape() is Node,
            reader.valid(),
            descends(old(self).shape().prefix(), reader.bytes()),
            lookup(
                old(self).shape()->slots,
                reader.bytes()[old(self).shape().prefix().len() as int],
            ) is Null,
            old(self).shape()->kind is Node256 || old(self).shape()->slots.len() < old(
                self,
            ).shape()->kind.slots(),
        ensures
            *new == value,
            final(self).wf(),
            final(self).shape() == old(self).shape().attach(
                reader.bytes(),
                *final(new),
                M::max(),
            ),
    {
        broadcast use lemma_node_shape;

        let ghost key = reader.bytes();
        let ghost v = value;
        proof {
            self.lemma_slots();
        }
        match self {
            Edge::Node { meta, node } => {
                let len: usize = meta.len();
                let ghost slots = node.slots();
                proof {
                    reader.lemma_len();
                    node.header.lemma_wf();
                }
                let byte: u8 = match reader.get_byte(len) {
                    Some(byte) => byte,
                    None => unreached(),
                };
                let child = Self::new_path(reader.suffix(len + 1), value);
                let ghost entry = (byte, child.shape());
                let ghost before = **node;
                proof {
                    if node.header@.contains(byte) {
                        let i = node.header@.index_of(byte);
                        assert(at(slots, i, byte));
                        lemma_index(slots, i, byte);
                    } else {
                        node.lemma_no_slot(byte);
                        if node.header.kind() is Node256 {
                            assert(crate::raw::node::node_256::all_keys()[byte as int] == byte);
                        }
                    }
                }
                let slot: u8 = match node.header.get_or_insert(byte) {
                    Some(slot) => slot,
                    None => unreached(),
                };
                if (slot as usize) < node.edges.len() {
                    node.edges[slot as usize] = child;
                    proof {
                        assert(before.header@[slot as int] == node.header@[slot as int]);
                        assert(at(slots, slot as int, byte));
                        lemma_index(slots, slot as int, byte);
                        assert(node.slots() =~= slots.update(slot as int, entry));
                        assert forall|e: (u8, Shape<V>)| #[trigger] node.slots().update(
                            slot as int,
                            e,
                        ) =~= slots.update(slot as int, e) by {}
                    }
                } else {
                    node.edges.push(child);
                    proof {
                        assert(!before.header@.contains(byte));
                        assert(node.slots() =~= slots.push(entry));
                        assert forall|e: (u8, Shape<V>)| #[trigger] node.slots().update(
                            slot as int,
                            e,
                        ) =~= slots.push(e) by {}
                    }
                }
                assert(node.slots()[slot as int] == entry);
                node.child_mut(slot).path_mut(Ghost(key.skip(len as int + 1)), Ghost(v))
            },
            _ => unreached(),
        }
    }

    /// Find what stands in the way of inserting the key at this edge.
    fn step<R: Read<Edge = M>>(&self, reader: R) -> (step: Step)
        requires
            self.wf(),
            reader.valid(),
            self.shape().accepts(reader.bytes()),
        ensures
            match step {
                Step::Create => self.shape() is Null,
                Step::Update => self.shape() is Value && self.shape().prefix() == reader.bytes(),
                Step::Expand => self.shape() !is Null && diverge(
                    self.shape().prefix(),
                    reader.bytes(),
                ) && !descends(self.shape().prefix(), reader.bytes()),
                Step::Descend { len, slot } => {
                    &&& self.shape() is Node
                    &&& len == self.shape().prefix().len()
                    &&& descends(self.shape().prefix(), reader.bytes())
                    &&& at(self.shape()->slots, slot as int, reader.bytes()[len as int])
                },
                Step::Attach | Step::Replace => {
                    &&& self.shape() is Node
                    &&& descends(self.shape().prefix(), reader.bytes())
                    &&& !holds(
                        self.shape()->slots,
                        reader.bytes()[self.shape().prefix().len() as int],
                    )
                    &&& step is Attach <==> self.shape()->slots.len() < self.shape()->kind.slots()
                },
            },
    {
        broadcast use lemma_node_shape;

        match self {
            Edge::Null => Step::Create,
            Edge::Value { meta, .. } => {
                let len: usize = reader.match_prefix(meta);
                proof {
                    lemma_match(meta.bytes(), reader.bytes());
                }
                if len == meta.len() {
                    Step::Update
                } else {
                    Step::Expand
                }
            },
            Edge::Node { meta, node } => {
                let len: usize = reader.match_prefix(meta);
                proof {
                    lemma_match(meta.bytes(), reader.bytes());
                    node.header.lemma_wf();
                }
                if len != meta.len() {
                    return Step::Expand;
                }
                let byte: u8 = match reader.get_byte(len) {
                    Some(byte) => byte,
                    None => unreached(),
                };
                match node.header.get(byte) {
                    Some(slot) => {
                        assert(at(node.slots(), slot as int, byte));
                        Step::Descend { len, slot }
                    },
                    None => {
                        proof {
                            node.lemma_no_slot(byte);
                        }
                        if node.header.len() < node.header.node_type().capacity() {
                            Step::Attach
                        } else {
                            Step::Replace
                        }
                    },
                }
            },
        }
    }

    /// Associate the key with `value`.
    pub fn insert<R: Read<Edge = M>>(&mut self, reader: R, value: V) -> (new: &mut V)
        requires
            old(self).wf(),
            reader.valid(),
            old(self).shape().accepts(reader.bytes()),
        ensures
            *new == value,
            final(self).wf(),
            final(self).shape() == old(self).shape().insert(
                reader.bytes(),
                *final(new),
                M::max(),
            ),
        decreases reader.bytes().len(),
    {
        broadcast use lemma_node_shape;

        let ghost key = reader.bytes();
        let ghost v = value;
        let ghost before = *self;
        proof {
            reader.lemma_len();
            self.lemma_shape_wf();
        }
        match self.step(reader) {
            Step::Create => {
                *self = Self::new_path(reader, value);
                self.path_mut(Ghost(key), Ghost(v))
            },
            Step::Update => match self {
                Edge::Value { meta, value: new } => {
                    *new = value;
                    new
                },
                _ => unreached(),
            },
            Step::Expand => {
                assert(before.shape() is Value ==> before.shape().prefix() != key) by {
                    lemma_match(key, key);
                }
                self.expand(reader, value)
            },
            Step::Descend { len, slot } => match self {
                Edge::Node { meta, node } => {
                    proof {
                        lemma_index(before.shape()->slots, slot as int, key[len as int]);
                        lemma_node_get(meta.bytes(), node.header.kind(), node.slots(), key);
                    }
                    node.child_mut(slot).insert(reader.suffix(len + 1), value)
                },
                _ => unreached(),
            },
            Step::Attach => self.attach(reader, value),
            Step::Replace => {
                let ghost entries = live(before.shape()->kind, before.shape()->slots);
                let ghost b = key[before.shape().prefix().len() as int];
                let smo = self.replace();
                proof {
                    lemma_live(before.shape()->kind, before.shape()->slots);
                    lemma_replace(before.shape(), M::max());
                    lemma_replaced(before.shape(), key, M::max());
                }
                match smo {
                    Smo::DeleteNode => {
                        *self = Self::new_path(reader, value);
                        self.path_mut(Ghost(key), Ghost(v))
                    },
                    Smo::CompressEdge => self.expand(reader, value),
                    Smo::ReplaceNode => self.attach(reader, value),
                }
            },
        }
    }

    /// Remove the key.
    ///
    /// Returns its value, and whether the node above is to be looked at.
    pub fn remove<R: Read<Edge = M>>(&mut self, reader: R, recursive: bool) -> (removed: (
        Option<V>,
        bool,
    ))
        requires
            old(self).wf(),
            reader.valid(),
        ensures
            removed.0 == old(self).shape().get(reader.bytes()),
            final(self).wf(),
            (final(self).shape(), removed.1) == old(self).shape().remove(
                reader.bytes(),
                recursive,
                M::max(),
            ),
        decreases reader.bytes().len(),
    {
        broadcast use lemma_node_shape;

        let ghost key = reader.bytes();
        let ghost before = *self;
        let removed = match self {
            Edge::Null => {
                return (None, false);
            },
            Edge::Value { meta, .. } => {
                let len: usize = reader.match_prefix(meta);
                proof {
                    lemma_match(meta.bytes(), reader.bytes());
                }
                if len != meta.len() || len != reader.len() {
                    return (None, false);
                }
                let mut edge = Edge::Null;
                core::mem::swap(self, &mut edge);
                return match edge {
                    Edge::Value { value, .. } => (Some(value), recursive),
                    _ => unreached(),
                };
            },
            Edge::Node { meta, node } => {
                let len: usize = reader.match_prefix(meta);
                proof {
                    reader.lemma_len();
                    before.lemma_slots();
                    lemma_match(meta.bytes(), reader.bytes());
                    lemma_node_get(meta.bytes(), node.header.kind(), node.slots(), reader.bytes());
                }
                if len != meta.len() {
                    return (None, false);
                }
                let byte: u8 = match reader.get_byte(len) {
                    Some(byte) => byte,
                    None => {
                        return (None, false);
                    },
                };
                let slot: u8 = match node.header.get(byte) {
                    Some(slot) => slot,
                    None => {
                        proof {
                            node.lemma_no_slot(byte);
                        }
                        return (None, false);
                    },
                };
                proof {
                    lemma_index(node.slots(), slot as int, byte);
                }
                let (value, up) = node.child_mut(slot).remove(reader.suffix(len + 1), recursive);
                if !up || node.len() > 1 {
                    return (value, false);
                }
                value
            },
        };
        let _ = self.replace();
        (removed, true)
    }
}

/// What is left of a node that lacks the next byte of a key lacks it too.
proof fn lemma_replaced<V>(shape: Shape<V>, key: Seq<u8>, max: nat)
    requires
        shape is Node,
        shape.wf(max),
        descends(shape.prefix(), key),
        !holds(shape->slots, key[shape.prefix().len() as int]),
    ensures
        ({
            let entries = live(shape->kind, shape->slots);
            if entries.len() == 0 {
                true
            } else if Shape::<V>::compresses(shape.prefix(), entries, max) {
                diverge(shape.replace(max).prefix(), key) && shape.replace(max) !is Null
            } else {
                lookup(shape.replace(max)->slots, key[shape.prefix().len() as int]) is Null
            }
        }),
{
    let b = key[shape.prefix().len() as int];
    let entries = live(shape->kind, shape->slots);
    lemma_live(shape->kind, shape->slots);
    lemma_replace(shape, max);
    if entries.len() == 0 {
    } else if Shape::<V>::compresses(shape.prefix(), entries, max) {
        let (c, child) = entries[0];
        assert(holds(shape->slots, c));
        let joined = shape.prefix().push(c) + child.prefix();
        assert(joined[shape.prefix().len() as int] == c);
        crate::bytes::lemma_diverge_at(joined, key, shape.prefix().len() as int);
    } else {
        lemma_build(shape.replace(max)->kind, entries);
        assert(lookup(shape.replace(max)->slots, b) == lookup(entries, b));
        assert(lookup(entries, b) == lookup(shape->slots, b));
    }
}

/// There are only so many distinct bytes.
pub proof fn lemma_no_duplicates_len(keys: Seq<u8>)
    requires
        keys.no_duplicates(),
    ensures
        keys.len() <= 256,
{
    keys.unique_seq_to_set();
    let all = vstd::set_lib::set_int_range(0, 256);
    vstd::set_lib::lemma_int_range(0, 256);
    let ints = keys.map_values(|b: u8| b as int);
    assert(ints.no_duplicates()) by {
        assert forall|i: int, j: int| 0 <= i < ints.len() && 0 <= j < ints.len() && i != j implies ints[i]
            != ints[j] by {
            assert(keys[i] != keys[j]);
        }
    }
    ints.unique_seq_to_set();
    assert(ints.to_set().subset_of(all));
    vstd::set_lib::lemma_len_subset(ints.to_set(), all);
}

/// The slots of a node edge are those of its node.
pub broadcast proof fn lemma_node_shape<M: Meta, V>(edge: Edge<M, V>)
    requires
        edge is Node,
    ensures
        #[trigger] edge.shape() == (Shape::Node {
            prefix: edge->Node_meta.bytes(),
            kind: edge->node.header.kind(),
            slots: edge->node.slots(),
        }),
{
    assert(edge.shape()->slots =~= edge->node.slots());
}

impl<M: Meta, V> Node<M, V> {
    /// Edge in a slot, for modification.
    fn child_mut(&mut self, slot: u8) -> (child: &mut Edge<M, V>)
        requires
            old(self).wf(),
            slot < old(self).edges@.len(),
        ensures
            *child == old(self).edges@[slot as int],
            final(self).header == old(self).header,
            final(child).wf() ==> final(self).wf(),
            final(self).slots() == old(self).slots().update(
                slot as int,
                (old(self).header@[slot as int], final(child).shape()),
            ),
    {
        &mut self.edges[slot as usize]
    }

    /// A byte that the header does not hold has no slot.
    proof fn lemma_no_slot(&self, byte: u8)
        requires
            self.wf(),
            !self.header@.contains(byte),
        ensures
            !holds(self.slots(), byte),
            lookup(self.slots(), byte) is Null,
    {
        if holds(self.slots(), byte) {
            lemma_holds(self.slots(), byte);
            assert(self.header@[index(self.slots(), byte)] == byte);
        }
    }
}

} // verus!
