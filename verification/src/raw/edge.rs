//! Edges of the tree: compressed key bytes and what they lead to.
use vstd::prelude::*;
use crate::raw::node::Node;
use crate::raw::shape::Shape;

pub mod be;
pub mod le;
pub mod slice;

verus! {

/// Key bytes compressed into an edge.
pub trait Meta: Copy {
    /// Whether the representation is canonical.
    spec fn valid(&self) -> bool;

    /// The compressed bytes.
    spec fn bytes(&self) -> Seq<u8>;

    /// Most bytes that an edge can hold.
    spec fn max() -> nat;

    /// Valid metadata respects the capacity.
    proof fn lemma_valid(&self)
        requires
            self.valid(),
        ensures
            self.bytes().len() <= Self::max(),
            Self::max() <= 8191,
    ;

    /// Most bytes that an edge can hold.
    fn capacity() -> (capacity: usize)
        ensures
            capacity == Self::max(),
            capacity <= 8191,
    ;

    /// Metadata without bytes.
    fn null() -> (meta: Self)
        ensures
            meta.valid(),
            meta.bytes() == Seq::<u8>::empty(),
    ;

    /// Number of compressed bytes.
    fn len(&self) -> (len: usize)
        requires
            self.valid(),
        ensures
            len == self.bytes().len(),
    ;

    /// Compressed byte at `index`.
    fn get(&self, index: usize) -> (byte: u8)
        requires
            self.valid(),
            index < self.bytes().len(),
        ensures
            byte == self.bytes()[index as int],
    ;

    /// Join this edge, the radix byte of the node that it leads to and the
    /// node's only edge, unless the result would be too long.
    fn try_compress(&self, byte: u8, child: &Self) -> (joined: Option<Self>)
        requires
            self.valid(),
            child.valid(),
        ensures
            joined is Some <==> self.bytes().len() + 1 + child.bytes().len() <= Self::max(),
            joined matches Some(meta) ==> meta.valid() && meta.bytes() == self.bytes().push(byte)
                + child.bytes(),
    ;

    /// Split this edge around the byte at `index`, if there is one.
    fn try_expand(&self, index: usize) -> (parts: Option<(Self, u8, Self)>)
        requires
            self.valid(),
        ensures
            parts is Some <==> index < self.bytes().len(),
            parts matches Some((parent, byte, child)) ==> {
                &&& parent.valid()
                &&& child.valid()
                &&& parent.bytes() == self.bytes().take(index as int)
                &&& byte == self.bytes()[index as int]
                &&& child.bytes() == self.bytes().skip(index as int + 1)
            },
    ;
}

/// What leads from a node, or from the root, to a child.
pub enum Edge<M, V> {
    /// No child.
    Null,
    /// A value behind compressed bytes.
    Value { meta: M, value: V },
    /// A node behind compressed bytes.
    Node { meta: M, node: Box<Node<M, V>> },
}

impl<M: Meta, V> Edge<M, V> {
    /// Structural validity of the whole subtree.
    pub open spec fn wf(self) -> bool
        decreases self,
    {
        match self {
            Edge::Null => true,
            Edge::Value { meta, .. } => meta.valid(),
            Edge::Node { meta, node } => {
                &&& meta.valid()
                &&& node.header.wf()
                &&& !node.header.frozen()
                &&& node.edges@.len() == node.header@.len()
                &&& forall|i: int| 0 <= i < node.edges@.len() ==> (#[trigger] node.edges@[i]).wf()
            },
        }
    }

    /// What the edge leads to.
    pub open spec fn shape(self) -> Shape<V>
        decreases self,
    {
        match self {
            Edge::Null => Shape::Null,
            Edge::Value { meta, value } => Shape::Value { prefix: meta.bytes(), value },
            Edge::Node { meta, node } => Shape::Node {
                prefix: meta.bytes(),
                kind: node.header.kind(),
                slots: Seq::new(
                    node.edges@.len(),
                    |i: int|
                        if 0 <= i < node.edges@.len() {
                            (node.header@[i], node.edges@[i].shape())
                        } else {
                            arbitrary()
                        },
                ),
            },
        }
    }

    /// A sound edge has a sound shape.
    pub proof fn lemma_shape_wf(&self)
        requires
            self.wf(),
        ensures
            self.shape().wf(M::max()),
        decreases self,
    {
        match self {
            Edge::Null => {},
            Edge::Value { meta, .. } => meta.lemma_valid(),
            Edge::Node { meta, node } => {
                meta.lemma_valid();
                node.header.lemma_wf();
                let slots = self.shape()->slots;
                assert forall|i: int| 0 <= i < slots.len() implies (#[trigger] slots[i]).1.wf(
                    M::max(),
                ) by {
                    assert(slots[i].1 == node.edges@[i].shape());
                    assert(node.edges@[i].wf());
                    node.edges@[i].lemma_shape_wf();
                }
                assert forall|i: int, j: int|
                    0 <= i < slots.len() && 0 <= j < slots.len() && #[trigger] slots[i].0
                        == #[trigger] slots[j].0 implies i == j by {
                    assert(node.header@[i] == node.header@[j]);
                }
            },
        }
    }

    /// Whether there is no child.
    pub fn is_null(&self) -> (null: bool)
        ensures
            null == (self.shape() is Null),
    {
        matches!(self, Edge::Null)
    }
}

/// An edge holds up to seven bytes itself, or refers to up to 8191 bytes of a key.
pub proof fn law_capacity()
    ensures
        be::Be::max() == 7,
        le::Le::max() == 7,
        <slice::Slice<'static> as Meta>::max() == 8191,
{
}


} // verus!
