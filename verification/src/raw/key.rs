//! Abstraction over various key types.
//!
//! The maps of this crate are backed by a radix tree, which accepts keys
//! represented by a sequence of bytes. Keys must satisfy the **prefix
//! property**: no key is a prefix of another key.
use vstd::prelude::*;
use crate::bytes::{common_len, diverge};
use crate::raw::edge::Meta;

pub mod dynamic;
pub mod laws;
pub mod unsigned;

verus! {

/// Tracks the bytes of a key that are still to be read.
pub trait Read: Copy {
    type Edge: Meta;

    /// Whether the representation is canonical.
    spec fn valid(self) -> bool;

    /// The bytes that are left.
    spec fn bytes(self) -> Seq<u8>;

    /// Keys fit in memory.
    proof fn lemma_len(self)
        requires
            self.valid(),
        ensures
            self.bytes().len() <= usize::MAX,
    ;

    /// Reader without bytes.
    fn empty() -> (reader: Self)
        ensures
            reader.valid(),
            reader.bytes() == Seq::<u8>::empty(),
    ;

    /// Number of bytes that are left.
    fn len(self) -> (len: usize)
        requires
            self.valid(),
        ensures
            len == self.bytes().len(),
    ;

    /// Byte at `index`, if the key is that long.
    fn get_byte(self, index: usize) -> (byte: Option<u8>)
        requires
            self.valid(),
        ensures
            byte == (if index < self.bytes().len() {
                Some(self.bytes()[index as int])
            } else {
                None
            }),
    ;

    /// Compress the first `len` bytes into an edge.
    fn get_edge(self, len: usize) -> (meta: Self::Edge)
        requires
            self.valid(),
            len <= self.bytes().len(),
            len <= Self::Edge::max(),
        ensures
            meta.valid(),
            meta.bytes() == self.bytes().take(len as int),
    ;

    /// Number of bytes that the key and the edge have in common.
    fn match_prefix(self, meta: &Self::Edge) -> (len: usize)
        requires
            self.valid(),
            meta.valid(),
        ensures
            len == common_len(meta.bytes(), self.bytes()),
    ;

    /// Keep the first `end` bytes.
    fn prefix(self, end: usize) -> (reader: Self)
        requires
            self.valid(),
            end <= self.bytes().len(),
        ensures
            reader.valid(),
            reader.bytes() == self.bytes().take(end as int),
    ;

    /// Drop the first `start` bytes.
    fn suffix(self, start: usize) -> (reader: Self)
        requires
            self.valid(),
            start <= self.bytes().len(),
        ensures
            reader.valid(),
            reader.bytes() == self.bytes().skip(start as int),
    ;

    /// Keep the bytes that `self` and `other` have in common.
    fn common_prefix(self, other: Self) -> (reader: Self)
        requires
            self.valid(),
            other.valid(),
        ensures
            reader.valid(),
            reader.bytes() == self.bytes().take(common_len(self.bytes(), other.bytes()) as int),
    ;
}

/// Constructs the bytes of a key from a sequence of bytes and edges.
pub trait Write: Sized {
    type Edge: Meta;

    /// Whether the representation is canonical.
    spec fn valid(&self) -> bool;

    /// The bytes that were written.
    spec fn bytes(&self) -> Seq<u8>;

    /// Most bytes that can be written.
    spec fn max() -> nat;

    /// Most bytes that can be written.
    fn capacity() -> (capacity: usize)
        ensures
            capacity == Self::max(),
    ;

    /// Writers respect their capacity.
    proof fn lemma_len(&self)
        requires
            self.valid(),
        ensures
            self.bytes().len() <= Self::max(),
    ;

    /// Writer without bytes.
    fn new() -> (writer: Self)
        ensures
            writer.valid(),
            writer.bytes() == Seq::<u8>::empty(),
    ;

    /// Number of bytes that were written.
    fn len(&self) -> (len: usize)
        requires
            self.valid(),
        ensures
            len == self.bytes().len(),
    ;

    /// Keep the first `len` bytes.
    fn truncate(&mut self, len: usize)
        requires
            old(self).valid(),
            len <= old(self).bytes().len(),
        ensures
            final(self).valid(),
            final(self).bytes() == old(self).bytes().take(len as int),
    ;

    /// Write one byte.
    fn push(&mut self, byte: u8)
        requires
            old(self).valid(),
            old(self).bytes().len() < Self::max(),
        ensures
            final(self).valid(),
            final(self).bytes() == old(self).bytes().push(byte),
    ;

    /// Write the bytes of an edge.
    fn extend(&mut self, edge: &Self::Edge)
        requires
            old(self).valid(),
            edge.valid(),
            old(self).bytes().len() + edge.bytes().len() <= Self::max(),
        ensures
            final(self).valid(),
            final(self).bytes() == old(self).bytes() + edge.bytes(),
    ;
}

/// Replace bytes starting at `start` with bytes from `node` and `edge`.
pub fn replace<W: Write>(writer: &mut W, start: usize, node: u8, edge: &W::Edge)
    requires
        old(writer).valid(),
        edge.valid(),
        start <= old(writer).bytes().len(),
        start + 1 + edge.bytes().len() <= W::max(),
    ensures
        final(writer).valid(),
        final(writer).bytes() == old(writer).bytes().take(start as int).push(node) + edge.bytes(),
{
    writer.truncate(start);
    writer.push(node);
    writer.extend(edge);
}

/// Origin of keys that are given back from their bytes alone.
#[derive(Copy, Clone, Debug)]
pub struct Implicit;

/// Byte sequence that can be stored in an adaptive radix tree.
///
/// Must satisfy the prefix property: no key is a prefix of any other key.
/// Methods that can insert into the tree take [`Key::Insert`]; other methods
/// take [`Key::Borrowed`].
pub trait Key: Sized {
    /// A form that a key can be cheaply borrowed as.
    type Borrowed<'k>: Copy;

    /// A form that a key is inserted from.
    type Insert<'k>: Copy;

    /// Edge metadata.
    type Edge: Meta;

    /// Tracks the bytes of a key that are still to be read.
    type Read<'k>: Read<Edge = Self::Edge>;

    /// Constructs a key from a sequence of bytes and edges.
    type Write: Write<Edge = Self::Edge>;

    /// Bytes of a key.
    spec fn bytes(self) -> Seq<u8>;

    /// Bytes of a borrowed key.
    spec fn borrowed_bytes<'k>(key: Self::Borrowed<'k>) -> Seq<u8>;

    /// Bytes of a key to insert.
    spec fn insert_bytes<'k>(key: Self::Insert<'k>) -> Seq<u8>;

    /// Byte sequences that are keys.
    spec fn is_key(bytes: Seq<u8>) -> bool;

    /// No key is a prefix of another key.
    proof fn lemma_prefix_property(a: Seq<u8>, b: Seq<u8>)
        requires
            Self::is_key(a),
            Self::is_key(b),
        ensures
            a == b || diverge(a, b),
    ;

    /// Keys fit in a writer.
    proof fn lemma_key_len(key: Seq<u8>)
        requires
            Self::is_key(key),
        ensures
            key.len() <= Self::Write::max(),
    ;

    /// Read the bytes of a borrowed key.
    fn read<'k>(key: Self::Borrowed<'k>) -> (reader: Self::Read<'k>)
        ensures
            reader.valid(),
            reader.bytes() == Self::borrowed_bytes(key),
            Self::is_key(reader.bytes()),
    ;

    /// Convert the key type to the insert type.
    fn as_insert<'k>(&'k self) -> (insert: Self::Insert<'k>)
        ensures
            Self::insert_bytes(insert) == self.bytes(),
    ;

    /// Convert the insert type to a reader.
    fn insert_as_read<'i, 'k>(insert: &'k Self::Insert<'i>) -> (reader: Self::Read<'k>)
        ensures
            reader.valid(),
            reader.bytes() == Self::insert_bytes(*insert),
            Self::is_key(reader.bytes()),
    ;

    /// Convert the insert type to the key type.
    fn insert_to_key<'k>(insert: Self::Insert<'k>) -> (key: Self)
        ensures
            key.bytes() == Self::insert_bytes(insert),
    ;

    /// What is kept beside a value to give its key back.
    type Origin: Copy;

    /// The key that `origin` was taken from has these bytes.
    spec fn origin_of(origin: Self::Origin, bytes: Seq<u8>) -> bool;

    /// Take what is to be kept beside the value.
    fn origin<'k>(insert: Self::Insert<'k>) -> (origin: Self::Origin)
        ensures
            Self::origin_of(origin, Self::insert_bytes(insert)),
    ;

    /// Give back the key whose bytes a writer holds.
    fn write_to_key(writer: &Self::Write, origin: Self::Origin) -> (key: Self)
        requires
            writer.valid(),
            Self::is_key(writer.bytes()),
            Self::origin_of(origin, writer.bytes()),
        ensures
            key.bytes() == writer.bytes(),
    ;
}

/// Key types that can split off their last byte, which enables an efficient
/// set implementation.
pub trait Split: Key {
    /// Keys have a last byte.
    proof fn lemma_nonempty(key: Seq<u8>)
        requires
            Self::is_key(key),
        ensures
            key.len() > 0,
    ;

    /// Split a key into a reader and the last byte.
    fn split_last<'k>(key: Self::Borrowed<'k>) -> (parts: (Self::Read<'k>, u8))
        ensures
            parts.0.valid(),
            parts.0.bytes().push(parts.1) == Self::borrowed_bytes(key),
            Self::is_key(Self::borrowed_bytes(key)),
    ;
}

} // verus!
