//! Array keys.
use vstd::prelude::*;
use crate::bytes::{common_len, lemma_common_len};
use crate::raw::edge::le::Le;
use crate::raw::key::dynamic::{Reader, Writer};
use crate::raw::key::{Implicit, Key, Read, Split, Write};

verus! {

/// Read the bytes of an array.
fn read_array<'k, const N: usize>(key: &'k [u8; N]) -> (reader: Reader<'k>)
    ensures
        reader.valid(),
        reader.bytes() == key@,
{
    Reader::new_prefix(vstd::array::array_as_slice(key))
}

impl<const N: usize> Key for [u8; N] {
    type Borrowed<'k> = &'k [u8; N];

    type Insert<'k> = &'k [u8; N];

    type Edge = Le;

    type Read<'k> = Reader<'k>;

    type Write = Writer<Le>;

    open spec fn bytes(self) -> Seq<u8> {
        self@
    }

    open spec fn borrowed_bytes<'k>(key: Self::Borrowed<'k>) -> Seq<u8> {
        key@
    }

    open spec fn insert_bytes<'k>(key: Self::Insert<'k>) -> Seq<u8> {
        key@
    }

    open spec fn is_key(bytes: Seq<u8>) -> bool {
        bytes.len() == N
    }

    proof fn lemma_prefix_property(a: Seq<u8>, b: Seq<u8>) {
        lemma_common_len(a, b);
        if common_len(a, b) == a.len() {
            assert(a =~= b);
        }
    }

    proof fn lemma_key_len(key: Seq<u8>) {
    }

    fn read<'k>(key: Self::Borrowed<'k>) -> (reader: Self::Read<'k>) {
        read_array(key)
    }

    fn as_insert<'k>(&'k self) -> (insert: Self::Insert<'k>) {
        self
    }

    fn insert_as_read<'i, 'k>(insert: &'k Self::Insert<'i>) -> (reader: Self::Read<'k>) {
        read_array(*insert)
    }

    fn insert_to_key<'k>(insert: Self::Insert<'k>) -> (key: Self) {
        *insert
    }

    type Origin = Implicit;

    open spec fn origin_of(origin: Implicit, bytes: Seq<u8>) -> bool {
        true
    }

    fn origin<'k>(insert: Self::Insert<'k>) -> (origin: Implicit) {
        Implicit
    }

    fn write_to_key(writer: &Writer<Le>, origin: Implicit) -> (key: Self) {
        let mut key: [u8; N] = [0; N];
        let mut i: usize = 0;
        while i < N
            invariant
                i <= N,
                writer.buffer@.len() == N,
                forall|j: int| 0 <= j < i ==> key@[j] == writer.buffer@[j],
            decreases N - i,
        {
            key[i] = writer.buffer[i];
            i += 1;
        }
        assert(key@ =~= writer.buffer@);
        key
    }
}

} // verus!
