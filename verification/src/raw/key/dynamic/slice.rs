//! Borrowed, dynamically sized keys.
use core::marker::PhantomData;
use vstd::prelude::*;
use crate::bytes::diverge;
use crate::raw::edge;
use crate::raw::edge::Meta;
use crate::raw::key::dynamic::boxed_slice::BoxedSlice;
use crate::raw::key::dynamic::{rejected, terminated_bytes, Invariant, Raw, Reader, Writer};
use crate::raw::key::{Key, Read, Write};

verus! {

/// A borrowed, dynamically sized key that satisfies an [`Invariant`].
pub struct Slice<'a, I: Invariant, R: Raw + ?Sized> {
    raw: &'a R,
    invariant: PhantomData<I>,
}

/// Convenience type alias for a [`Slice`] that is backed by a [`str`].
pub type Str<'a, I> = Slice<'a, I, str>;

impl<'a, I: Invariant, R: Raw + ?Sized> Copy for Slice<'a, I, R> {}

impl<'a, I: Invariant, R: Raw + ?Sized> Clone for Slice<'a, I, R> {
    fn clone(&self) -> (slice: Self)
        ensures
            slice == *self,
    {
        *self
    }
}

impl<'a, I: Invariant, R: Raw + ?Sized> Slice<'a, I, R> {
    /// The underlying value.
    pub closed spec fn inner(self) -> &'a R {
        self.raw
    }

    /// The bytes of the underlying value.
    pub open spec fn raw_bytes(self) -> Seq<u8> {
        self.inner().raw_bytes()
    }

    #[verifier::type_invariant]
    spec fn type_inv(self) -> bool {
        &&& I::holds(self.raw.raw_bytes())
        &&& R::is_raw(self.raw.raw_bytes())
        &&& self.raw.raw_bytes().len() < usize::MAX
    }

    /// Construct a slice after validating.
    ///
    /// Returns `Ok` if the input `key` satisfies the invariant.
    pub fn new(key: &'a R) -> (slice: Result<Self, I::Error>)
        requires
            key.raw_bytes().len() < usize::MAX,
        ensures
            slice is Ok <==> I::holds(key.raw_bytes()),
            slice matches Ok(slice) ==> slice.inner() == key,
            slice matches Err(error) ==> rejected::<I>(key.raw_bytes(), error),
    {
        let raw = key.as_raw_bytes();
        let checked = I::validate(raw);
        assert(call_ensures(I::validate, (raw,), checked));
        match checked {
            Ok(()) => Ok(Slice { raw: key, invariant: PhantomData }),
            Err(error) => {
                assert(call_ensures(I::validate, (raw,), Err::<(), I::Error>(error)));
                assert(rejected::<I>(key.raw_bytes(), error));
                Err(error)
            },
        }
    }

    /// Construct a slice without validating.
    pub fn new_unchecked(key: &'a R) -> (slice: Self)
        requires
            key.raw_bytes().len() < usize::MAX,
            I::holds(key.raw_bytes()),
        ensures
            slice.inner() == key,
    {
        let _ = key.as_raw_bytes();
        Slice { raw: key, invariant: PhantomData }
    }

    /// Get a reference to the underlying value.
    pub fn as_raw(&self) -> (raw: &'a R)
        ensures
            raw == self.inner(),
    {
        self.raw
    }

    /// Copy into an owned key.
    pub fn to_owned(&self) -> (owned: BoxedSlice<I, R>)
        ensures
            owned.raw_bytes() == self.raw_bytes(),
    {
        proof {
            use_type_invariant(self);
        }
        let boxed = self.raw.into_boxed();
        BoxedSlice::new_unchecked(boxed)
    }

    /// Read the bytes of the key.
    pub fn read(self) -> (reader: Reader<'a>)
        ensures
            reader.valid(),
            reader.bytes() == terminated_bytes(self.raw_bytes(), I::terminates()),
            is_dynamic_key::<I, R>(reader.bytes()),
            reader.source() == self.raw_bytes(),
            reader.own() == self.raw_bytes(),
    {
        proof {
            use_type_invariant(&self);
        }
        let reader = Reader::new(self.raw.as_raw_bytes(), I::terminate());
        assert(is_dynamic_key::<I, R>(reader.bytes())) by {
            assert(from_raw::<I, R>(self.raw_bytes(), reader.bytes()));
        }
        reader
    }
}

impl<'a, I: Invariant> Slice<'a, I, str> {
    /// Get a reference to the underlying `str`.
    pub fn as_str(&self) -> (text: &'a str)
        ensures
            text == self.inner(),
    {
        self.raw
    }
}

impl<'a, I: Invariant> Slice<'a, I, [u8]> {
    /// Get a reference to the underlying `[u8]`.
    pub fn as_bytes(&self) -> (bytes: &'a [u8])
        ensures
            bytes == self.inner(),
    {
        self.raw
    }
}

/// `raw` is a raw key that stands for `bytes`.
pub open spec fn from_raw<I: Invariant, R: Raw + ?Sized>(raw: Seq<u8>, bytes: Seq<u8>) -> bool {
    &&& I::holds(raw)
    &&& R::is_raw(raw)
    &&& raw.len() < usize::MAX
    &&& bytes == terminated_bytes(raw, I::terminates())
}

/// Byte sequences that raw keys stand for.
pub open spec fn is_dynamic_key<I: Invariant, R: Raw + ?Sized>(bytes: Seq<u8>) -> bool {
    exists|raw: Seq<u8>| from_raw::<I, R>(raw, bytes)
}

/// No key is a prefix of another key.
pub proof fn lemma_dynamic_prefix<I: Invariant, R: Raw + ?Sized>(a: Seq<u8>, b: Seq<u8>)
    requires
        is_dynamic_key::<I, R>(a),
        is_dynamic_key::<I, R>(b),
    ensures
        a == b || diverge(a, b),
{
    let x = choose|raw: Seq<u8>| from_raw::<I, R>(raw, a);
    let y = choose|raw: Seq<u8>| from_raw::<I, R>(raw, b);
    I::lemma_prefix_property(x, y);
}

/// The raw key is what is left without the byte that is appended.
pub proof fn lemma_dynamic_raw<I: Invariant, R: Raw + ?Sized>(bytes: Seq<u8>)
    requires
        is_dynamic_key::<I, R>(bytes),
    ensures
        bytes.len() <= usize::MAX,
        I::terminates() ==> bytes.len() > 0,
        ({
            let raw = if I::terminates() {
                bytes.drop_last()
            } else {
                bytes
            };
            from_raw::<I, R>(raw, bytes)
        }),
{
    let raw = choose|raw: Seq<u8>| from_raw::<I, R>(raw, bytes);
    if I::terminates() {
        assert(bytes.drop_last() =~= raw);
    }
}

/// Tracks the bytes of a borrowed key that are still to be read.
#[derive(Copy, Clone, Debug)]
pub struct SliceReader<'k, 'a> {
    reader: Reader<'k>,
    /// The key as the tree stores it, where it is being inserted.
    stored: Option<&'a [u8]>,
}

impl<'k, 'a> SliceReader<'k, 'a> {
    /// Read a scan prefix, which names only the given bytes.
    pub fn new_prefix(prefix: &'k [u8]) -> (reader: Self)
        ensures
            reader.valid(),
            reader.bytes() == prefix@,
            reader.own() == prefix@,
    {
        SliceReader { reader: Reader::new_prefix(prefix), stored: None }
    }

    /// Interpret a reader as a scan prefix rather than as an exact key.
    pub fn into_prefix(self) -> (reader: Self)
        requires
            self.valid(),
        ensures
            reader.valid(),
            reader.bytes() == self.own(),
            reader.own() == self.own(),
    {
        SliceReader { reader: self.reader.into_prefix(), ..self }
    }

    /// The bytes without the one that is appended.
    pub closed spec fn own(self) -> Seq<u8> {
        self.reader.own()
    }

    /// The key that edges refer to, if it outlives the reader.
    pub closed spec fn stored(self) -> Option<Seq<u8>> {
        match self.stored {
            Some(key) => Some(key@),
            None => None,
        }
    }
}

impl<'k, 'a> Read for SliceReader<'k, 'a> {
    type Edge = edge::slice::Slice<'a>;

    closed spec fn valid(self) -> bool {
        &&& self.reader.wf()
        &&& self.stored matches Some(key) ==> key@ == self.reader.source()
    }

    closed spec fn bytes(self) -> Seq<u8> {
        self.reader.rest()
    }

    proof fn lemma_len(self) {
    }

    fn empty() -> (reader: Self) {
        SliceReader { reader: Reader::empty(), stored: None }
    }

    fn len(self) -> (len: usize) {
        self.reader.len()
    }

    fn get_byte(self, index: usize) -> (byte: Option<u8>) {
        self.reader.get_byte(index)
    }

    /// The edge refers to the key where that is stored. It holds a copy of
    /// the bytes, which is never freed, where the key is borrowed for the reader
    /// alone.
    fn get_edge(self, len: usize) -> (meta: edge::slice::Slice<'a>)
        ensures
            self.stored() matches Some(key) ==> meta.key() == key,
    {
        let reader = self.reader;
        match self.stored {
            Some(key) => {
                let own: usize = reader.end - reader.start;
                let meta = if len <= own {
                    edge::slice::Slice::new(key, reader.start, len, false)
                } else {
                    edge::slice::Slice::new(key, reader.start, own, true)
                };
                assert(meta.bytes() =~= self.bytes().take(len as int));
                meta
            },
            None => {
                let mut bytes: Vec<u8> = Vec::new();
                let mut i: usize = 0;
                while i < len
                    invariant
                        reader.valid(),
                        i <= len <= reader.bytes().len(),
                        bytes@ == reader.bytes().take(i as int),
                    decreases len - i,
                {
                    bytes.push(reader.at(i));
                    i += 1;
                    assert(bytes@ =~= reader.bytes().take(i as int));
                }
                edge::slice::Slice::copied(bytes)
            },
        }
    }

    fn match_prefix(self, meta: &edge::slice::Slice<'a>) -> (len: usize) {
        self.reader.match_edge(meta)
    }

    fn prefix(self, end: usize) -> (reader: Self)
        ensures
            reader.stored() == self.stored(),
    {
        SliceReader { reader: self.reader.prefix(end), ..self }
    }

    fn suffix(self, start: usize) -> (reader: Self)
        ensures
            reader.stored() == self.stored(),
    {
        SliceReader { reader: self.reader.suffix(start), ..self }
    }

    fn common_prefix(self, other: Self) -> (reader: Self)
        ensures
            reader.stored() == self.stored(),
    {
        SliceReader { reader: self.reader.common_prefix(other.reader), ..self }
    }
}

impl<'a, I: Invariant, R: Raw + ?Sized> Key for Slice<'a, I, R> {
    type Borrowed<'k> = Slice<'k, I, R>;

    type Insert<'k> = Slice<'a, I, R>;

    type Edge = edge::slice::Slice<'a>;

    type Read<'k> = SliceReader<'k, 'a>;

    type Write = Writer<edge::slice::Slice<'a>>;

    open spec fn bytes(self) -> Seq<u8> {
        terminated_bytes(self.raw_bytes(), I::terminates())
    }

    open spec fn borrowed_bytes<'k>(key: Self::Borrowed<'k>) -> Seq<u8> {
        terminated_bytes(key.raw_bytes(), I::terminates())
    }

    open spec fn insert_bytes<'k>(key: Self::Insert<'k>) -> Seq<u8> {
        terminated_bytes(key.raw_bytes(), I::terminates())
    }

    open spec fn is_key(bytes: Seq<u8>) -> bool {
        is_dynamic_key::<I, R>(bytes)
    }

    proof fn lemma_prefix_property(a: Seq<u8>, b: Seq<u8>) {
        lemma_dynamic_prefix::<I, R>(a, b);
    }

    proof fn lemma_key_len(key: Seq<u8>) {
        lemma_dynamic_raw::<I, R>(key);
    }

    fn read<'k>(key: Self::Borrowed<'k>) -> (reader: Self::Read<'k>) {
        SliceReader { reader: key.read(), stored: None }
    }

    fn as_insert<'k>(&'k self) -> (insert: Self::Insert<'k>) {
        *self
    }

    fn insert_as_read<'i, 'k>(insert: &'k Self::Insert<'i>) -> (reader: Self::Read<'k>)
        ensures
            reader.stored() == Some(insert.raw_bytes()),
            reader.own() == insert.raw_bytes(),
    {
        SliceReader { reader: insert.read(), stored: Some(insert.raw.as_raw_bytes()) }
    }

    fn insert_to_key<'k>(insert: Self::Insert<'k>) -> (key: Self) {
        insert
    }

    type Origin = Slice<'a, I, R>;

    open spec fn origin_of(origin: Self::Origin, bytes: Seq<u8>) -> bool {
        bytes == terminated_bytes(origin.raw_bytes(), I::terminates())
    }

    fn origin<'k>(insert: Self::Insert<'k>) -> (origin: Self::Origin) {
        insert
    }

    fn write_to_key(writer: &Writer<edge::slice::Slice<'a>>, origin: Self::Origin) -> (key: Self) {
        origin
    }
}

} // verus!
