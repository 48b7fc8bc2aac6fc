//! Owned, dynamically sized keys.
use core::marker::PhantomData;
use vstd::prelude::*;
use crate::raw::edge::le::Le;
use crate::raw::key::dynamic::slice::{
    from_raw, is_dynamic_key, lemma_dynamic_prefix, lemma_dynamic_raw, Slice,
};
use crate::raw::key::dynamic::{
    copy_bytes, rejected, terminated_bytes, Invariant, NonNull, Raw, Reader, Writer,
};
use crate::raw::key::{Implicit, Key, Read, Write};

verus! {

/// An owned, dynamically sized key that satisfies an [`Invariant`].
pub struct BoxedSlice<I: Invariant, R: Raw + ?Sized> {
    raw: Box<R>,
    invariant: PhantomData<I>,
}

/// Convenience type alias for a [`BoxedSlice`] that is backed by a [`str`].
pub type BoxedStr<I> = BoxedSlice<I, str>;

impl<I: Invariant, R: Raw + ?Sized> BoxedSlice<I, R> {
    /// The bytes of the underlying value.
    pub closed spec fn raw_bytes(self) -> Seq<u8> {
        self.raw.raw_bytes()
    }

    /// The underlying value.
    pub closed spec fn boxed(self) -> Box<R> {
        self.raw
    }

    /// The raw bytes are those of the underlying value.
    pub proof fn lemma_boxed(self)
        ensures
            self.raw_bytes() == self.boxed().raw_bytes(),
    {
    }

    #[verifier::type_invariant]
    spec fn type_inv(self) -> bool {
        &&& I::holds(self.raw.raw_bytes())
        &&& R::is_raw(self.raw.raw_bytes())
        &&& self.raw.raw_bytes().len() < usize::MAX
    }

    /// Construct a boxed slice after validating.
    ///
    /// Returns `Ok` if the input boxed slice satisfies the invariant.
    pub fn new(key: Box<R>) -> (slice: Result<Self, (Box<R>, I::Error)>)
        requires
            key.raw_bytes().len() < usize::MAX,
        ensures
            slice is Ok <==> I::holds(key.raw_bytes()),
            slice matches Ok(slice) ==> slice.raw_bytes() == key.raw_bytes() && slice.boxed() == key,
            slice matches Err((raw, _)) ==> raw == key,
            slice matches Err((_, error)) ==> rejected::<I>(key.raw_bytes(), error),
    {
        let raw = key.as_raw_bytes();
        let checked = I::validate(raw);
        assert(call_ensures(I::validate, (raw,), checked));
        match checked {
            Ok(()) => Ok(BoxedSlice { raw: key, invariant: PhantomData }),
            Err(error) => {
                assert(call_ensures(I::validate, (raw,), Err::<(), I::Error>(error)));
                assert(rejected::<I>(key.raw_bytes(), error));
                Err((key, error))
            },
        }
    }

    /// Construct a boxed slice without validating.
    pub fn new_unchecked(key: Box<R>) -> (slice: Self)
        requires
            key.raw_bytes().len() < usize::MAX,
            I::holds(key.raw_bytes()),
        ensures
            slice.raw_bytes() == key.raw_bytes(),
            slice.boxed() == key,
    {
        let _ = key.as_raw_bytes();
        BoxedSlice { raw: key, invariant: PhantomData }
    }

    /// A value that was validated is given back as it was.
    pub proof fn law_given_back(key: Box<R>, slice: Self, raw: Box<R>)
        requires
            slice.boxed() == key,
            raw == slice.boxed(),
        ensures
            raw == key,
            slice.raw_bytes() == key.raw_bytes(),
    {
    }

    /// Get a borrowed [`Slice`] that preserves the invariant.
    pub fn as_slice<'k>(&'k self) -> (slice: Slice<'k, I, R>)
        ensures
            slice.raw_bytes() == self.raw_bytes(),
    {
        proof {
            use_type_invariant(self);
        }
        Slice::new_unchecked(&*self.raw)
    }

    /// Get an owned boxed slice.
    pub fn into_boxed_slice(self) -> (raw: Box<R>)
        ensures
            raw == self.boxed(),
            raw.raw_bytes() == self.raw_bytes(),
    {
        self.raw
    }
}

impl<I: Invariant, R: Raw + ?Sized> Clone for BoxedSlice<I, R> {
    fn clone(&self) -> (slice: Self)
        ensures
            slice.raw_bytes() == self.raw_bytes(),
    {
        self.as_slice().to_owned()
    }
}

impl Default for BoxedSlice<NonNull, [u8]> {
    /// Key without bytes.
    fn default() -> (slice: Self)
        ensures
            slice.raw_bytes() == Seq::<u8>::empty(),
    {
        let bytes: Vec<u8> = Vec::new();
        Self::new_unchecked(<[u8] as Raw>::from_raw_bytes(bytes))
    }
}

impl Default for BoxedSlice<NonNull, str> {
    /// Key without bytes.
    fn default() -> (slice: Self)
        ensures
            slice.raw_bytes() == Seq::<u8>::empty(),
    {
        let text: &str = "";
        proof {
            reveal_strlit("");
            assert(text@ =~= Seq::<char>::empty());
        }
        Self::new_unchecked(text.into_boxed())
    }
}

impl<I: Invariant, R: Raw + ?Sized> Key for BoxedSlice<I, R> {
    type Borrowed<'k> = Slice<'k, I, R>;

    type Insert<'k> = Slice<'k, I, R>;

    type Edge = Le;

    type Read<'k> = Reader<'k>;

    type Write = Writer<Le>;

    open spec fn bytes(self) -> Seq<u8> {
        terminated_bytes(self.raw_bytes(), I::terminates())
    }

    open spec fn borrowed_bytes<'k>(key: Self::Borrowed<'k>) -> Seq<u8> {
        terminated_bytes(key.raw_bytes(), I::terminates())
    }

    open spec fn insert_bytes<'k>(key: Self::Insert<'k>) -> Seq<u8> {
        terminated_bytes(key.raw_bytes(), I::terminates())
    }

    open spec fn is_key(bytes: Seq<u8>) -> bool {
        is_dynamic_key::<I, R>(bytes)
    }

    proof fn lemma_prefix_property(a: Seq<u8>, b: Seq<u8>) {
        lemma_dynamic_prefix::<I, R>(a, b);
    }

    proof fn lemma_key_len(key: Seq<u8>) {
        lemma_dynamic_raw::<I, R>(key);
    }

    fn read<'k>(key: Self::Borrowed<'k>) -> (reader: Self::Read<'k>) {
        key.read()
    }

    fn as_insert<'k>(&'k self) -> (insert: Self::Insert<'k>) {
        self.as_slice()
    }

    fn insert_as_read<'i, 'k>(insert: &'k Self::Insert<'i>) -> (reader: Self::Read<'k>) {
        insert.read()
    }

    fn insert_to_key<'k>(insert: Self::Insert<'k>) -> (key: Self) {
        insert.to_owned()
    }

    type Origin = Implicit;

    open spec fn origin_of(origin: Implicit, bytes: Seq<u8>) -> bool {
        true
    }

    fn origin<'k>(insert: Self::Insert<'k>) -> (origin: Implicit) {
        Implicit
    }

    fn write_to_key(writer: &Writer<Le>, origin: Implicit) -> (key: Self) {
        let mut raw = copy_bytes(writer.buffer.as_slice());
        proof {
            lemma_dynamic_raw::<I, R>(writer.bytes());
        }
        if I::terminate() {
            let _ = raw.pop();
            assert(raw@ =~= writer.bytes().drop_last());
        }
        let ghost bytes = raw@;
        assert(from_raw::<I, R>(bytes, writer.bytes()));
        BoxedSlice::new_unchecked(R::from_raw_bytes(raw))
    }
}

} // verus!
