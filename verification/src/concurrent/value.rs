//! Values that can be stored in a concurrent map, and what an operation gives
//! back of them.
use std::sync::Arc;
use vstd::prelude::*;
use crate::concurrent::smr::Smr;

verus! {

/// Values that are stored directly in an edge word.
pub trait Value: Copy {
    /// The value as a word.
    spec fn raw(self) -> u64;

    /// Convert the value into a word.
    fn into_raw(self) -> (raw: u64)
        ensures
            raw == self.raw(),
    ;

    /// Convert a word back into a value.
    fn from_raw(raw: u64) -> (value: Self)
        ensures
            value.raw() == raw,
    ;

    /// Different values have different words.
    proof fn lemma_raw(a: Self, b: Self)
        requires
            a.raw() == b.raw(),
        ensures
            a == b,
    ;
}

impl Value for u64 {
    open spec fn raw(self) -> u64 {
        self
    }

    fn into_raw(self) -> (raw: u64) {
        self
    }

    fn from_raw(raw: u64) -> (value: Self) {
        raw
    }

    proof fn lemma_raw(a: Self, b: Self) {
    }
}

impl Value for i64 {
    open spec fn raw(self) -> u64 {
        self as u64
    }

    fn into_raw(self) -> (raw: u64) {
        #[verifier::truncate]
        (self as u64)
    }

    fn from_raw(raw: u64) -> (value: Self) {
        let value: i64 = #[verifier::truncate]
        (raw as i64);
        assert((raw as i64) as u64 == raw) by (bit_vector);
        value
    }

    proof fn lemma_raw(a: Self, b: Self) {
        assert(a as u64 == b as u64 ==> a == b) by (bit_vector);
    }
}

/// A shared value that can be cloned into an [`Arc`].
#[derive(Debug)]
pub struct ArcRef<T> {
    pub inner: Arc<T>,
}

impl<T> ArcRef<T> {
    /// The value.
    pub fn get(&self) -> (value: &T)
        ensures
            *value == *self.inner,
    {
        &*self.inner
    }

    /// Share the value by incrementing the strong reference count.
    pub fn to_owned(&self) -> (owned: Arc<T>)
        ensures
            owned == self.inner,
    {
        self.inner.clone()
    }
}

/// A removed value, which is retired when it is no longer needed.
pub struct Owned<'g, V, S> {
    pub value: V,
    pub smr: &'g mut S,
}

impl<'g, V, S: Smr<V>> Owned<'g, V, S> {
    /// Hand the value to the reclamation backend.
    pub fn retire(self)
        ensures
            S::retires(*old(self.smr), *final(self.smr)),
            S::handed(*old(self.smr), self.value),
    {
        let Owned { value, smr } = self;
        smr.retire(value);
    }
}

impl<'g, V, S> Owned<'g, V, S> {
    /// The value.
    pub fn get(&self) -> (value: &V)
        ensures
            *value == self.value,
    {
        &self.value
    }

    /// Take the value, which nothing else can access.
    pub fn into_inner(self) -> (value: V)
        ensures
            value == self.value,
            *final(self.smr) == *old(self.smr),
    {
        let Owned { value, smr: _ } = self;
        value
    }
}

/// Read-only access to a value.
pub struct Shared<'g, V> {
    pub value: &'g V,
}

impl<'g, V> Shared<'g, V> {
    /// The value.
    pub fn get(&self) -> (value: &'g V)
        ensures
            value == self.value,
    {
        self.value
    }
}

/// Read-only access to the old and the new value of an update.
///
/// The old value is retired when it is no longer needed.
pub struct Updated<'g, V, S> {
    pub old: V,
    pub new: &'g V,
    pub smr: &'g mut S,
}

impl<'g, V, S: Smr<V>> Updated<'g, V, S> {
    /// Hand the old value to the reclamation backend, and go on with the new
    /// one.
    pub fn retire(self) -> (shared: Shared<'g, V>)
        ensures
            shared.value == self.new,
            S::retires(*old(self.smr), *final(self.smr)),
            S::handed(*old(self.smr), self.old),
    {
        let Updated { old, new, smr } = self;
        smr.retire(old);
        Shared { value: new }
    }
}

impl<'g, V, S> Updated<'g, V, S> {
    /// Return the old value before updating.
    pub fn previous(&self) -> (value: &V)
        ensures
            *value == self.old,
    {
        &self.old
    }

    /// Return the new value after updating.
    pub fn new(&self) -> (value: &'g V)
        ensures
            value == self.new,
    {
        self.new
    }
}

/// Read-only access to the old and the new value of an upsert.
///
/// The old value, if there is one, is retired when it is no longer needed.
pub struct Upserted<'g, V, S> {
    pub old: Option<V>,
    pub new: &'g V,
    pub smr: &'g mut S,
}

impl<'g, V, S: Smr<V>> Upserted<'g, V, S> {
    /// Hand the old value, if there is one, to the reclamation backend, and go
    /// on with the new one.
    pub fn retire(self) -> (shared: Shared<'g, V>)
        ensures
            shared.value == self.new,
            match self.old {
                Some(value) => S::retires(*old(self.smr), *final(self.smr)) && S::handed(
                    *old(self.smr),
                    value,
                ),
                None => *final(self.smr) == *old(self.smr),
            },
    {
        let Upserted { old, new, smr } = self;
        if let Some(old) = old {
            smr.retire(old);
        }
        Shared { value: new }
    }
}

impl<'g, V, S> Upserted<'g, V, S> {
    /// Return the old value before upserting.
    pub fn previous(&self) -> (value: Option<&V>)
        ensures
            value == (match self.old {
                Some(old) => Some(&old),
                None => None,
            }),
    {
        match &self.old {
            Some(old) => Some(old),
            None => None,
        }
    }

    /// Return the new value after upserting.
    pub fn new(&self) -> (value: &'g V)
        ensures
            value == self.new,
    {
        self.new
    }

    /// Only the new value, if there was no old one.
    pub fn try_into_inserted(self) -> (inserted: Result<Shared<'g, V>, Self>)
        ensures
            match inserted {
                Ok(shared) => {
                    &&& self.old is None
                    &&& shared.value == self.new
                    &&& *final(self.smr) == *old(self.smr)
                },
                Err(upserted) => self.old is Some && upserted == self,
            },
    {
        match self.old {
            None => Ok(Shared { value: self.new }),
            Some(_) => Err(self),
        }
    }
}

/// A word holds an integer as it is, a negative one in two's complement.
pub proof fn law_words(a: u64, b: i64)
    ensures
        a.raw() == a,
        b.raw() == (if b >= 0 {
            b as int
        } else {
            b + 0x1_0000_0000_0000_0000
        }),
{
    assert((b >= 0 ==> b as u64 == b) && (b < 0 ==> b as u64 == b + 0x1_0000_0000_0000_0000))
        by (bit_vector);
}


} // verus!
