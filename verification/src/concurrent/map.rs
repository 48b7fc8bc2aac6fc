//! Map that is handed from operation to operation.
//!
//! An operation on a shared tree takes effect as a whole, see
//! [`crate::concurrent::operation`]. This map states what each operation does
//! when its turn comes.
use core::ops::ControlFlow;
use vstd::prelude::*;
use crate::concurrent::value::{Owned, Shared, Updated, Upserted};
use crate::raw::edge::Meta;
use crate::raw::iter::range::Range;
use crate::raw::key::{Implicit, Key, Read};
use crate::raw::shape::entries::{in_range, lists};
use crate::sequential::iter::Shard;
use crate::raw::shape::Shape;
use crate::sequential::map::{
    inserted, lemma_revalued_same, revalued, Entry, Leaf, SequentialMap,
};
use crate::topology::{self, pictures, slot_sorted, topology_error, Topology};

verus! {

/// Map that supports lexicographically ordered range and prefix scans, with
/// backend `S` for safe memory reclamation.
pub struct ConcurrentMap<K: Key, V, S> {
    pub smr: S,
    pub seq: SequentialMap<K, V>,
}

/// Outcome of [`ConcurrentMap::upsert_with`].
pub enum Upsert<'g, V, S> {
    /// Value was successfully upserted.
    Success(Upserted<'g, V, S>),
    /// Closure returned [`ControlFlow::Break`].
    Break {
        /// Value observed by the closure.
        old: Option<Shared<'g, V>>,
        /// Value returned from the closure.
        new: Option<V>,
    },
}

/// Outcome of [`ConcurrentMap::update_with`].
pub enum Update<'g, V, S> {
    /// Key was not present.
    Absent {
        /// Value passed as argument.
        new: Option<V>,
    },
    /// Value was successfully updated.
    Success(Updated<'g, V, S>),
    /// Closure returned [`ControlFlow::Break`].
    Break {
        /// Value observed by the closure.
        old: Shared<'g, V>,
        /// Value returned from the closure.
        new: Option<V>,
    },
}

/// Outcome of [`ConcurrentMap::remove_with`].
#[allow(inconsistent_fields)]
pub enum Remove<'g, V, S> {
    /// Key was not present.
    Absent,
    /// Value was successfully removed.
    Success {
        /// Value that was removed.
        old: Owned<'g, V, S>,
    },
    /// Closure returned [`ControlFlow::Break`].
    Break {
        /// Value observed by the closure.
        old: Shared<'g, V>,
    },
}

/// A tree whose value of some key was exchanged for itself is as it was.
broadcast proof fn lemma_kept<K: Key, V>(
    before: Shape<Leaf<K::Origin, V>>,
    after: Shape<Leaf<K::Origin, V>>,
    key: Seq<u8>,
    value: V,
)
    requires
        #[trigger] revalued::<K, V>(before, after, key, value),
    ensures
        before.get(key)->0.value == value ==> after == before,
{
    if before.get(key)->0.value == value {
        lemma_revalued_same::<K, V>(before, after, key);
    }
}

impl<K: Key, V, S> View for ConcurrentMap<K, V, S> {
    type V = Map<Seq<u8>, V>;

    /// Value of each key, by the bytes of the key.
    open spec fn view(&self) -> Map<Seq<u8>, V> {
        self.seq@
    }
}

impl<K: Key, V, S: Default> ConcurrentMap<K, V, S> {
    /// Constructs a new empty map.
    pub fn new() -> (map: Self)
        ensures
            map.wf(),
            map.compact(),
            map@ == Map::<Seq<u8>, V>::empty(),
            map.seq.root.shape() is Null,
            call_ensures(S::default, (), map.smr),
    {
        Self::with_smr(S::default())
    }

    /// Share a sequential map.
    pub fn from_sequential(seq: SequentialMap<K, V>) -> (map: Self)
        ensures
            map.seq == seq,
            call_ensures(S::default, (), map.smr),
    {
        ConcurrentMap { smr: S::default(), seq }
    }
}

impl<K: Key, V, S: Default> Default for ConcurrentMap<K, V, S> {
    fn default() -> (map: Self)
        ensures
            map.wf(),
            map.compact(),
            map@ == Map::<Seq<u8>, V>::empty(),
            map.seq.root.shape() is Null,
            call_ensures(S::default, (), map.smr),
    {
        Self::new()
    }
}

impl<K: Key, V, S> ConcurrentMap<K, V, S> {
    pub open spec fn wf(&self) -> bool {
        self.seq.wf()
    }

    /// No node is empty.
    pub open spec fn compact(&self) -> bool {
        self.seq.compact()
    }

    /// Constructs a new empty map with the given backend.
    pub fn with_smr(smr: S) -> (map: Self)
        ensures
            map.wf(),
            map.compact(),
            map@ == Map::<Seq<u8>, V>::empty(),
            map.seq.root.shape() is Null,
            map.smr == smr,
    {
        ConcurrentMap { smr, seq: SequentialMap::new() }
    }

    /// Stop sharing the map.
    pub fn into_sequential(self) -> (seq: SequentialMap<K, V>)
        ensures
            seq == self.seq,
    {
        self.seq
    }

    /// Use the map without sharing it.
    pub fn as_sequential(&mut self) -> (seq: &mut SequentialMap<K, V>)
        ensures
            *seq == old(self).seq,
            *final(self) == (ConcurrentMap { smr: old(self).smr, seq: *final(seq) }),
    {
        &mut self.seq
    }

    /// The reclamation backend.
    pub fn smr(&self) -> (smr: &S)
        ensures
            *smr == self.smr,
    {
        &self.smr
    }

    /// The reclamation backend.
    pub fn smr_mut(&mut self) -> (smr: &mut S)
        ensures
            *smr == old(self).smr,
            *final(self) == (ConcurrentMap { smr: *final(smr), seq: old(self).seq }),
    {
        &mut self.smr
    }

    /// Returns whether `key` has an associated value.
    pub fn contains_key<'k>(&self, key: K::Borrowed<'k>) -> (contains: bool)
        requires
            self.wf(),
        ensures
            contains == self@.contains_key(K::borrowed_bytes(key)),
    {
        self.seq.contains_key(key)
    }

    /// Returns an immutable reference to the value associated with `key`.
    pub fn get<'g, 'k>(&'g self, key: K::Borrowed<'k>) -> (value: Option<Shared<'g, V>>)
        requires
            self.wf(),
        ensures
            match value {
                Some(shared) => self@.contains_key(K::borrowed_bytes(key))
                    && self@[K::borrowed_bytes(key)] == *shared.value,
                None => !self@.contains_key(K::borrowed_bytes(key)),
            },
    {
        match self.seq.get(key) {
            Some(value) => Some(Shared { value }),
            None => None,
        }
    }

    /// If there is no value associated with `key`, associate it with `value`.
    ///
    /// Returns `Ok(&new_value)` if the insert succeeded, or else
    /// `Err((&old_value, new_value))` if there is an existing `old_value`
    /// associated with the key.
    pub fn insert<'g, 'k>(&'g mut self, key: K::Insert<'k>, value: V) -> (outcome: Result<
        Shared<'g, V>,
        (Shared<'g, V>, V),
    >)
        requires
            old(self).wf(),
        ensures
            final(self).wf(),
            old(self).compact() ==> final(self).compact(),
            final(self).smr == old(self).smr,
            match outcome {
                Ok(new) => {
                    &&& !old(self)@.contains_key(K::insert_bytes(key))
                    &&& *new.value == value
                    &&& final(self)@ == old(self)@.insert(K::insert_bytes(key), value)
                    &&& inserted::<K, V>(
                        old(self).seq.root.shape(),
                        final(self).seq.root.shape(),
                        K::insert_bytes(key),
                        value,
                    )
                },
                Err((existing, new)) => {
                    &&& old(self)@.contains_key(K::insert_bytes(key))
                    &&& *existing.value == old(self)@[K::insert_bytes(key)]
                    &&& new == value
                    &&& final(self)@ == old(self)@
                    &&& final(self).seq.root.shape() == old(self).seq.root.shape()
                },
            },
    {
        broadcast use lemma_kept;

        let ghost before = self@;
        let ghost bytes = K::insert_bytes(key);
        match self.seq.insert(key, value) {
            Ok(new) => Ok(Shared { value: &*new }),
            Err((existing, new)) => {
                assert(before.insert(bytes, before[bytes]) =~= before);
                Err((Shared { value: &*existing }, new))
            },
        }
    }

    /// Unconditionally associate `key` with `value`.
    pub fn upsert<'g, 'k>(&'g mut self, key: K::Insert<'k>, value: V) -> (upserted: Upserted<
        'g,
        V,
        S,
    >)
        requires
            old(self).wf(),
        ensures
            final(self).wf(),
            old(self).compact() ==> final(self).compact(),
            *upserted.smr == old(self).smr,
            *final(upserted.smr) == final(self).smr,
            final(self)@ == old(self)@.insert(K::insert_bytes(key), value),
            *upserted.new == value,
            upserted.old == (if old(self)@.contains_key(K::insert_bytes(key)) {
                Some(old(self)@[K::insert_bytes(key)])
            } else {
                None
            }),
            if old(self)@.contains_key(K::insert_bytes(key)) {
                revalued::<K, V>(
                    old(self).seq.root.shape(),
                    final(self).seq.root.shape(),
                    K::insert_bytes(key),
                    value,
                )
            } else {
                inserted::<K, V>(
                    old(self).seq.root.shape(),
                    final(self).seq.root.shape(),
                    K::insert_bytes(key),
                    value,
                )
            },
    {
        match self.seq.upsert(key, value) {
            Ok((old, new)) => Upserted { old: Some(old), new: &*new, smr: &mut self.smr },
            Err(new) => Upserted { old: None, new: &*new, smr: &mut self.smr },
        }
    }

    /// If there is a value associated with `key`, update it to `value`.
    ///
    /// Returns `Err(new_value)` if there was no old value associated with
    /// `key`.
    pub fn update<'g, 'k>(&'g mut self, key: K::Borrowed<'k>, value: V) -> (updated: Result<
        Updated<'g, V, S>,
        V,
    >)
        requires
            old(self).wf(),
        ensures
            final(self).wf(),
            old(self).compact() ==> final(self).compact(),
            match updated {
                Ok(updated) => {
                    &&& old(self)@.contains_key(K::borrowed_bytes(key))
                    &&& updated.old == old(self)@[K::borrowed_bytes(key)]
                    &&& *updated.new == value
                    &&& final(self)@ == old(self)@.insert(K::borrowed_bytes(key), value)
                    &&& revalued::<K, V>(
                        old(self).seq.root.shape(),
                        final(self).seq.root.shape(),
                        K::borrowed_bytes(key),
                        value,
                    )
                    &&& *updated.smr == old(self).smr
                    &&& *final(updated.smr) == final(self).smr
                },
                Err(new) => {
                    &&& !old(self)@.contains_key(K::borrowed_bytes(key))
                    &&& new == value
                    &&& final(self)@ == old(self)@
                    &&& final(self).seq.root.shape() == old(self).seq.root.shape()
                    &&& final(self).smr == old(self).smr
                },
            },
    {
        match self.seq.update(key, value) {
            Ok((old, new)) => Ok(Updated { old, new: &*new, smr: &mut self.smr }),
            Err(value) => Err(value),
        }
    }

    /// If there is a value associated with `key`, remove it from the map,
    /// recursively removing empty tree nodes.
    pub fn remove<'g, 'k>(&'g mut self, key: K::Borrowed<'k>) -> (removed: Option<
        Owned<'g, V, S>,
    >)
        requires
            old(self).wf(),
        ensures
            final(self).wf(),
            old(self).compact() ==> final(self).compact(),
            final(self)@ == old(self)@.remove(K::borrowed_bytes(key)),
            final(self).seq.root.shape() == old(self).seq.root.shape().remove(
                K::borrowed_bytes(key),
                true,
                K::Edge::max(),
            ).0,
            match removed {
                Some(owned) => {
                    &&& old(self)@.contains_key(K::borrowed_bytes(key))
                    &&& owned.value == old(self)@[K::borrowed_bytes(key)]
                    &&& *owned.smr == old(self).smr
                    &&& *final(owned.smr) == final(self).smr
                },
                None => {
                    &&& !old(self)@.contains_key(K::borrowed_bytes(key))
                    &&& final(self).smr == old(self).smr
                },
            },
    {
        match self.seq.remove(key) {
            Some(value) => Some(Owned { value, smr: &mut self.smr }),
            None => None,
        }
    }

    /// If there is a value associated with `key`, remove it from the map,
    /// **without** recursively removing empty tree nodes.
    pub fn remove_non_recursive<'g, 'k>(&'g mut self, key: K::Borrowed<'k>) -> (removed: Option<
        Owned<'g, V, S>,
    >)
        requires
            old(self).wf(),
        ensures
            final(self).wf(),
            final(self)@ == old(self)@.remove(K::borrowed_bytes(key)),
            final(self).seq.root.shape() == old(self).seq.root.shape().remove(
                K::borrowed_bytes(key),
                false,
                K::Edge::max(),
            ).0,
            match removed {
                Some(owned) => {
                    &&& old(self)@.contains_key(K::borrowed_bytes(key))
                    &&& owned.value == old(self)@[K::borrowed_bytes(key)]
                    &&& *owned.smr == old(self).smr
                    &&& *final(owned.smr) == final(self).smr
                },
                None => {
                    &&& !old(self)@.contains_key(K::borrowed_bytes(key))
                    &&& final(self).smr == old(self).smr
                },
            },
    {
        match self.seq.remove_non_recursive(key) {
            Some(value) => Some(Owned { value, smr: &mut self.smr }),
            None => None,
        }
    }

    /// Get an immutable reference to the entire tree.
    pub fn all<'g>(&'g self) -> (shard: Shard<'g, 'static, K, V>)
        requires
            self.wf(),
        ensures
            shard.wf(),
            lists(shard@, self@, |k: Seq<u8>| true),
    {
        self.seq.all()
    }

    /// Get an immutable reference to the subtree of keys beginning with
    /// `prefix`.
    pub fn prefix<'g, 'k>(&'g self, prefix: K::Read<'k>) -> (shard: Shard<'g, 'k, K, V>)
        requires
            self.wf(),
            prefix.valid(),
        ensures
            shard.wf(),
            lists(shard@, self@, |k: Seq<u8>| prefix.bytes().is_prefix_of(k)),
    {
        self.seq.prefix(prefix)
    }

    /// Get an immutable reference to the subtree of keys within `range`.
    ///
    /// If the range's lower bound is greater than its upper bound, the
    /// returned shard is empty.
    pub fn range<'g, 'k, R: Range<K::Read<'k>>>(&'g self, range: &R) -> (shard: Shard<
        'g,
        'k,
        K,
        V,
    >)
        requires
            self.wf(),
            range.valid(),
        ensures
            shard.wf(),
            lists(
                shard@,
                self@,
                |k: Seq<u8>| in_range(range.lower_limit(), range.upper_limit(), k),
            ),
    {
        self.seq.range(range)
    }
}

impl<K: Key, V, S> ConcurrentMap<K, V, S> {
    /// If there is no value associated with `key`, associate it with what
    /// `insert` returns.
    ///
    /// The closure is called only if there is no value. Otherwise the existing
    /// value is given back, and none of the closure.
    pub fn insert_with<'g, 'k, F: FnOnce() -> V>(
        &'g mut self,
        key: K::Insert<'k>,
        insert: F,
    ) -> (outcome: Result<Shared<'g, V>, (Shared<'g, V>, Option<V>)>)
        requires
            old(self).wf(),
            !old(self)@.contains_key(K::insert_bytes(key)) ==> insert.requires(()),
        ensures
            final(self).wf(),
            old(self).compact() ==> final(self).compact(),
            final(self).smr == old(self).smr,
            match outcome {
                Ok(new) => {
                    &&& !old(self)@.contains_key(K::insert_bytes(key))
                    &&& insert.ensures((), *new.value)
                    &&& final(self)@ == old(self)@.insert(K::insert_bytes(key), *new.value)
                    &&& inserted::<K, V>(
                        old(self).seq.root.shape(),
                        final(self).seq.root.shape(),
                        K::insert_bytes(key),
                        *new.value,
                    )
                },
                Err((existing, new)) => {
                    &&& old(self)@.contains_key(K::insert_bytes(key))
                    &&& new is None
                    &&& *existing.value == old(self)@[K::insert_bytes(key)]
                    &&& final(self)@ == old(self)@
                    &&& final(self).seq.root.shape() == old(self).seq.root.shape()
                },
            },
    {
        broadcast use lemma_kept;

        let ghost before = self@;
        let ghost bytes = K::insert_bytes(key);
        match self.seq.entry(key) {
            Entry::Vacant(entry) => {
                let new = entry.insert(insert());
                Ok(Shared { value: &*new })
            },
            Entry::Occupied(entry) => {
                assert(before.insert(bytes, before[bytes]) =~= before);
                let existing = entry.into_mut();
                Err((Shared { value: &*existing }, None))
            },
        }
    }

    /// Call `upsert` with the current value and `initial`, and associate `key`
    /// with the value that it continues with.
    ///
    /// If the closure breaks, nothing changes, and what it breaks with is
    /// given back.
    pub fn upsert_with<'g, 'k, F: FnOnce(Option<&V>, Option<V>) -> ControlFlow<Option<V>, V>>(
        &'g mut self,
        key: K::Insert<'k>,
        initial: Option<V>,
        upsert: F,
    ) -> (outcome: Upsert<'g, V, S>)
        requires
            old(self).wf(),
            old(self)@.contains_key(K::insert_bytes(key)) ==> upsert.requires(
                (Some(&old(self)@[K::insert_bytes(key)]), initial),
            ),
            !old(self)@.contains_key(K::insert_bytes(key)) ==> upsert.requires((None, initial)),
        ensures
            final(self).wf(),
            old(self).compact() ==> final(self).compact(),
            ({
                let bytes = K::insert_bytes(key);
                let current = if old(self)@.contains_key(bytes) {
                    Some(&old(self)@[bytes])
                } else {
                    None
                };
                match outcome {
                    Upsert::Success(upserted) => {
                        &&& upsert.ensures(
                            (current, initial),
                            ControlFlow::Continue(*upserted.new),
                        )
                        &&& final(self)@ == old(self)@.insert(bytes, *upserted.new)
                        &&& upserted.old == (if old(self)@.contains_key(bytes) {
                            Some(old(self)@[bytes])
                        } else {
                            None
                        })
                        &&& if old(self)@.contains_key(bytes) {
                            revalued::<K, V>(
                                old(self).seq.root.shape(),
                                final(self).seq.root.shape(),
                                bytes,
                                *upserted.new,
                            )
                        } else {
                            inserted::<K, V>(
                                old(self).seq.root.shape(),
                                final(self).seq.root.shape(),
                                bytes,
                                *upserted.new,
                            )
                        }
                        &&& *upserted.smr == old(self).smr
                        &&& *final(upserted.smr) == final(self).smr
                    },
                    Upsert::Break { old: shared, new } => {
                        &&& upsert.ensures((current, initial), ControlFlow::Break(new))
                        &&& final(self)@ == old(self)@
                        &&& final(self).seq.root.shape() == old(self).seq.root.shape()
                        &&& final(self).smr == old(self).smr
                        &&& match shared {
                            Some(shared) => current == Some(shared.value),
                            None => current is None,
                        }
                    },
                }
            }),
    {
        broadcast use lemma_kept;

        let ghost before = self@;
        let ghost bytes = K::insert_bytes(key);
        let ghost absent = !before.contains_key(bytes);
        if !self.seq.contains_insert(key) {
            match upsert(None, initial) {
                ControlFlow::Break(new) => Upsert::Break { old: None, new },
                ControlFlow::Continue(new) => match self.seq.entry(key) {
                    Entry::Vacant(entry) => {
                        let new = entry.insert(new);
                        Upsert::Success(Upserted { old: None, new: &*new, smr: &mut self.smr })
                    },
                    Entry::Occupied(_) => vstd::pervasive::unreached(),
                },
            }
        } else {
            match self.seq.entry(key) {
                Entry::Vacant(_) => vstd::pervasive::unreached(),
                Entry::Occupied(mut entry) => match upsert(Some(entry.get()), initial) {
                    ControlFlow::Break(new) => {
                        assert(before.insert(bytes, before[bytes]) =~= before);
                        let existing = entry.into_mut();
                        Upsert::Break { old: Some(Shared { value: &*existing }), new }
                    },
                    ControlFlow::Continue(new) => {
                        let old = entry.update(new);
                        let new = entry.into_mut();
                        Upsert::Success(Upserted { old: Some(old), new: &*new, smr: &mut self.smr })
                    },
                },
            }
        }
    }

    /// If there is a value associated with `key`, call `update` with it and
    /// with `initial`, and change it to the value that the closure continues
    /// with.
    ///
    /// If the closure breaks, nothing changes, and what it breaks with is
    /// given back.
    pub fn update_with<'g, 'k, F: FnOnce(&V, Option<V>) -> ControlFlow<Option<V>, V>>(
        &'g mut self,
        key: K::Borrowed<'k>,
        initial: Option<V>,
        update: F,
    ) -> (outcome: Update<'g, V, S>)
        requires
            old(self).wf(),
            old(self)@.contains_key(K::borrowed_bytes(key)) ==> update.requires(
                (&old(self)@[K::borrowed_bytes(key)], initial),
            ),
        ensures
            final(self).wf(),
            old(self).compact() ==> final(self).compact(),
            ({
                let bytes = K::borrowed_bytes(key);
                let current = &old(self)@[bytes];
                match outcome {
                    Update::Absent { new } => {
                        &&& !old(self)@.contains_key(bytes)
                        &&& new == initial
                        &&& final(self)@ == old(self)@
                        &&& final(self).seq.root.shape() == old(self).seq.root.shape()
                        &&& final(self).smr == old(self).smr
                    },
                    Update::Success(updated) => {
                        &&& old(self)@.contains_key(bytes)
                        &&& update.ensures(
                            (current, initial),
                            ControlFlow::Continue(*updated.new),
                        )
                        &&& final(self)@ == old(self)@.insert(bytes, *updated.new)
                        &&& updated.old == old(self)@[bytes]
                        &&& revalued::<K, V>(
                            old(self).seq.root.shape(),
                            final(self).seq.root.shape(),
                            bytes,
                            *updated.new,
                        )
                        &&& *updated.smr == old(self).smr
                        &&& *final(updated.smr) == final(self).smr
                    },
                    Update::Break { old: shared, new } => {
                        &&& old(self)@.contains_key(bytes)
                        &&& update.ensures((current, initial), ControlFlow::Break(new))
                        &&& final(self)@ == old(self)@
                        &&& final(self).seq.root.shape() == old(self).seq.root.shape()
                        &&& final(self).smr == old(self).smr
                        &&& *shared.value == old(self)@[bytes]
                    },
                }
            }),
    {
        broadcast use lemma_kept;

        let ghost before = self@;
        let ghost bytes = K::borrowed_bytes(key);
        match self.seq.get_mut(key) {
            None => Update::Absent { new: initial },
            Some(value) => match update(&*value, initial) {
                ControlFlow::Break(new) => {
                    assert(before.insert(bytes, before[bytes]) =~= before);
                    Update::Break { old: Shared { value: &*value }, new }
                },
                ControlFlow::Continue(new) => {
                    let mut old = new;
                    core::mem::swap(&mut *value, &mut old);
                    Update::Success(Updated { old, new: &*value, smr: &mut self.smr })
                },
            },
        }
    }

    /// If there is a value associated with `key`, call `remove` with it, and
    /// remove it if the closure continues, recursively removing empty tree
    /// nodes.
    pub fn remove_with<'g, 'k, F: FnOnce(&V) -> ControlFlow<(), ()>>(
        &'g mut self,
        key: K::Borrowed<'k>,
        remove: F,
    ) -> (outcome: Remove<'g, V, S>)
        requires
            old(self).wf(),
            old(self)@.contains_key(K::borrowed_bytes(key)) ==> remove.requires(
                (&old(self)@[K::borrowed_bytes(key)],),
            ),
        ensures
            final(self).wf(),
            old(self).compact() ==> final(self).compact(),
            ({
                let bytes = K::borrowed_bytes(key);
                match outcome {
                    Remove::Absent => {
                        &&& !old(self)@.contains_key(bytes)
                        &&& final(self)@ == old(self)@
                        &&& final(self).seq.root.shape() == old(self).seq.root.shape()
                        &&& final(self).smr == old(self).smr
                    },
                    Remove::Success { old: owned } => {
                        &&& old(self)@.contains_key(bytes)
                        &&& exists|flow: ControlFlow<(), ()>| #[trigger]
                            remove.ensures((&old(self)@[bytes],), flow) && flow is Continue
                        &&& owned.value == old(self)@[bytes]
                        &&& final(self)@ == old(self)@.remove(bytes)
                        &&& final(self).seq.root.shape() == old(self).seq.root.shape().remove(
                            bytes,
                            true,
                            K::Edge::max(),
                        ).0
                        &&& *owned.smr == old(self).smr
                        &&& *final(owned.smr) == final(self).smr
                    },
                    Remove::Break { old: shared } => {
                        &&& old(self)@.contains_key(bytes)
                        &&& exists|flow: ControlFlow<(), ()>| #[trigger]
                            remove.ensures((&old(self)@[bytes],), flow) && flow is Break
                        &&& *shared.value == old(self)@[bytes]
                        &&& final(self)@ == old(self)@
                        &&& final(self).seq.root.shape() == old(self).seq.root.shape()
                        &&& final(self).smr == old(self).smr
                    },
                }
            }),
    {
        let decision = match self.seq.get(key) {
            None => {
                return Remove::Absent;
            },
            Some(value) => remove(value),
        };
        match decision {
            ControlFlow::Break(()) => match self.seq.get(key) {
                Some(value) => Remove::Break { old: Shared { value } },
                None => vstd::pervasive::unreached(),
            },
            ControlFlow::Continue(()) => match self.seq.remove(key) {
                Some(value) => Remove::Success { old: Owned { value, smr: &mut self.smr } },
                None => vstd::pervasive::unreached(),
            },
        }
    }

    /// If there is a value associated with `key`, call `remove` with it, and
    /// remove it if the closure continues, **without** recursively removing
    /// empty tree nodes.
    pub fn remove_non_recursive_with<'g, 'k, F: FnOnce(&V) -> ControlFlow<(), ()>>(
        &'g mut self,
        key: K::Borrowed<'k>,
        remove: F,
    ) -> (outcome: Remove<'g, V, S>)
        requires
            old(self).wf(),
            old(self)@.contains_key(K::borrowed_bytes(key)) ==> remove.requires(
                (&old(self)@[K::borrowed_bytes(key)],),
            ),
        ensures
            final(self).wf(),
            ({
                let bytes = K::borrowed_bytes(key);
                match outcome {
                    Remove::Absent => {
                        &&& !old(self)@.contains_key(bytes)
                        &&& final(self)@ == old(self)@
                        &&& final(self).seq.root.shape() == old(self).seq.root.shape()
                        &&& final(self).smr == old(self).smr
                    },
                    Remove::Success { old: owned } => {
                        &&& old(self)@.contains_key(bytes)
                        &&& exists|flow: ControlFlow<(), ()>| #[trigger]
                            remove.ensures((&old(self)@[bytes],), flow) && flow is Continue
                        &&& owned.value == old(self)@[bytes]
                        &&& final(self)@ == old(self)@.remove(bytes)
                        &&& final(self).seq.root.shape() == old(self).seq.root.shape().remove(
                            bytes,
                            false,
                            K::Edge::max(),
                        ).0
                        &&& *owned.smr == old(self).smr
                        &&& *final(owned.smr) == final(self).smr
                    },
                    Remove::Break { old: shared } => {
                        &&& old(self)@.contains_key(bytes)
                        &&& exists|flow: ControlFlow<(), ()>| #[trigger]
                            remove.ensures((&old(self)@[bytes],), flow) && flow is Break
                        &&& *shared.value == old(self)@[bytes]
                        &&& final(self)@ == old(self)@
                        &&& final(self).seq.root.shape() == old(self).seq.root.shape()
                        &&& final(self).smr == old(self).smr
                    },
                }
            }),
    {
        let decision = match self.seq.get(key) {
            None => {
                return Remove::Absent;
            },
            Some(value) => remove(value),
        };
        match decision {
            ControlFlow::Break(()) => match self.seq.get(key) {
                Some(value) => Remove::Break { old: Shared { value } },
                None => vstd::pervasive::unreached(),
            },
            ControlFlow::Continue(()) => match self.seq.remove_non_recursive(key) {
                Some(value) => Remove::Success { old: Owned { value, smr: &mut self.smr } },
                None => vstd::pervasive::unreached(),
            },
        }
    }
}

impl<K: topology::Key, V, S> ConcurrentMap<K, V, S> {
    /// Capture the exact structure of the tree, see
    /// [`SequentialMap::export_topology`].
    pub fn export_topology<T, F: Fn(&V) -> T>(&self, encode: F) -> (exported: Result<
        Topology<T>,
        topology::Error,
    >)
        requires
            self.wf(),
            forall|value: &V| #[trigger] encode.requires((value,)),
        ensures
            match exported {
                Ok(topology) => {
                    &&& self.compact()
                    &&& topology_error(topology, K::size()) is None
                    &&& pictures(
                        topology,
                        self.seq.root.shape(),
                        |leaf: Leaf<Implicit, V>, picture: T|
                            encode.ensures((&leaf.value,), picture),
                    )
                    &&& topology.root matches Some(root) ==> slot_sorted(root)
                },
                Err(error) => !self.compact() && error == topology::Error::EmptyNode,
            },
    {
        self.seq.export_topology(encode)
    }
}

impl<K: topology::Key, V, S: Default> ConcurrentMap<K, V, S> {
    /// Restore a tree, see [`SequentialMap::from_topology`].
    pub fn from_topology<T, F: Fn(T) -> V>(topology: Topology<T>, decode: F) -> (restored: Result<
        Self,
        topology::Error,
    >)
        requires
            forall|picture: T| #[trigger] decode.requires((picture,)),
        ensures
            match restored {
                Ok(map) => {
                    &&& topology_error(topology, K::size()) is None
                    &&& map.wf()
                    &&& map.compact()
                    &&& pictures(
                        topology,
                        map.seq.root.shape(),
                        |leaf: Leaf<Implicit, V>, picture: T|
                            decode.ensures((picture,), leaf.value),
                    )
                    &&& call_ensures(S::default, (), map.smr)
                },
                Err(error) => topology_error(topology, K::size()) == Some(error),
            },
    {
        match SequentialMap::from_topology(topology, decode) {
            Ok(seq) => Ok(ConcurrentMap { smr: S::default(), seq }),
            Err(error) => Err(error),
        }
    }
}

} // verus!
