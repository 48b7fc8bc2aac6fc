//! Map that supports lexicographically ordered range and prefix scans.
use vstd::pervasive::unreached;
use vstd::prelude::*;
use crate::raw::edge::{Edge, Meta};
use crate::raw::key::{Key, Read};
use crate::raw::shape::laws::{lemma_insert, lemma_insert_same, lemma_remove};
use crate::raw::shape::Shape;

verus! {

/// A value, and what gives its key back.
pub struct Leaf<O, V> {
    pub origin: O,
    pub value: V,
}

/// Non-concurrent map that supports lexicographically ordered range and prefix
/// scans.
///
/// Radix trees do not store keys explicitly: they are encoded in the structure
/// of the tree. Operations that insert take a [`Key::Insert`]; operations that
/// do not insert a new key take a [`Key::Borrowed`].
pub struct SequentialMap<K: Key, V> {
    pub root: Edge<K::Edge, Leaf<K::Origin, V>>,
}

/// Every key can be stored, and only keys are.
pub open spec fn keyed<K: Key, V>(shape: Shape<Leaf<K::Origin, V>>) -> bool {
    &&& forall|k: Seq<u8>| #[trigger] K::is_key(k) ==> shape.accepts(k)
    &&& forall|k: Seq<u8>|
        (#[trigger] shape.get(k)) is Some ==> K::is_key(k) && K::origin_of(
            shape.get(k)->0.origin,
            k,
        )
}

/// The map from key bytes to values that a shape stands for.
pub open spec fn contents<O, V>(shape: Shape<Leaf<O, V>>) -> Map<Seq<u8>, V> {
    Map::new(|k: Seq<u8>| shape.get(k) is Some, |k: Seq<u8>| shape.get(k)->0.value)
}

/// The tree after `key` is associated with `value`.
pub open spec fn inserted<K: Key, V>(
    before: Shape<Leaf<K::Origin, V>>,
    after: Shape<Leaf<K::Origin, V>>,
    key: Seq<u8>,
    value: V,
) -> bool {
    exists|origin: K::Origin| #[trigger]
        K::origin_of(origin, key) && after == before.insert(
            key,
            Leaf { origin, value },
            K::Edge::max(),
        )
}

/// The tree after the value of `key` is exchanged for `value`, with all else as
/// it was.
pub open spec fn revalued<K: Key, V>(
    before: Shape<Leaf<K::Origin, V>>,
    after: Shape<Leaf<K::Origin, V>>,
    key: Seq<u8>,
    value: V,
) -> bool {
    &&& before.get(key) is Some
    &&& after == before.insert(
        key,
        Leaf { origin: before.get(key)->0.origin, value },
        K::Edge::max(),
    )
}

/// Exchanging a value for itself changes nothing.
pub proof fn lemma_revalued_same<K: Key, V>(
    before: Shape<Leaf<K::Origin, V>>,
    after: Shape<Leaf<K::Origin, V>>,
    key: Seq<u8>,
)
    requires
        revalued::<K, V>(before, after, key, before.get(key)->0.value),
    ensures
        after == before,
{
    lemma_insert_same(before, key, K::Edge::max());
}

/// A sound root before and after `value` is inserted under an absent key.
pub open spec fn filled<K: Key, V>(
    before: Edge<K::Edge, Leaf<K::Origin, V>>,
    after: Edge<K::Edge, Leaf<K::Origin, V>>,
    key: Seq<u8>,
    value: V,
) -> bool {
    &&& after.wf()
    &&& keyed::<K, V>(after.shape())
    &&& before.shape().compact() ==> after.shape().compact()
    &&& contents(after.shape()) == contents(before.shape()).insert(key, value)
    &&& inserted::<K, V>(before.shape(), after.shape(), key, value)
}

/// Contents after an insert.
pub proof fn lemma_contents_insert<K: Key, V>(
    shape: Shape<Leaf<K::Origin, V>>,
    key: Seq<u8>,
    leaf: Leaf<K::Origin, V>,
    max: nat,
)
    requires
        shape.wf(max),
        keyed::<K, V>(shape),
        K::is_key(key),
        K::origin_of(leaf.origin, key),
    ensures
        keyed::<K, V>(shape.insert(key, leaf, max)),
        contents(shape.insert(key, leaf, max)) == contents(shape).insert(key, leaf.value),
        shape.compact() ==> shape.insert(key, leaf, max).compact(),
        max == K::Edge::max() ==> inserted::<K, V>(
            shape,
            shape.insert(key, leaf, max),
            key,
            leaf.value,
        ),
{
    lemma_insert(shape, key, leaf, max);
    let after = shape.insert(key, leaf, max);
    assert forall|k: Seq<u8>| #[trigger] K::is_key(k) implies after.accepts(k) by {
        K::lemma_prefix_property(key, k);
    }
    assert forall|k: Seq<u8>| (#[trigger] after.get(k)) is Some implies K::is_key(k)
        && K::origin_of(after.get(k)->0.origin, k) by {
        if k != key {
            assert(shape.get(k) is Some);
        }
    }
    assert(contents(after) =~= contents(shape).insert(key, leaf.value));
}

/// Contents after a remove.
pub proof fn lemma_contents_remove<K: Key, V>(
    shape: Shape<Leaf<K::Origin, V>>,
    key: Seq<u8>,
    recursive: bool,
    max: nat,
)
    requires
        shape.wf(max),
        keyed::<K, V>(shape),
    ensures
        keyed::<K, V>(shape.remove(key, recursive, max).0),
        contents(shape.remove(key, recursive, max).0) == contents(shape).remove(key),
        shape.compact() && recursive ==> shape.remove(key, recursive, max).0.compact(),
{
    lemma_remove(shape, key, recursive, max);
    let after = shape.remove(key, recursive, max).0;
    assert forall|k: Seq<u8>| #[trigger] K::is_key(k) implies after.accepts(k) by {
        assert(shape.accepts(k));
    }
    assert forall|k: Seq<u8>| (#[trigger] after.get(k)) is Some implies K::is_key(k)
        && K::origin_of(after.get(k)->0.origin, k) by {
        assert(shape.get(k) is Some);
    }
    assert(contents(after) =~= contents(shape).remove(key));
}

impl<K: Key, V> View for SequentialMap<K, V> {
    type V = Map<Seq<u8>, V>;

    /// Value of each key, by the bytes of the key.
    open spec fn view(&self) -> Map<Seq<u8>, V> {
        contents(self.root.shape())
    }
}

impl<K: Key, V> SequentialMap<K, V> {
    pub open spec fn wf(&self) -> bool {
        &&& self.root.wf()
        &&& keyed::<K, V>(self.root.shape())
    }

    /// No node is empty.
    pub open spec fn compact(&self) -> bool {
        self.root.shape().compact()
    }

    /// Constructs a new empty map. Does not allocate.
    pub fn new() -> (map: Self)
        ensures
            map.wf(),
            map.compact(),
            map@ == Map::<Seq<u8>, V>::empty(),
            map.root.shape() is Null,
    {
        let map = SequentialMap { root: Edge::Null };
        assert(map@ =~= Map::<Seq<u8>, V>::empty());
        map
    }

    /// Returns whether `key` has an associated value.
    pub fn contains_key<'k>(&self, key: K::Borrowed<'k>) -> (contains: bool)
        requires
            self.wf(),
        ensures
            contains == self@.contains_key(K::borrowed_bytes(key)),
    {
        self.get(key).is_some()
    }

    /// Returns whether a key to insert has an associated value.
    pub(crate) fn contains_insert<'k>(&self, key: K::Insert<'k>) -> (contains: bool)
        requires
            self.wf(),
        ensures
            contains == self@.contains_key(K::insert_bytes(key)),
    {
        self.root.get(K::insert_as_read(&key)).is_some()
    }

    /// Returns an immutable reference to the value associated with `key`.
    pub fn get<'k>(&self, key: K::Borrowed<'k>) -> (value: Option<&V>)
        requires
            self.wf(),
        ensures
            match value {
                Some(value) => self@.contains_key(K::borrowed_bytes(key))
                    && self@[K::borrowed_bytes(key)] == *value,
                None => !self@.contains_key(K::borrowed_bytes(key)),
            },
    {
        match self.root.get(K::read(key)) {
            Some(leaf) => Some(&leaf.value),
            None => None,
        }
    }

    /// Returns a mutable reference to the value associated with `key`.
    pub fn get_mut<'k>(&mut self, key: K::Borrowed<'k>) -> (value: Option<&mut V>)
        requires
            old(self).wf(),
        ensures
            final(self).wf(),
            old(self).compact() ==> final(self).compact(),
            match value {
                Some(value) => old(self)@.contains_key(K::borrowed_bytes(key)) && old(
                    self,
                )@[K::borrowed_bytes(key)] == *value && final(self)@ == old(self)@.insert(
                    K::borrowed_bytes(key),
                    *final(value),
                ) && revalued::<K, V>(
                    old(self).root.shape(),
                    final(self).root.shape(),
                    K::borrowed_bytes(key),
                    *final(value),
                ),
                None => !old(self)@.contains_key(K::borrowed_bytes(key))
                    && final(self).root.shape() == old(self).root.shape(),
            },
    {
        let reader = K::read(key);
        self.get_mut_raw(reader)
    }

    pub(crate) fn get_mut_raw<'k>(&mut self, reader: K::Read<'k>) -> (value: Option<&mut V>)
        requires
            old(self).wf(),
            reader.valid(),
            K::is_key(reader.bytes()),
        ensures
            final(self).wf(),
            old(self).compact() ==> final(self).compact(),
            match value {
                Some(value) => old(self)@.contains_key(reader.bytes()) && old(
                    self,
                )@[reader.bytes()] == *value && final(self)@ == old(self)@.insert(
                    reader.bytes(),
                    *final(value),
                ) && revalued::<K, V>(
                    old(self).root.shape(),
                    final(self).root.shape(),
                    reader.bytes(),
                    *final(value),
                ),
                None => !old(self)@.contains_key(reader.bytes()) && final(self).root.shape()
                    == old(self).root.shape(),
            },
    {
        broadcast use lemma_contents_update;

        proof {
            self.root.lemma_shape_wf();
        }
        match self.root.get_mut(reader) {
            Some(leaf) => Some(&mut leaf.value),
            None => None,
        }
    }
}

impl<K: Key, V> SequentialMap<K, V> {
    /// If there is no value associated with `key`, associate it with `value`.
    ///
    /// Returns `Ok(&mut new_value)` if the insert succeeded, or else
    /// `Err((&mut old_value, new_value))` if there is an existing `old_value`
    /// associated with the key.
    pub fn insert<'k>(&mut self, key: K::Insert<'k>, value: V) -> (outcome: Result<
        &mut V,
        (&mut V, V),
    >)
        requires
            old(self).wf(),
        ensures
            final(self).wf(),
            old(self).compact() ==> final(self).compact(),
            match outcome {
                Ok(new) => !old(self)@.contains_key(K::insert_bytes(key)) && *new == value
                    && final(self)@ == old(self)@.insert(K::insert_bytes(key), *final(new))
                    && inserted::<K, V>(
                    old(self).root.shape(),
                    final(self).root.shape(),
                    K::insert_bytes(key),
                    *final(new),
                ),
                Err((existing, new)) => old(self)@.contains_key(K::insert_bytes(key)) && *existing
                    == old(self)@[K::insert_bytes(key)] && new == value && final(self)@ == old(
                    self,
                )@.insert(K::insert_bytes(key), *final(existing)) && revalued::<K, V>(
                    old(self).root.shape(),
                    final(self).root.shape(),
                    K::insert_bytes(key),
                    *final(existing),
                ),
            },
    {
        match self.entry(key) {
            Entry::Vacant(entry) => Ok(entry.insert(value)),
            Entry::Occupied(entry) => Err((entry.into_mut(), value)),
        }
    }

    /// Unconditionally associate `key` with `value`.
    ///
    /// Returns `Ok((old_value, &mut new_value))` if this updated `old_value`,
    /// or `Err(&mut new_value)` if there was no value associated with `key`.
    pub fn upsert<'k>(&mut self, key: K::Insert<'k>, value: V) -> (upserted: Result<
        (V, &mut V),
        &mut V,
    >)
        requires
            old(self).wf(),
        ensures
            final(self).wf(),
            old(self).compact() ==> final(self).compact(),
            match upserted {
                Ok((previous, new)) => old(self)@.contains_key(K::insert_bytes(key)) && previous
                    == old(self)@[K::insert_bytes(key)] && *new == value && final(self)@ == old(
                    self,
                )@.insert(K::insert_bytes(key), *final(new)) && revalued::<K, V>(
                    old(self).root.shape(),
                    final(self).root.shape(),
                    K::insert_bytes(key),
                    *final(new),
                ),
                Err(new) => !old(self)@.contains_key(K::insert_bytes(key)) && *new == value
                    && final(self)@ == old(self)@.insert(K::insert_bytes(key), *final(new))
                    && inserted::<K, V>(
                    old(self).root.shape(),
                    final(self).root.shape(),
                    K::insert_bytes(key),
                    *final(new),
                ),
            },
    {
        match self.entry(key) {
            Entry::Vacant(entry) => Err(entry.insert(value)),
            Entry::Occupied(mut entry) => {
                let previous = entry.update(value);
                Ok((previous, entry.into_mut()))
            },
        }
    }

    /// If there is a value associated with `key`, update it to `value`.
    ///
    /// Returns `Ok((old_value, &mut new_value))` if the update succeeded, or
    /// else `Err(new_value)` if there was no old value associated with `key`.
    pub fn update<'k>(&mut self, key: K::Borrowed<'k>, value: V) -> (updated: Result<
        (V, &mut V),
        V,
    >)
        requires
            old(self).wf(),
        ensures
            final(self).wf(),
            old(self).compact() ==> final(self).compact(),
            match updated {
                Ok((previous, new)) => old(self)@.contains_key(K::borrowed_bytes(key)) && previous
                    == old(self)@[K::borrowed_bytes(key)] && *new == value && final(self)@ == old(
                    self,
                )@.insert(K::borrowed_bytes(key), *final(new)) && revalued::<K, V>(
                    old(self).root.shape(),
                    final(self).root.shape(),
                    K::borrowed_bytes(key),
                    *final(new),
                ),
                Err(new) => !old(self)@.contains_key(K::borrowed_bytes(key)) && new == value
                    && final(self)@ == old(self)@ && final(self).root.shape() == old(
                    self,
                ).root.shape(),
            },
    {
        match self.get_mut(key) {
            None => Err(value),
            Some(current) => {
                let mut previous = value;
                core::mem::swap(current, &mut previous);
                Ok((previous, current))
            },
        }
    }

    /// If there is a value associated with `key`, remove it from the map,
    /// recursively removing empty tree nodes.
    ///
    /// Returns `Some(old_value)` if the remove succeeded, or else `None` if
    /// there was no old value associated with `key`.
    pub fn remove<'k>(&mut self, key: K::Borrowed<'k>) -> (removed: Option<V>)
        requires
            old(self).wf(),
        ensures
            final(self).wf(),
            old(self).compact() ==> final(self).compact(),
            final(self)@ == old(self)@.remove(K::borrowed_bytes(key)),
            removed == (if old(self)@.contains_key(K::borrowed_bytes(key)) {
                Some(old(self)@[K::borrowed_bytes(key)])
            } else {
                None
            }),
            final(self).root.shape() == old(self).root.shape().remove(
                K::borrowed_bytes(key),
                true,
                K::Edge::max(),
            ).0,
    {
        self.remove_raw(key, true)
    }

    /// If there is a value associated with `key`, remove it from the map,
    /// **without** recursively removing empty tree nodes.
    ///
    /// This is faster than [`SequentialMap::remove`], but the memory usage of
    /// the tree is no longer correlated with the number of keys and values
    /// that it contains.
    pub fn remove_non_recursive<'k>(&mut self, key: K::Borrowed<'k>) -> (removed: Option<V>)
        requires
            old(self).wf(),
        ensures
            final(self).wf(),
            final(self)@ == old(self)@.remove(K::borrowed_bytes(key)),
            removed == (if old(self)@.contains_key(K::borrowed_bytes(key)) {
                Some(old(self)@[K::borrowed_bytes(key)])
            } else {
                None
            }),
            final(self).root.shape() == old(self).root.shape().remove(
                K::borrowed_bytes(key),
                false,
                K::Edge::max(),
            ).0,
    {
        self.remove_raw(key, false)
    }

    fn remove_raw<'k>(&mut self, key: K::Borrowed<'k>, recursive: bool) -> (removed: Option<V>)
        requires
            old(self).wf(),
        ensures
            final(self).wf(),
            recursive && old(self).compact() ==> final(self).compact(),
            final(self)@ == old(self)@.remove(K::borrowed_bytes(key)),
            removed == (if old(self)@.contains_key(K::borrowed_bytes(key)) {
                Some(old(self)@[K::borrowed_bytes(key)])
            } else {
                None
            }),
            final(self).root.shape() == old(self).root.shape().remove(
                K::borrowed_bytes(key),
                recursive,
                K::Edge::max(),
            ).0,
    {
        proof {
            self.root.lemma_shape_wf();
            lemma_contents_remove::<K, V>(
                self.root.shape(),
                K::borrowed_bytes(key),
                recursive,
                K::Edge::max(),
            );
        }
        match self.root.remove(K::read(key), recursive).0 {
            Some(leaf) => Some(leaf.value),
            None => None,
        }
    }

    /// Get a logical entry associated with `key`.
    ///
    /// This is a lazy operation, and does not allocate or modify the tree
    /// structure.
    pub fn entry<'g, 'k>(&'g mut self, key: K::Insert<'k>) -> (entry: Entry<'g, 'k, K, V>)
        requires
            old(self).wf(),
        ensures
            match entry {
                Entry::Vacant(entry) => {
                    &&& !old(self)@.contains_key(K::insert_bytes(key))
                    &&& entry.key == key
                    &&& entry.root.shape() == old(self).root.shape()
                    &&& entry.wf()
                    &&& *final(entry.root) == final(self).root
                },
                Entry::Occupied(entry) => {
                    &&& old(self)@.contains_key(K::insert_bytes(key))
                    &&& *entry.value == old(self)@[K::insert_bytes(key)]
                    &&& final(self).wf()
                    &&& old(self).compact() ==> final(self).compact()
                    &&& final(self)@ == old(self)@.insert(
                        K::insert_bytes(key),
                        *final(entry.value),
                    )
                    &&& revalued::<K, V>(
                        old(self).root.shape(),
                        final(self).root.shape(),
                        K::insert_bytes(key),
                        *final(entry.value),
                    )
                },
            },
    {
        broadcast use lemma_contents_update;

        let reader = K::insert_as_read(&key);
        proof {
            self.root.lemma_shape_wf();
        }
        if self.root.get(reader).is_none() {
            return Entry::Vacant(Vacant { root: &mut self.root, key });
        }
        match self.root.get_mut(reader) {
            Some(leaf) => Entry::Occupied(Occupied { value: &mut leaf.value }),
            None => unreached(),
        }
    }
}

impl<K: Key, V> Default for SequentialMap<K, V> {
    fn default() -> (map: Self)
        ensures
            map.wf(),
            map.compact(),
            map@ == Map::<Seq<u8>, V>::empty(),
            map.root.shape() is Null,
    {
        Self::new()
    }
}

/// A map with the first `n` pairs, where later pairs take precedence.
pub open spec fn collected<'k, K: Key, V>(pairs: Seq<(K::Insert<'k>, V)>, n: int) -> Map<
    Seq<u8>,
    V,
>
    decreases n,
{
    if n <= 0 || n > pairs.len() {
        Map::empty()
    } else {
        collected::<K, V>(pairs, n - 1).insert(K::insert_bytes(pairs[n - 1].0), pairs[n - 1].1)
    }
}

/// The tree after `key` is associated with `value`, whether it had a value or
/// not.
pub open spec fn stored<K: Key, V>(
    before: Shape<Leaf<K::Origin, V>>,
    after: Shape<Leaf<K::Origin, V>>,
    key: Seq<u8>,
    value: V,
) -> bool {
    if before.get(key) is Some {
        revalued::<K, V>(before, after, key, value)
    } else {
        inserted::<K, V>(before, after, key, value)
    }
}

/// The tree that results when the first `n` pairs are stored one by one.
pub open spec fn planted<'k, K: Key, V>(
    pairs: Seq<(K::Insert<'k>, V)>,
    n: int,
    after: Shape<Leaf<K::Origin, V>>,
) -> bool
    decreases n,
{
    if n <= 0 || n > pairs.len() {
        after is Null
    } else {
        exists|before: Shape<Leaf<K::Origin, V>>|
            planted::<K, V>(pairs, n - 1, before) && #[trigger] stored::<K, V>(
                before,
                after,
                K::insert_bytes(pairs[n - 1].0),
                pairs[n - 1].1,
            )
    }
}

impl<K: Key, V> SequentialMap<K, V> {
    /// Constructs a map from pairs, where later pairs take precedence.
    pub fn from_pairs<'k>(pairs: Vec<(K::Insert<'k>, V)>) -> (map: Self)
        ensures
            map.wf(),
            map.compact(),
            map@ == collected::<K, V>(pairs@, pairs@.len() as int),
            planted::<K, V>(pairs@, pairs@.len() as int, map.root.shape()),
    {
        let ghost all = pairs@;
        let mut rest = pairs;
        let mut todo: Vec<(K::Insert<'k>, V)> = Vec::new();
        while rest.len() > 0
            invariant
                rest@.len() + todo@.len() == all.len(),
                forall|i: int| 0 <= i < rest@.len() ==> rest@[i] == all[i],
                forall|i: int| 0 <= i < todo@.len() ==> todo@[i] == all[all.len() - 1 - i],
            decreases rest@.len(),
        {
            if let Some(pair) = rest.pop() {
                todo.push(pair);
            }
        }
        let mut map = Self::new();
        while todo.len() > 0
            invariant
                map.wf(),
                map.compact(),
                todo@.len() <= all.len(),
                forall|i: int| 0 <= i < todo@.len() ==> todo@[i] == all[all.len() - 1 - i],
                map@ == collected::<K, V>(all, all.len() - todo@.len()),
                planted::<K, V>(all, all.len() - todo@.len(), map.root.shape()),
            decreases todo@.len(),
        {
            let ghost before = map.root.shape();
            let ghost n = all.len() - todo@.len();
            if let Some((key, value)) = todo.pop() {
                let _ = map.upsert(key, value);
                proof {
                    assert(stored::<K, V>(
                        before,
                        map.root.shape(),
                        K::insert_bytes(all[n].0),
                        all[n].1,
                    ));
                }
            }
        }
        map
    }
}

/// A logical entry in a [`SequentialMap`] that may be vacant or occupied.
pub enum Entry<'g, 'k, K: Key, V> {
    /// A vacant entry.
    Vacant(Vacant<'g, 'k, K, V>),
    /// An occupied entry.
    Occupied(Occupied<'g, V>),
}

impl<'g, 'k, K: Key, V> Entry<'g, 'k, K, V> {
    pub open spec fn wf(&self) -> bool {
        self matches Entry::Vacant(entry) ==> entry.wf()
    }

    /// Insert `default` if there is no value associated with this entry, and
    /// return a mutable reference to the current value.
    pub fn or_insert(self, default: V) -> (value: &'g mut V)
        requires
            self.wf(),
        ensures
            match self {
                Entry::Occupied(entry) => {
                    &&& *value == *entry.value
                    &&& *final(value) == *final(entry.value)
                },
                Entry::Vacant(entry) => *value == default && filled::<K, V>(
                    *entry.root,
                    *final(entry.root),
                    K::insert_bytes(entry.key),
                    *final(value),
                ),
            },
    {
        match self {
            Entry::Occupied(entry) => entry.into_mut(),
            Entry::Vacant(entry) => entry.insert(default),
        }
    }

    /// Like [`Entry::or_insert`], but lazily evaluates `default`.
    pub fn or_insert_with<F: FnOnce() -> V>(self, default: F) -> (value: &'g mut V)
        requires
            self.wf(),
            self is Vacant ==> default.requires(()),
        ensures
            match self {
                Entry::Occupied(entry) => {
                    &&& *value == *entry.value
                    &&& *final(value) == *final(entry.value)
                },
                Entry::Vacant(entry) => default.ensures((), *value) && filled::<K, V>(
                    *entry.root,
                    *final(entry.root),
                    K::insert_bytes(entry.key),
                    *final(value),
                ),
            },
    {
        match self {
            Entry::Occupied(entry) => entry.into_mut(),
            Entry::Vacant(entry) => entry.insert(default()),
        }
    }

    /// If there is a value associated with this entry, apply `modify` to it.
    pub fn and_modify<F: FnOnce(&mut V)>(self, modify: F) -> (modified: Self)
        requires
            self matches Entry::Occupied(entry) ==> forall|value: &mut V|
                *value == *entry.value ==> #[trigger] modify.requires((value,)),
        ensures
            match self {
                Entry::Occupied(entry) => {
                    &&& modified matches Entry::Occupied(after)
                    &&& *final(after.value) == *final(entry.value)
                    &&& exists|value: &mut V|
                        *value == *entry.value && *final(value) == *after.value
                            && #[trigger] modify.ensures((value,), ())
                },
                Entry::Vacant(entry) => modified == Entry::Vacant(entry),
            },
    {
        match self {
            Entry::Occupied(mut entry) => {
                modify(entry.get_mut());
                Entry::Occupied(entry)
            },
            Entry::Vacant(entry) => Entry::Vacant(entry),
        }
    }
}

impl<'g, 'k, K: Key, V: Default> Entry<'g, 'k, K, V> {
    /// Insert the default value if there is no value associated with this
    /// entry, and return a mutable reference to the current value.
    pub fn or_default(self) -> (value: &'g mut V)
        requires
            self.wf(),
        ensures
            match self {
                Entry::Occupied(entry) => {
                    &&& *value == *entry.value
                    &&& *final(value) == *final(entry.value)
                },
                Entry::Vacant(entry) => call_ensures(V::default, (), *value) && filled::<K, V>(
                    *entry.root,
                    *final(entry.root),
                    K::insert_bytes(entry.key),
                    *final(value),
                ),
            },
    {
        match self {
            Entry::Occupied(entry) => entry.into_mut(),
            Entry::Vacant(entry) => entry.insert(V::default()),
        }
    }
}

/// A vacant entry in a [`SequentialMap`].
pub struct Vacant<'g, 'k, K: Key, V> {
    pub root: &'g mut Edge<K::Edge, Leaf<K::Origin, V>>,
    pub key: K::Insert<'k>,
}

impl<'g, 'k, K: Key, V> Vacant<'g, 'k, K, V> {
    pub open spec fn wf(&self) -> bool {
        &&& self.root.wf()
        &&& keyed::<K, V>(self.root.shape())
        &&& !contents(self.root.shape()).contains_key(K::insert_bytes(self.key))
    }

    /// Insert `value` into this entry and return a mutable reference to it.
    pub fn insert(self, value: V) -> (new: &'g mut V)
        requires
            self.wf(),
        ensures
            *new == value,
            filled::<K, V>(
                *old(self.root),
                *final(self.root),
                K::insert_bytes(self.key),
                *final(new),
            ),
    {
        self.insert_entry(value).into_mut()
    }

    /// Insert `value` into this entry and return an occupied entry.
    pub fn insert_entry(self, value: V) -> (entry: Occupied<'g, V>)
        requires
            self.wf(),
        ensures
            *entry.value == value,
            filled::<K, V>(
                *old(self.root),
                *final(self.root),
                K::insert_bytes(self.key),
                *final(entry.value),
            ),
    {
        broadcast use lemma_contents_update;

        proof {
            self.root.lemma_shape_wf();
        }
        let reader = K::insert_as_read(&self.key);
        let origin = K::origin(self.key);
        let leaf = self.root.insert(reader, Leaf { origin, value });
        Occupied { value: &mut leaf.value }
    }
}

/// An occupied entry in a [`SequentialMap`].
pub struct Occupied<'g, V> {
    pub value: &'g mut V,
}

impl<'g, V> Occupied<'g, V> {
    /// Get an immutable reference to the value in this entry.
    pub fn get(&self) -> (value: &V)
        ensures
            *value == *old(self.value),
    {
        &*self.value
    }

    /// Get a mutable reference to the value in this entry.
    pub fn get_mut(&mut self) -> (value: &mut V)
        ensures
            *value == *old(self).value,
            *final(self).value == *final(value),
            *final(final(self).value) == *final(old(self).value),
    {
        &mut *self.value
    }

    /// Update the value in this entry to `value`, and return the old value.
    pub fn update(&mut self, value: V) -> (previous: V)
        ensures
            previous == *old(self).value,
            *final(self).value == value,
            *final(final(self).value) == *final(old(self).value),
    {
        let mut previous = value;
        core::mem::swap(&mut *self.value, &mut previous);
        previous
    }

    /// Convert this entry into a mutable reference, preserving the lifetime.
    pub fn into_mut(self) -> (value: &'g mut V)
        ensures
            *value == *old(self.value),
            *final(value) == *final(self.value),
    {
        self.value
    }
}

/// Contents after the value of a key is exchanged.
broadcast proof fn lemma_contents_update<K: Key, V>(
    shape: Shape<Leaf<K::Origin, V>>,
    key: Seq<u8>,
    leaf: Leaf<K::Origin, V>,
    max: nat,
)
    requires
        shape.wf(max),
        keyed::<K, V>(shape),
        K::is_key(key),
        K::origin_of(leaf.origin, key),
    ensures
        #![trigger keyed::<K, V>(shape), shape.insert(key, leaf, max)]
        keyed::<K, V>(shape.insert(key, leaf, max)),
        contents(shape.insert(key, leaf, max)) == contents(shape).insert(key, leaf.value),
        shape.compact() ==> shape.insert(key, leaf, max).compact(),
        max == K::Edge::max() ==> inserted::<K, V>(
            shape,
            shape.insert(key, leaf, max),
            key,
            leaf.value,
        ),
{
    lemma_contents_insert::<K, V>(shape, key, leaf, max);
}

} // verus!
