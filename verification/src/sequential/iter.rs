//! Scans over the entries of a map.
use vstd::pervasive::unreached;
use vstd::prelude::*;
use crate::bytes::{common_len, lemma_common_len, lemma_common_len_symmetric, lex_le, lex_lt};
use crate::raw::edge::{Edge, Meta};
use crate::raw::iter::range::{
    continued, is_inverted, lemma_select_all, limit, limit_valid, Include, Range, RangeIter,
};
use crate::raw::iter::Order;
use crate::raw::key::{Key, Read, Write};
use crate::raw::shape::entries::{
    beginning, extend, in_range, lemma_entries, lemma_extend_empty, lemma_filter_sorted, lists,
    select,
};
use crate::raw::shape::Shape;
use crate::sequential::map::{contents, keyed, revalued, Leaf, SequentialMap};

verus! {

/// Entries without what gives their keys back.
pub open spec fn plain<O, V>(entries: Seq<(Seq<u8>, Leaf<O, V>)>) -> Seq<(Seq<u8>, V)> {
    Seq::new(entries.len(), |i: int| (entries[i].0, entries[i].1.value))
}

/// Every entry belongs to a key.
pub open spec fn entries_keyed<K: Key, V>(entries: Seq<(Seq<u8>, Leaf<K::Origin, V>)>) -> bool {
    forall|i: int|
        0 <= i < entries.len() ==> K::is_key((#[trigger] entries[i]).0) && K::origin_of(
            entries[i].1.origin,
            entries[i].0,
        )
}

/// Entries of a keyed shape that satisfy a predicate.
proof fn lemma_lists<K: Key, V>(
    shape: Shape<Leaf<K::Origin, V>>,
    pred: spec_fn(Seq<u8>) -> bool,
    kept: Seq<(Seq<u8>, Leaf<K::Origin, V>)>,
)
    requires
        keyed::<K, V>(shape),
        kept == shape.entries().filter(
            |entry: (Seq<u8>, Leaf<K::Origin, V>)| pred(entry.0),
        ),
    ensures
        lists(plain(kept), contents(shape), pred),
        entries_keyed::<K, V>(kept),
{
    let all = shape.entries();
    let keep = |entry: (Seq<u8>, Leaf<K::Origin, V>)| pred(entry.0);
    lemma_entries(shape);
    lemma_filter_sorted(all, keep);
    let out = plain(kept);
    let map = contents(shape);
    assert forall|i: int| 0 <= i < kept.len() implies shape.get((#[trigger] kept[i]).0) == Some(
        kept[i].1,
    ) && pred(kept[i].0) by {
        assert(keep(kept[i]) && all.contains(kept[i]));
        let j = all.index_of(kept[i]);
        assert(all[j] == kept[i]);
    }
    assert forall|i: int, j: int| 0 <= i < j < out.len() implies lex_lt(
        (#[trigger] out[i]).0,
        (#[trigger] out[j]).0,
    ) by {
        assert(lex_lt(kept[i].0, kept[j].0));
    }
    assert forall|i: int| 0 <= i < out.len() implies pred((#[trigger] out[i]).0)
        && map.contains_key(out[i].0) && map[out[i].0] == out[i].1 by {
        assert(shape.get(kept[i].0) == Some(kept[i].1));
    }
    assert forall|k: Seq<u8>| map.contains_key(k) && #[trigger] pred(k) implies out.contains(
        (k, map[k]),
    ) by {
        let entry = (k, shape.get(k)->0);
        assert(all.contains(entry) && keep(entry));
        let j = kept.index_of(entry);
        assert(kept[j] == entry);
        assert(out[j] == (k, map[k]));
    }
}

/// The part of a map that a scan walks.
pub struct Shard<'g, 'k, K: Key, V> {
    edge: Option<&'g Edge<K::Edge, Leaf<K::Origin, V>>>,
    prefix: K::Read<'k>,
    lower: Option<Include<K::Read<'k>>>,
    upper: Option<Include<K::Read<'k>>>,
}

impl<'g, 'k, K: Key, V> Shard<'g, 'k, K, V> {
    pub closed spec fn wf(self) -> bool {
        &&& self.prefix.valid()
        &&& limit_valid(self.lower)
        &&& limit_valid(self.upper)
        &&& match (limit(self.lower), limit(self.upper)) {
            (Some(lower), Some(upper)) => lex_le(lower, upper),
            _ => true,
        }
        &&& self.edge matches Some(edge) ==> edge.wf() && entries_keyed::<K, V>(
            extend(self.prefix.bytes(), edge.shape().entries()),
        )
    }

    closed spec fn leaves(self) -> Seq<(Seq<u8>, Leaf<K::Origin, V>)> {
        match self.edge {
            Some(edge) => select(
                extend(self.prefix.bytes(), edge.shape().entries()),
                continued(self.prefix.bytes(), limit(self.lower)),
                continued(self.prefix.bytes(), limit(self.upper)),
            ),
            None => Seq::empty(),
        }
    }
}

impl<'g, 'k, K: Key, V> View for Shard<'g, 'k, K, V> {
    type V = Seq<(Seq<u8>, V)>;

    /// Key bytes and value of each entry, in ascending order.
    closed spec fn view(&self) -> Seq<(Seq<u8>, V)> {
        plain(self.leaves())
    }
}

/// Keys between two bounds begin with what the bounds have in common.
proof fn lemma_between(lower: Seq<u8>, upper: Seq<u8>, key: Seq<u8>)
    requires
        lex_le(lower, key),
        lex_le(key, upper),
    ensures
        lower.take(common_len(lower, upper) as int).is_prefix_of(key),
{
    let n = common_len(lower, upper) as int;
    let common = lower.take(n);
    lemma_common_len(lower, upper);
    lemma_common_len(lower, key);
    lemma_common_len(key, upper);
    lemma_common_len_symmetric(lower, key);
    let m = common_len(lower, key) as int;
    if m < n {
        assert(lower[m] == upper[m]);
        assert(m < key.len());
        assert(lower[m] < key[m]);
        assert forall|i: int| 0 <= i < m implies key[i] == upper[i] by {
            assert(lower[i] == key[i]);
            assert(lower[i] == upper[i]);
        }
        crate::bytes::lemma_common_len_is(key, upper, m as nat);
    }
    assert forall|i: int| 0 <= i < n implies common[i] == key[i] by {
        assert(lower[i] == key[i]);
    }
    assert(common =~= key.subrange(0, n));
}

/// Looking at a part that holds all entries in range is enough.
proof fn lemma_select_beginning<V>(
    entries: Seq<(Seq<u8>, V)>,
    prefix: Seq<u8>,
    lower: Option<Seq<u8>>,
    upper: Option<Seq<u8>>,
)
    requires
        forall|k: Seq<u8>| #[trigger] in_range(lower, upper, k) ==> prefix.is_prefix_of(k),
    ensures
        select(beginning(entries, prefix), lower, upper) == select(entries, lower, upper),
    decreases entries.len(),
{
    reveal(Seq::filter);
    if entries.len() > 0 {
        let short = entries.drop_last();
        lemma_select_beginning(short, prefix, lower, upper);
        let part = beginning(short, prefix);
        if prefix.is_prefix_of(entries.last().0) {
            assert(beginning(entries, prefix) == part.push(entries.last()));
            assert(part.push(entries.last()).drop_last() =~= part);
        }
    }
}

impl<K: Key, V> SequentialMap<K, V> {
    /// Get an immutable reference to the entire tree.
    pub fn all<'g>(&'g self) -> (shard: Shard<'g, 'static, K, V>)
        requires
            self.wf(),
        ensures
            shard.wf(),
            lists(shard@, self@, |k: Seq<u8>| true),
    {
        let prefix = <K::Read<'static> as Read>::empty();
        let shard = Shard { edge: Some(&self.root), prefix, lower: None, upper: None };
        proof {
            let all = self.root.shape().entries();
            let pred = |k: Seq<u8>| true;
            lemma_extend_empty(all);
            lemma_select_all(all, None, None);
            assert(select(all, None, None) == all.filter(
                |entry: (Seq<u8>, Leaf<K::Origin, V>)| pred(entry.0),
            )) by {
                assert((|entry: (Seq<u8>, Leaf<K::Origin, V>)| pred(entry.0)) =~= (|
                    entry: (Seq<u8>, Leaf<K::Origin, V>),
                | in_range(None, None, entry.0)));
            }
            lemma_lists::<K, V>(self.root.shape(), pred, all);
            assert(shard.leaves() == all);
        }
        shard
    }

    /// Get an immutable reference to the subtree of keys beginning with
    /// `prefix`.
    pub fn prefix<'g, 'k>(&'g self, prefix: K::Read<'k>) -> (shard: Shard<'g, 'k, K, V>)
        requires
            self.wf(),
            prefix.valid(),
        ensures
            shard.wf(),
            lists(shard@, self@, |k: Seq<u8>| prefix.bytes().is_prefix_of(k)),
    {
        let ghost all = self.root.shape().entries();
        let ghost bytes = prefix.bytes();
        let ghost kept = beginning(all, bytes);
        proof {
            let pred = |k: Seq<u8>| bytes.is_prefix_of(k);
            assert((|entry: (Seq<u8>, Leaf<K::Origin, V>)| pred(entry.0)) =~= (|
                entry: (Seq<u8>, Leaf<K::Origin, V>),
            | bytes.is_prefix_of(entry.0)));
            lemma_lists::<K, V>(self.root.shape(), pred, kept);
        }
        match self.root.traverse_prefix(prefix) {
            Some((edge, len)) => {
                let shard = Shard {
                    edge: Some(edge),
                    prefix: prefix.prefix(len),
                    lower: None,
                    upper: None,
                };
                proof {
                    lemma_select_all(kept, None, None);
                }
                shard
            },
            None => {
                assert(kept =~= Seq::<(Seq<u8>, Leaf<K::Origin, V>)>::empty());
                Shard { edge: None, prefix, lower: None, upper: None }
            },
        }
    }

    /// Get an immutable reference to the subtree of keys within `range`.
    ///
    /// If the range's lower bound is greater than its upper bound, the
    /// returned shard is empty.
    pub fn range<'g, 'k, R: Range<K::Read<'k>>>(&'g self, range: &R) -> (shard: Shard<
        'g,
        'k,
        K,
        V,
    >)
        requires
            self.wf(),
            range.valid(),
        ensures
            shard.wf(),
            lists(
                shard@,
                self@,
                |k: Seq<u8>| in_range(range.lower_limit(), range.upper_limit(), k),
            ),
    {
        let lower = range.lower();
        let upper = range.upper();
        let ghost low = range.lower_limit();
        let ghost high = range.upper_limit();
        let ghost all = self.root.shape().entries();
        let ghost kept = select(all, low, high);
        proof {
            let pred = |k: Seq<u8>| in_range(low, high, k);
            assert((|entry: (Seq<u8>, Leaf<K::Origin, V>)| pred(entry.0)) =~= (|
                entry: (Seq<u8>, Leaf<K::Origin, V>),
            | in_range(low, high, entry.0)));
            lemma_lists::<K, V>(self.root.shape(), pred, kept);
        }
        // An inverted range contains no keys, and must not reach the bytes of
        // a node.
        if is_inverted(lower, upper) {
            proof {
                assert forall|k: Seq<u8>| !in_range(low, high, k) by {
                    if in_range(low, high, k) {
                        let l = low->0;
                        let h = high->0;
                        if l != k && k != h {
                            crate::bytes::lemma_lex_transitive(l, k, h);
                        }
                        crate::bytes::lemma_lex_total(l, h);
                    }
                }
                if kept.len() > 0 {
                    assert(in_range(low, high, plain(kept)[0].0));
                }
                assert(kept =~= Seq::<(Seq<u8>, Leaf<K::Origin, V>)>::empty());
            }
            return Shard {
                edge: None,
                prefix: <K::Read<'k> as Read>::empty(),
                lower: None,
                upper: None,
            };
        }
        let prefix = match (lower, upper) {
            (Some(Include(lower)), Some(Include(upper))) => lower.common_prefix(upper),
            _ => <K::Read<'k> as Read>::empty(),
        };
        let ghost bytes = prefix.bytes();
        proof {
            assert forall|k: Seq<u8>| #[trigger] in_range(low, high, k) implies bytes.is_prefix_of(
                k,
            ) by {
                if low is Some && high is Some {
                    lemma_between(low->0, high->0, k);
                } else {
                    assert(k.subrange(0, 0) =~= bytes);
                }
            }
            lemma_select_beginning(all, bytes, low, high);
            if low is Some && high is Some {
                lemma_common_len(low->0, high->0);
                crate::bytes::lemma_lex_total(low->0, high->0);
            }
        }
        match self.root.traverse_prefix(prefix) {
            Some((edge, len)) => {
                let shard = Shard {
                    edge: Some(edge),
                    prefix: prefix.prefix(len),
                    lower: match lower {
                        Some(Include(lower)) => Some(Include(lower.suffix(len))),
                        None => None,
                    },
                    upper: match upper {
                        Some(Include(upper)) => Some(Include(upper.suffix(len))),
                        None => None,
                    },
                };
                proof {
                    let base = bytes.take(len as int);
                    if low is Some {
                        assert(base + low->0.skip(len as int) =~= low->0);
                    }
                    if high is Some {
                        assert(base + high->0.skip(len as int) =~= high->0);
                    }
                    if low is Some && high is Some {
                        crate::raw::shape::entries::lemma_lex_extend(
                            base,
                            low->0.skip(len as int),
                            high->0.skip(len as int),
                        );
                    }
                    let pred = |k: Seq<u8>| bytes.is_prefix_of(k);
                    assert((|entry: (Seq<u8>, Leaf<K::Origin, V>)| pred(entry.0)) =~= (|
                        entry: (Seq<u8>, Leaf<K::Origin, V>),
                    | bytes.is_prefix_of(entry.0)));
                    lemma_lists::<K, V>(self.root.shape(), pred, beginning(all, bytes));
                }
                shard
            },
            None => {
                proof {
                    let part = beginning(all, bytes);
                    assert(part =~= Seq::<(Seq<u8>, Leaf<K::Origin, V>)>::empty());
                    reveal(Seq::filter);
                    assert(kept =~= Seq::<(Seq<u8>, Leaf<K::Origin, V>)>::empty());
                }
                Shard { edge: None, prefix, lower: None, upper: None }
            },
        }
    }
}

/// Entries in the order in which they are delivered.
pub open spec fn ordered<V>(entries: Seq<(Seq<u8>, V)>, order: Order) -> Seq<(Seq<u8>, V)> {
    match order {
        Order::Ascend => entries,
        Order::Descend => entries.reverse(),
    }
}

/// Iterator over the entries of a [`Shard`].
pub struct EntryIter<'g, 'k, K: Key, V> {
    iter: RangeIter<'g, K::Read<'k>, K::Write, Leaf<K::Origin, V>>,
}

impl<'g, 'k, K: Key, V> View for EntryIter<'g, 'k, K, V> {
    type V = Seq<(Seq<u8>, V)>;

    /// Key bytes and value of each entry that is still to come.
    closed spec fn view(&self) -> Seq<(Seq<u8>, V)> {
        ordered(plain(self.iter.pending()), self.iter.direction())
    }
}

impl<'g, 'k, K: Key, V> EntryIter<'g, 'k, K, V> {
    pub closed spec fn wf(self) -> bool {
        &&& self.iter.wf()
        &&& entries_keyed::<K, V>(self.iter.pending())
    }

    /// Bytes of the key that was visited last.
    pub closed spec fn key(self) -> Seq<u8> {
        self.iter.key()
    }

    /// Visit the next entry, and lend the bytes of its key.
    pub fn lend(&mut self) -> (entry: Option<(&K::Write, &'g V)>)
        requires
            old(self).wf(),
        ensures
            match entry {
                Some((writer, value)) => {
                    &&& old(self)@.len() > 0
                    &&& writer.valid()
                    &&& (writer.bytes(), *value) == old(self)@.first()
                    &&& final(self)@ == old(self)@.drop_first()
                },
                None => old(self)@.len() == 0 && final(self)@ == old(self)@,
            },
            final(self).wf(),
    {
        match self.advance() {
            Some(leaf) => Some((self.iter.writer(), &leaf.value)),
            None => None,
        }
    }

    /// Visit the next entry.
    pub fn next(&mut self) -> (entry: Option<(K, &'g V)>)
        requires
            old(self).wf(),
        ensures
            final(self).wf(),
            match entry {
                Some((key, value)) => {
                    &&& old(self)@.len() > 0
                    &&& (key.bytes(), *value) == old(self)@.first()
                    &&& final(self)@ == old(self)@.drop_first()
                },
                None => old(self)@.len() == 0 && final(self)@ == old(self)@,
            },
    {
        match self.advance() {
            Some(leaf) => {
                let key = K::write_to_key(self.iter.writer(), leaf.origin);
                Some((key, &leaf.value))
            },
            None => None,
        }
    }

    fn advance(&mut self) -> (leaf: Option<&'g Leaf<K::Origin, V>>)
        requires
            old(self).wf(),
        ensures
            final(self).wf(),
            match leaf {
                Some(leaf) => {
                    &&& old(self)@.len() > 0
                    &&& (final(self).key(), leaf.value) == old(self)@.first()
                    &&& final(self)@ == old(self)@.drop_first()
                    &&& K::is_key(final(self).key())
                    &&& K::origin_of(leaf.origin, final(self).key())
                },
                None => old(self)@.len() == 0 && final(self)@ == old(self)@,
            },
    {
        let ghost before = self.iter.pending();
        let leaf = self.iter.next();
        proof {
            let after = self.iter.pending();
            if before.len() > 0 {
                let n = before.len() as int;
                if self.iter.direction() is Ascend {
                    assert(before[0] == (self.iter.key(), *leaf->0));
                    assert forall|i: int| 0 <= i < after.len() implies #[trigger] after[i]
                        == before[i + 1] by {}
                    assert(self@ =~= old(self)@.drop_first());
                } else {
                    assert(before[n - 1] == (self.iter.key(), *leaf->0));
                    assert(self@ =~= old(self)@.drop_first());
                }
            }
        }
        leaf
    }
}

/// Iterator over the values of a [`Shard`].
pub struct ValueIter<'g, 'k, K: Key, V> {
    iter: EntryIter<'g, 'k, K, V>,
}

impl<'g, 'k, K: Key, V> View for ValueIter<'g, 'k, K, V> {
    type V = Seq<V>;

    /// Each value that is still to come.
    closed spec fn view(&self) -> Seq<V> {
        values(self.iter@)
    }
}

/// Values of entries.
pub open spec fn values<V>(entries: Seq<(Seq<u8>, V)>) -> Seq<V> {
    Seq::new(entries.len(), |i: int| entries[i].1)
}

impl<'g, 'k, K: Key, V> ValueIter<'g, 'k, K, V> {
    pub closed spec fn wf(self) -> bool {
        self.iter.wf()
    }

    /// Visit the next value.
    pub fn next(&mut self) -> (value: Option<&'g V>)
        requires
            old(self).wf(),
        ensures
            final(self).wf(),
            match value {
                Some(value) => {
                    &&& old(self)@.len() > 0
                    &&& *value == old(self)@.first()
                    &&& final(self)@ == old(self)@.drop_first()
                },
                None => old(self)@.len() == 0 && final(self)@ == old(self)@,
            },
    {
        match self.iter.advance() {
            Some(leaf) => {
                assert(self@ =~= old(self)@.drop_first());
                Some(&leaf.value)
            },
            None => None,
        }
    }
}

impl<'g, 'k, K: Key, V> Shard<'g, 'k, K, V> {
    /// Iterate over keys and values.
    pub fn entries(&self, order: Order) -> (iter: EntryIter<'g, 'k, K, V>)
        requires
            self.wf(),
        ensures
            iter.wf(),
            iter@ == ordered(self@, order),
    {
        let iter = match self.edge {
            Some(edge) => {
                proof {
                    let all = extend(self.prefix.bytes(), edge.shape().entries());
                    assert forall|i: int| 0 <= i < edge.shape().entries().len() implies
                        self.prefix.bytes().len() + (#[trigger] edge.shape().entries()[i]).0.len()
                        <= <K::Write as Write>::max() by {
                        assert(K::is_key(all[i].0));
                        K::lemma_key_len(all[i].0);
                    }
                    let low = continued(self.prefix.bytes(), limit(self.lower));
                    let high = continued(self.prefix.bytes(), limit(self.upper));
                    let kept = select(all, low, high);
                    let pred = |entry: (Seq<u8>, Leaf<K::Origin, V>)| in_range(low, high, entry.0);
                    assert forall|i: int| 0 <= i < kept.len() implies K::is_key(
                        (#[trigger] kept[i]).0,
                    ) && K::origin_of(kept[i].1.origin, kept[i].0) by {
                        assert(all.filter(pred)[i] == kept[i]);
                        all.lemma_filter_contains_rev(pred, kept[i]);
                        let j = all.index_of(kept[i]);
                        assert(all[j] == kept[i]);
                    }
                }
                RangeIter::new_unchecked(edge, self.prefix, order, self.lower, self.upper)
            },
            None => RangeIter::empty(order),
        };
        EntryIter { iter }
    }

    /// Iterate over values.
    pub fn values(&self, order: Order) -> (iter: ValueIter<'g, 'k, K, V>)
        requires
            self.wf(),
        ensures
            iter.wf(),
            iter@ == values(ordered(self@, order)),
    {
        ValueIter { iter: self.entries(order) }
    }
}

/// The part of a map that a scan walks and may modify.
pub struct ShardMut<'g, K: Key, V> {
    pub map: &'g mut SequentialMap<K, V>,
    pub keys: Vec<K>,
}

/// Keys of entries, in order.
pub open spec fn key_bytes<V>(entries: Seq<(Seq<u8>, V)>) -> Seq<Seq<u8>> {
    Seq::new(entries.len(), |i: int| entries[i].0)
}

impl<'g, K: Key, V> ShardMut<'g, K, V> {
    /// The keys are stored in the map.
    pub closed spec fn wf(&self) -> bool {
        &&& self.map.wf()
        &&& forall|i: int|
            0 <= i < self.keys@.len() ==> self.map@.contains_key((#[trigger] self.keys@[i]).bytes())
    }

    /// Bytes of the keys, in ascending order.
    pub closed spec fn keys(&self) -> Seq<Seq<u8>> {
        Seq::new(self.keys@.len(), |i: int| self.keys@[i].bytes())
    }
}

/// Keys of a shard, in ascending order.
fn collect_keys<'g, 'k, K: Key, V>(shard: &Shard<'g, 'k, K, V>) -> (keys: Vec<K>)
    requires
        shard.wf(),
    ensures
        keys@.len() == shard@.len(),
        forall|i: int| 0 <= i < keys@.len() ==> (#[trigger] keys@[i]).bytes() == shard@[i].0,
{
    let mut keys: Vec<K> = Vec::new();
    let mut iter = shard.entries(Order::Ascend);
    let ghost mut done: int = 0;
    assert(shard@.skip(0) =~= shard@);
    loop
        invariant
            iter.wf(),
            0 <= done <= shard@.len(),
            done == keys@.len(),
            iter@ == shard@.skip(done),
            forall|i: int| 0 <= i < keys@.len() ==> (#[trigger] keys@[i]).bytes() == shard@[i].0,
        ensures
            done == shard@.len(),
        decreases shard@.len() - done,
    {
        match iter.next() {
            Some((key, _)) => {
                proof {
                    assert(shard@.skip(done).first() == shard@[done]);
                    assert(shard@.skip(done).drop_first() =~= shard@.skip(done + 1));
                    done = done + 1;
                }
                keys.push(key);
            },
            None => {
                break ;
            },
        }
    }
    keys
}

impl<K: Key, V> SequentialMap<K, V> {
    /// Get a mutable reference to the entire tree.
    pub fn all_mut<'g>(&'g mut self) -> (shard: ShardMut<'g, K, V>)
        requires
            old(self).wf(),
        ensures
            shard.wf(),
            *shard.map == *old(self),
            *final(shard.map) == *final(self),
            lists_keys(shard.keys(), old(self)@, |k: Seq<u8>| true),
    {
        let part = self.all();
        let ghost entries = part@;
        let keys = collect_keys(&part);
        assert(Seq::new(keys@.len(), |i: int| keys@[i].bytes()) =~= key_bytes(entries));
        ShardMut { map: self, keys }
    }

    /// Get a mutable reference to the subtree of keys beginning with `prefix`.
    pub fn prefix_mut<'g, 'k>(&'g mut self, prefix: K::Read<'k>) -> (shard: ShardMut<'g, K, V>)
        requires
            old(self).wf(),
            prefix.valid(),
        ensures
            shard.wf(),
            *shard.map == *old(self),
            *final(shard.map) == *final(self),
            lists_keys(shard.keys(), old(self)@, |k: Seq<u8>| prefix.bytes().is_prefix_of(k)),
    {
        let part = self.prefix(prefix);
        let ghost entries = part@;
        let keys = collect_keys(&part);
        assert(Seq::new(keys@.len(), |i: int| keys@[i].bytes()) =~= key_bytes(entries));
        ShardMut { map: self, keys }
    }

    /// Get a mutable reference to the subtree of keys within `range`.
    ///
    /// An inverted range yields an empty shard; see [`SequentialMap::range`].
    pub fn range_mut<'g, 'k, R: Range<K::Read<'k>>>(&'g mut self, range: &R) -> (shard: ShardMut<
        'g,
        K,
        V,
    >)
        requires
            old(self).wf(),
            range.valid(),
        ensures
            shard.wf(),
            *shard.map == *old(self),
            *final(shard.map) == *final(self),
            lists_keys(
                shard.keys(),
                old(self)@,
                |k: Seq<u8>| in_range(range.lower_limit(), range.upper_limit(), k),
            ),
    {
        let part = self.range(range);
        let ghost entries = part@;
        let keys = collect_keys(&part);
        assert(Seq::new(keys@.len(), |i: int| keys@[i].bytes()) =~= key_bytes(entries));
        ShardMut { map: self, keys }
    }
}

/// `keys` are those of `map` that satisfy `pred`, in ascending order.
pub open spec fn lists_keys<V>(
    keys: Seq<Seq<u8>>,
    map: Map<Seq<u8>, V>,
    pred: spec_fn(Seq<u8>) -> bool,
) -> bool {
    exists|entries: Seq<(Seq<u8>, V)>| #[trigger]
        lists(entries, map, pred) && keys == key_bytes(entries)
}

/// Lending iterator over the entries of a [`ShardMut`].
pub struct EntryIterMut<'g, K: Key, V> {
    pub map: &'g mut SequentialMap<K, V>,
    pub keys: Vec<K>,
    pub head: usize,
    pub tail: usize,
    pub order: Order,
}

impl<'g, K: Key, V> EntryIterMut<'g, K, V> {
    /// The keys that are still to come are stored in the map.
    pub closed spec fn wf(&self) -> bool {
        &&& self.map.wf()
        &&& self.head <= self.tail <= self.keys@.len()
        &&& forall|i: int|
            self.head <= i < self.tail ==> self.map@.contains_key(
                (#[trigger] self.keys@[i]).bytes(),
            )
    }

    /// Bytes of the keys that are still to come.
    pub closed spec fn upcoming(&self) -> Seq<Seq<u8>> {
        let keys = Seq::new(
            (self.tail - self.head) as nat,
            |i: int| self.keys@[self.head + i].bytes(),
        );
        match self.order {
            Order::Ascend => keys,
            Order::Descend => keys.reverse(),
        }
    }

    /// Visit the next entry, and lend its key and its value.
    pub fn next(&mut self) -> (entry: Option<(K::Insert<'_>, &mut V)>)
        requires
            old(self).wf(),
        ensures
            final(self).wf(),
            *final(final(self).map) == *final(old(self).map),
            match entry {
                Some((key, value)) => {
                    &&& old(self).upcoming().len() > 0
                    &&& K::insert_bytes(key) == old(self).upcoming().first()
                    &&& final(self).upcoming() == old(self).upcoming().drop_first()
                    &&& *value == old(self).map@[K::insert_bytes(key)]
                    &&& final(self).map@ == old(self).map@.insert(
                        K::insert_bytes(key),
                        *final(value),
                    )
                    &&& revalued::<K, V>(
                        old(self).map.root.shape(),
                        final(self).map.root.shape(),
                        K::insert_bytes(key),
                        *final(value),
                    )
                },
                None => old(self).upcoming().len() == 0 && final(self).upcoming() == old(
                    self,
                ).upcoming() && *final(self).map == *old(self).map,
            },
            old(self).map.compact() ==> final(self).map.compact(),
    {
        if self.head == self.tail {
            return None;
        }
        let index: usize = match self.order {
            Order::Ascend => {
                self.head += 1;
                self.head - 1
            },
            Order::Descend => {
                self.tail -= 1;
                self.tail
            },
        };
        proof {
            assert(self.upcoming() =~= old(self).upcoming().drop_first());
        }
        let key = self.keys[index].as_insert();
        match self.map.get_mut_raw(K::insert_as_read(&key)) {
            Some(value) => Some((key, value)),
            None => unreached(),
        }
    }
}

impl<'g, K: Key, V> ShardMut<'g, K, V> {
    /// Iterate over keys and values.
    pub fn entries_mut(self, order: Order) -> (iter: EntryIterMut<'g, K, V>)
        requires
            self.wf(),
        ensures
            iter.wf(),
            *iter.map == *old(self.map),
            *final(iter.map) == *final(self.map),
            iter.upcoming() == (match order {
                Order::Ascend => self.keys(),
                Order::Descend => self.keys().reverse(),
            }),
    {
        let tail: usize = self.keys.len();
        let ghost keys = self.keys();
        let iter = EntryIterMut { map: self.map, keys: self.keys, head: 0, tail, order };
        proof {
            let all = Seq::new(
                (iter.tail - iter.head) as nat,
                |i: int| iter.keys@[iter.head + i].bytes(),
            );
            assert(all =~= keys);
        }
        iter
    }
}

} // verus!
