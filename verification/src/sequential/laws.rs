//! Laws of maps.
use vstd::prelude::*;
use crate::bytes::{lemma_lex_irreflexive, lemma_lex_transitive, lex_lt};
use crate::raw::edge::{Edge, Meta};
use crate::raw::iter::Order;
use crate::raw::key::unsigned::{lemma_native_order, Native};
use crate::raw::key::Key;
use crate::raw::shape::entries::{lists, sorted};
use crate::sequential::iter::{key_bytes, lists_keys, ordered, values};
use crate::raw::shape::laws::lemma_insert;
use crate::raw::shape::Shape;
use crate::sequential::map::{collected, contents, filled, inserted, revalued, Leaf};

verus! {

/// A key reads back what was written to it, and the other keys what they had.
pub proof fn law_read_your_writes<V>(
    before: Map<Seq<u8>, V>,
    key: Seq<u8>,
    value: V,
    other: Seq<u8>,
)
    ensures
        before.insert(key, value).contains_key(key),
        before.insert(key, value)[key] == value,
        !before.remove(key).contains_key(key),
        other != key ==> {
            &&& before.insert(key, value).contains_key(other) == before.contains_key(other)
            &&& before.contains_key(other) ==> before.insert(key, value)[other] == before[other]
            &&& before.remove(key).contains_key(other) == before.contains_key(other)
            &&& before.contains_key(other) ==> before.remove(key)[other] == before[other]
        },
{
}

/// Removing a key undoes its insertion.
pub proof fn law_remove_undoes_insert<V>(before: Map<Seq<u8>, V>, key: Seq<u8>, value: V)
    requires
        !before.contains_key(key),
    ensures
        before.insert(key, value).remove(key) == before,
{
    assert(before.insert(key, value).remove(key) =~= before);
}

/// Operations on different keys can be done in either order.
pub proof fn law_keys_are_independent<V>(
    before: Map<Seq<u8>, V>,
    a: Seq<u8>,
    x: V,
    b: Seq<u8>,
    y: V,
)
    requires
        a != b,
    ensures
        before.insert(a, x).insert(b, y) == before.insert(b, y).insert(a, x),
        before.insert(a, x).remove(b) == before.remove(b).insert(a, x),
        before.remove(a).remove(b) == before.remove(b).remove(a),
{
    assert(before.insert(a, x).insert(b, y) =~= before.insert(b, y).insert(a, x));
    assert(before.insert(a, x).remove(b) =~= before.remove(b).insert(a, x));
    assert(before.remove(a).remove(b) =~= before.remove(b).remove(a));
}

/// What a scan gives is determined by the map and by the keys that are asked
/// for.
pub proof fn law_scan_is_determined<V>(
    a: Seq<(Seq<u8>, V)>,
    b: Seq<(Seq<u8>, V)>,
    map: Map<Seq<u8>, V>,
    pred: spec_fn(Seq<u8>) -> bool,
)
    requires
        lists(a, map, pred),
        lists(b, map, pred),
    ensures
        a == b,
{
    assert forall|n: int| 0 <= n && n <= a.len() && n <= b.len() implies a.take(n) == b.take(
        n,
    ) by {
        lemma_scan_prefix(a, b, map, pred, n);
    }
    if a.len() < b.len() {
        lemma_scan_longer(a, b, map, pred);
    } else if b.len() < a.len() {
        lemma_scan_longer(b, a, map, pred);
    } else {
        assert(a.take(a.len() as int) =~= a);
        assert(b.take(b.len() as int) =~= b);
    }
}

/// Scans of the same keys agree as far as both go.
proof fn lemma_scan_prefix<V>(
    a: Seq<(Seq<u8>, V)>,
    b: Seq<(Seq<u8>, V)>,
    map: Map<Seq<u8>, V>,
    pred: spec_fn(Seq<u8>) -> bool,
    n: int,
)
    requires
        lists(a, map, pred),
        lists(b, map, pred),
        0 <= n <= a.len(),
        n <= b.len(),
    ensures
        a.take(n) == b.take(n),
    decreases n,
{
    if n > 0 {
        lemma_scan_prefix(a, b, map, pred, n - 1);
        let i = n - 1;
        assert forall|j: int| 0 <= j < i implies a[j] == b[j] by {
            assert(a.take(i)[j] == b.take(i)[j]);
        }
        assert(pred(a[i].0) && pred(b[i].0));
        let p = b.index_of(a[i]);
        assert(b.contains((a[i].0, map[a[i].0])));
        assert(b[p] == a[i]);
        let q = a.index_of(b[i]);
        assert(a.contains((b[i].0, map[b[i].0])));
        assert(a[q] == b[i]);
        if p < i {
            assert(a[p] == a[i]);
            lemma_lex_irreflexive(a[i].0);
            assert(lex_lt(a[p].0, a[i].0));
        }
        if q < i {
            assert(b[q] == b[i]);
            lemma_lex_irreflexive(b[i].0);
            assert(lex_lt(b[q].0, b[i].0));
        }
        if p > i && q > i {
            assert(lex_lt(b[i].0, b[p].0));
            assert(lex_lt(a[i].0, a[q].0));
            lemma_lex_transitive(a[i].0, b[i].0, a[i].0);
            lemma_lex_irreflexive(a[i].0);
        }
        assert(a[i] == b[i]);
        assert(a.take(n) =~= b.take(n)) by {
            assert forall|j: int| 0 <= j < n implies a[j] == b[j] by {}
        }
    }
}

/// A scan does not go on after all keys.
proof fn lemma_scan_longer<V>(
    a: Seq<(Seq<u8>, V)>,
    b: Seq<(Seq<u8>, V)>,
    map: Map<Seq<u8>, V>,
    pred: spec_fn(Seq<u8>) -> bool,
)
    requires
        lists(a, map, pred),
        lists(b, map, pred),
        a.len() < b.len(),
    ensures
        a == b,
{
    let n = a.len() as int;
    lemma_scan_prefix(a, b, map, pred, n);
    assert(pred(b[n].0));
    assert(a.contains((b[n].0, map[b[n].0])));
    let q = a.index_of(b[n]);
    assert(a.take(n)[q] == b.take(n)[q]);
    assert(b[q] == b[n]);
    lemma_lex_irreflexive(b[n].0);
    assert(lex_lt(b[q].0, b[n].0));
}

/// Scans of integer keys go up in the order of the integers.
pub proof fn law_integer_order<N: Native, V>(
    entries: Seq<(Seq<u8>, V)>,
    keys: Seq<N>,
    i: int,
    j: int,
)
    requires
        sorted(entries),
        keys.len() == entries.len(),
        forall|k: int| 0 <= k < keys.len() ==> (#[trigger] entries[k]).0 == keys[k].be_bytes(),
        0 <= i < j < entries.len(),
    ensures
        keys[i].value() < keys[j].value(),
{
    assert(lex_lt(entries[i].0, entries[j].0));
    lemma_native_order(keys[i], keys[j]);
}

/// Entries are delivered one by one, each once, from the smallest key to the
/// largest or the other way round.
pub proof fn law_delivery<V>(entries: Seq<(Seq<u8>, V)>, order: Order, i: int, j: int)
    requires
        sorted(entries),
        0 <= i < j < entries.len(),
    ensures
        ordered(entries, order).len() == entries.len(),
        order is Ascend ==> lex_lt(
            ordered(entries, order)[i].0,
            ordered(entries, order)[j].0,
        ) && ordered(entries, order)[i] == entries[i],
        order is Descend ==> lex_lt(
            ordered(entries, order)[j].0,
            ordered(entries, order)[i].0,
        ) && ordered(entries, order)[i] == entries[entries.len() - 1 - i],
        values(ordered(entries, order)).len() == entries.len(),
        values(ordered(entries, order))[i] == ordered(entries, order)[i].1,
        key_bytes(entries).len() == entries.len(),
        key_bytes(entries)[i] == entries[i].0,
{
    let n = entries.len() as int;
    assert(lex_lt(entries[i].0, entries[j].0));
    assert(lex_lt(entries[n - 1 - j].0, entries[n - 1 - i].0));
}

/// A map that is made of pairs has the keys of the pairs and no others, each with
/// the value of the last pair that has the key.
pub proof fn law_collected<'k, K: Key, V>(pairs: Seq<(K::Insert<'k>, V)>, n: int, key: Seq<u8>)
    requires
        0 <= n <= pairs.len(),
    ensures
        collected::<K, V>(pairs, n).contains_key(key) <==> exists|i: int|
            0 <= i < n && K::insert_bytes((#[trigger] pairs[i]).0) == key,
        forall|i: int|
            #![trigger pairs[i]]
            0 <= i < n && K::insert_bytes(pairs[i].0) == key && (forall|j: int|
                i < j < n ==> K::insert_bytes((#[trigger] pairs[j]).0) != key) ==> collected::<
                K,
                V,
            >(pairs, n)[key] == pairs[i].1,
    decreases n,
{
    if n > 0 {
        law_collected::<K, V>(pairs, n - 1, key);
        let last = pairs[n - 1];
        if K::insert_bytes(last.0) != key {
            assert(collected::<K, V>(pairs, n).contains_key(key) == collected::<K, V>(
                pairs,
                n - 1,
            ).contains_key(key));
        } else {
            assert forall|i: int|
                #![trigger pairs[i]]
                0 <= i < n && K::insert_bytes(pairs[i].0) == key && (forall|j: int|
                    i < j < n ==> K::insert_bytes((#[trigger] pairs[j]).0) != key) implies collected::<
                K,
                V,
            >(pairs, n)[key] == pairs[i].1 by {
                if i < n - 1 {
                    assert(K::insert_bytes(pairs[n - 1].0) != key);
                }
            }
        }
    }
}


/// The keys that a scan may modify are those of the map that are asked for, each
/// once and in ascending order.
pub proof fn law_keys_to_modify<V>(
    keys: Seq<Seq<u8>>,
    map: Map<Seq<u8>, V>,
    pred: spec_fn(Seq<u8>) -> bool,
    key: Seq<u8>,
)
    requires
        lists_keys(keys, map, pred),
    ensures
        keys.contains(key) <==> map.contains_key(key) && pred(key),
        forall|i: int, j: int|
            0 <= i < j < keys.len() ==> lex_lt(#[trigger] keys[i], #[trigger] keys[j]),
{
    let entries = choose|entries: Seq<(Seq<u8>, V)>| #[trigger]
        lists(entries, map, pred) && keys == key_bytes(entries);
    if keys.contains(key) {
        let i = keys.index_of(key);
        assert(entries[i].0 == key);
    }
    if map.contains_key(key) && pred(key) {
        let i = entries.index_of((key, map[key]));
        assert(entries.contains((key, map[key])));
        assert(keys[i] == key);
    }
    assert forall|i: int, j: int| 0 <= i < j < keys.len() implies lex_lt(
        #[trigger] keys[i],
        #[trigger] keys[j],
    ) by {
        assert(lex_lt(entries[i].0, entries[j].0));
    }
}


/// Filling a vacant entry stores the value under the key of the entry, and leaves all
/// other keys with what they have.
pub proof fn law_filled<K: Key, V>(
    before: Edge<K::Edge, Leaf<K::Origin, V>>,
    after: Edge<K::Edge, Leaf<K::Origin, V>>,
    key: Seq<u8>,
    value: V,
    other: Seq<u8>,
)
    requires
        filled::<K, V>(before, after, key, value),
    ensures
        after.wf(),
        contents(after.shape()).contains_key(key),
        contents(after.shape())[key] == value,
        other != key ==> {
            &&& contents(after.shape()).contains_key(other) == contents(
                before.shape(),
            ).contains_key(other)
            &&& contents(before.shape()).contains_key(other) ==> contents(after.shape())[other]
                == contents(before.shape())[other]
        },
        after.shape().get(key) matches Some(leaf) && leaf.value == value,
{
    let map = contents(after.shape());
    assert(map == contents(before.shape()).insert(key, value));
    assert(map.contains_key(key));
}

/// Exchanging the value of a key changes the value that is stored, and nothing else:
/// every other key is found as before.
pub proof fn law_revalued<K: Key, V>(
    before: Shape<Leaf<K::Origin, V>>,
    after: Shape<Leaf<K::Origin, V>>,
    key: Seq<u8>,
    value: V,
    other: Seq<u8>,
)
    requires
        revalued::<K, V>(before, after, key, value),
        before.wf(K::Edge::max()),
        before.accepts(key),
    ensures
        before.get(key) is Some,
        after.get(key) == Some(Leaf { origin: before.get(key)->0.origin, value }),
        other != key ==> after.get(other) == before.get(other),
        contents(after) == contents(before).insert(key, value),
{
    let leaf = Leaf { origin: before.get(key)->0.origin, value };
    lemma_insert(before, key, leaf, K::Edge::max());
    assert(contents(after) =~= contents(before).insert(key, value));
}

/// Storing a value under a new key adds that key to what is found, with what gives the
/// key back beside the value.
pub proof fn law_inserted<K: Key, V>(
    before: Shape<Leaf<K::Origin, V>>,
    after: Shape<Leaf<K::Origin, V>>,
    key: Seq<u8>,
    value: V,
    other: Seq<u8>,
)
    requires
        inserted::<K, V>(before, after, key, value),
        before.wf(K::Edge::max()),
        before.accepts(key),
    ensures
        after.get(key) matches Some(leaf) && leaf.value == value && K::origin_of(leaf.origin, key),
        other != key ==> after.get(other) == before.get(other),
        contents(after) == contents(before).insert(key, value),
{
    let origin = choose|origin: K::Origin| #[trigger]
        K::origin_of(origin, key) && after == before.insert(
            key,
            Leaf { origin, value },
            K::Edge::max(),
        );
    lemma_insert(before, key, Leaf { origin, value }, K::Edge::max());
    assert(contents(after) =~= contents(before).insert(key, value));
}

/// A map holds a key with the value that its tree leads to along the bytes of the key.
pub proof fn law_contents<O, V>(shape: Shape<Leaf<O, V>>, key: Seq<u8>)
    ensures
        contents(shape).contains_key(key) <==> shape.get(key) is Some,
        shape.get(key) matches Some(leaf) ==> contents(shape)[key] == leaf.value,
{
}


} // verus!
