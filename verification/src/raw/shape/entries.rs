//! The entries of a shape in lexicographic order.
use vstd::prelude::*;
use crate::bytes::{
    common_len, lemma_common_len, lemma_common_len_is, lemma_lex_total, lex_le, lex_lt,
};
use crate::raw::shape::laws::{lemma_descends, lemma_holds};
use crate::raw::shape::{descends, holds, index, rest, Shape};

verus! {

/// Entries with `prefix` put in front of each key.
pub open spec fn extend<V>(prefix: Seq<u8>, entries: Seq<(Seq<u8>, V)>) -> Seq<(Seq<u8>, V)> {
    Seq::new(entries.len(), |i: int| (prefix + entries[i].0, entries[i].1))
}

/// `key` is not below `lower` and not above `upper`.
pub open spec fn in_range(lower: Option<Seq<u8>>, upper: Option<Seq<u8>>, key: Seq<u8>) -> bool {
    &&& lower matches Some(lower) ==> lex_le(lower, key)
    &&& upper matches Some(upper) ==> lex_le(key, upper)
}

/// Entries whose key is in range.
pub open spec fn select<V>(
    entries: Seq<(Seq<u8>, V)>,
    lower: Option<Seq<u8>>,
    upper: Option<Seq<u8>>,
) -> Seq<(Seq<u8>, V)> {
    entries.filter(|entry: (Seq<u8>, V)| in_range(lower, upper, entry.0))
}

/// Entries whose key begins with `prefix`.
pub open spec fn beginning<V>(entries: Seq<(Seq<u8>, V)>, prefix: Seq<u8>) -> Seq<(Seq<u8>, V)> {
    entries.filter(|entry: (Seq<u8>, V)| prefix.is_prefix_of(entry.0))
}

/// Keys in strictly ascending lexicographic order.
pub open spec fn sorted<V>(entries: Seq<(Seq<u8>, V)>) -> bool {
    forall|i: int, j: int|
        0 <= i < j < entries.len() ==> lex_lt((#[trigger] entries[i]).0, (#[trigger] entries[j]).0)
}

impl<V> Shape<V> {
    /// All entries, in ascending order.
    pub open spec fn entries(self) -> Seq<(Seq<u8>, V)>
        decreases self, 257int,
    {
        match self {
            Shape::Null => Seq::empty(),
            Shape::Value { prefix, value } => seq![(prefix, value)],
            Shape::Node { .. } => self.entries_below(256),
        }
    }

    /// Entries of a node through the bytes less than `n`, in ascending order.
    pub open spec fn entries_below(self, n: int) -> Seq<(Seq<u8>, V)>
        decreases self, n,
    {
        match self {
            Shape::Node { prefix, slots, .. } => if n <= 0 {
                Seq::empty()
            } else {
                let b = (n - 1) as u8;
                self.entries_below(n - 1) + (if holds(slots, b) {
                    extend(prefix.push(b), slots[index(slots, b)].1.entries())
                } else {
                    Seq::empty()
                })
            },
            _ => Seq::empty(),
        }
    }
}

/// Putting more bytes in front of both sides keeps their order.
pub proof fn lemma_lex_extend(prefix: Seq<u8>, a: Seq<u8>, b: Seq<u8>)
    ensures
        lex_lt(prefix + a, prefix + b) <==> lex_lt(a, b),
        prefix + a == prefix + b <==> a == b,
        lex_le(prefix + a, prefix + b) <==> lex_le(a, b),
{
    let x = prefix + a;
    let y = prefix + b;
    let n = common_len(a, b);
    lemma_common_len(a, b);
    assert forall|i: int| 0 <= i < prefix.len() + n implies x[i] == y[i] by {
        if i >= prefix.len() {
            assert(a[i - prefix.len()] == b[i - prefix.len()]);
        }
    }
    lemma_common_len_is(x, y, prefix.len() + n);
    if x == y {
        assert(a =~= x.skip(prefix.len() as int));
        assert(b =~= y.skip(prefix.len() as int));
    }
}

/// Sequences that differ first behind a shared prefix are ordered there.
pub proof fn lemma_lex_at(a: Seq<u8>, b: Seq<u8>, n: int)
    requires
        0 <= n < a.len(),
        n < b.len(),
        forall|i: int| 0 <= i < n ==> a[i] == b[i],
        a[n] < b[n],
    ensures
        lex_lt(a, b),
        !lex_lt(b, a),
        a != b,
{
    lemma_common_len_is(a, b, n as nat);
    lemma_lex_total(a, b);
}

/// Keys below a node begin with its bytes.
pub proof fn lemma_entries_below<V>(shape: Shape<V>, n: int)
    requires
        shape is Node,
        0 <= n <= 256,
    ensures
        sorted(shape.entries_below(n)),
        forall|i: int|
            0 <= i < shape.entries_below(n).len() ==> {
                let (key, value) = #[trigger] shape.entries_below(n)[i];
                &&& descends(shape.prefix(), key)
                &&& key[shape.prefix().len() as int] < n
                &&& shape.get(key) == Some(value)
            },
        forall|k: Seq<u8>|
            descends(shape.prefix(), k) && k[shape.prefix().len() as int] < n && (
            #[trigger] shape.get(k)) is Some ==> shape.entries_below(n).contains(
                (k, shape.get(k)->0),
            ),
    decreases shape, n,
{
    if n > 0 {
        lemma_entries_below(shape, n - 1);
        let prefix = shape.prefix();
        let slots = shape->slots;
        let b = (n - 1) as u8;
        let before = shape.entries_below(n - 1);
        let after = shape.entries_below(n);
        if holds(slots, b) {
            lemma_holds(slots, b);
            let child = slots[index(slots, b)].1;
            let entries = child.entries();
            let head = prefix.push(b);
            let new = extend(head, entries);
            lemma_entries(child);
            assert(after == before + new);
            assert forall|i: int| 0 <= i < new.len() implies {
                let (key, value) = #[trigger] new[i];
                &&& descends(prefix, key)
                &&& key[prefix.len() as int] == b
                &&& shape.get(key) == Some(value)
            } by {
                let key = new[i].0;
                assert(key == head + entries[i].0);
                lemma_descends(prefix, key);
                assert(rest(prefix, key) =~= entries[i].0);
            }
            assert forall|i: int| 0 <= i < after.len() implies {
                let (key, value) = #[trigger] after[i];
                &&& descends(prefix, key)
                &&& key[prefix.len() as int] < n
                &&& shape.get(key) == Some(value)
            } by {
                if i < before.len() {
                    assert(after[i] == before[i]);
                } else {
                    assert(after[i] == new[i - before.len()]);
                }
            }
            assert forall|i: int, j: int| 0 <= i < j < after.len() implies lex_lt(
                (#[trigger] after[i]).0,
                (#[trigger] after[j]).0,
            ) by {
                if j < before.len() {
                    assert(after[i] == before[i] && after[j] == before[j]);
                } else if i >= before.len() {
                    let x = i - before.len();
                    let y = j - before.len();
                    assert(after[i] == new[x] && after[j] == new[y]);
                    lemma_lex_extend(head, entries[x].0, entries[y].0);
                } else {
                    let a = after[i].0;
                    let c = after[j].0;
                    assert(after[i] == before[i] && after[j] == new[j - before.len()]);
                    lemma_descends(prefix, a);
                    lemma_descends(prefix, c);
                    lemma_lex_at(a, c, prefix.len() as int);
                }
            }
            assert forall|k: Seq<u8>|
                descends(prefix, k) && k[prefix.len() as int] < n && (#[trigger] shape.get(
                    k,
                )) is Some implies after.contains((k, shape.get(k)->0)) by {
                let entry = (k, shape.get(k)->0);
                if k[prefix.len() as int] < n - 1 {
                    let i = before.index_of(entry);
                    assert(before[i] == entry);
                    assert(after[i] == entry);
                } else {
                    let below = rest(prefix, k);
                    assert(child.get(below) == shape.get(k));
                    let i = entries.index_of((below, shape.get(k)->0));
                    assert(entries[i] == (below, shape.get(k)->0));
                    lemma_descends(prefix, k);
                    assert(new[i].0 =~= k);
                    assert(after[before.len() + i] == entry);
                }
            }
        } else {
            assert(after =~= before);
        }
    }
}

/// The entries of a shape are exactly what it maps, in ascending order.
pub proof fn lemma_entries<V>(shape: Shape<V>)
    ensures
        sorted(shape.entries()),
        forall|i: int|
            0 <= i < shape.entries().len() ==> shape.get((#[trigger] shape.entries()[i]).0) == Some(
                shape.entries()[i].1,
            ),
        forall|k: Seq<u8>|
            (#[trigger] shape.get(k)) is Some ==> shape.entries().contains(
                (k, shape.get(k)->0),
            ),
    decreases shape, 257int,
{
    match shape {
        Shape::Node { prefix, .. } => {
            lemma_entries_below(shape, 256);
        },
        Shape::Value { prefix, value } => {
            assert(shape.entries()[0] == (prefix, value));
        },
        Shape::Null => {},
    }
}

/// Entries of which all begin with `prefix`.
pub proof fn lemma_beginning_all<V>(entries: Seq<(Seq<u8>, V)>, prefix: Seq<u8>)
    requires
        forall|i: int|
            0 <= i < entries.len() ==> prefix.is_prefix_of((#[trigger] entries[i]).0),
    ensures
        beginning(entries, prefix) == entries,
    decreases entries.len(),
{
    reveal(Seq::filter);
    if entries.len() > 0 {
        assert forall|i: int| 0 <= i < entries.drop_last().len() implies prefix.is_prefix_of(
            (#[trigger] entries.drop_last()[i]).0,
        ) by {
            assert(entries.drop_last()[i] == entries[i]);
        }
        lemma_beginning_all(entries.drop_last(), prefix);
        assert(prefix.is_prefix_of(entries[entries.len() - 1].0));
        assert(entries =~= entries.drop_last().push(entries.last()));
    }
}

/// Entries of which none begins with `prefix`.
pub proof fn lemma_beginning_none<V>(entries: Seq<(Seq<u8>, V)>, prefix: Seq<u8>)
    requires
        forall|i: int|
            0 <= i < entries.len() ==> !prefix.is_prefix_of((#[trigger] entries[i]).0),
    ensures
        beginning(entries, prefix) == Seq::<(Seq<u8>, V)>::empty(),
    decreases entries.len(),
{
    reveal(Seq::filter);
    if entries.len() > 0 {
        assert forall|i: int| 0 <= i < entries.drop_last().len() implies !prefix.is_prefix_of(
            (#[trigger] entries.drop_last()[i]).0,
        ) by {
            assert(entries.drop_last()[i] == entries[i]);
        }
        lemma_beginning_none(entries.drop_last(), prefix);
        assert(!prefix.is_prefix_of(entries[entries.len() - 1].0));
    }
}

/// Bytes in front of entries are looked at first.
pub proof fn lemma_beginning_extend<V>(
    entries: Seq<(Seq<u8>, V)>,
    head: Seq<u8>,
    prefix: Seq<u8>,
)
    ensures
        beginning(extend(head, entries), head + prefix) == extend(head, beginning(entries, prefix)),
    decreases entries.len(),
{
    reveal(Seq::filter);
    let whole = head + prefix;
    let long = extend(head, entries);
    if entries.len() > 0 {
        lemma_beginning_extend(entries.drop_last(), head, prefix);
        assert(long.drop_last() =~= extend(head, entries.drop_last()));
        let key = entries.last().0;
        assert(long.last().0 == head + key);
        assert(whole.is_prefix_of(head + key) <==> prefix.is_prefix_of(key)) by {
            if prefix.is_prefix_of(key) {
                assert((head + key).subrange(0, whole.len() as int) =~= whole);
            }
            if whole.is_prefix_of(head + key) {
                assert(key.subrange(0, prefix.len() as int) =~= (head + key).subrange(
                    0,
                    whole.len() as int,
                ).skip(head.len() as int));
                assert(whole.skip(head.len() as int) =~= prefix);
            }
        }
        assert(beginning(long, whole) =~= extend(head, beginning(entries, prefix)));
    } else {
        assert(long =~= Seq::<(Seq<u8>, V)>::empty());
        assert(extend(head, beginning(entries, prefix)) =~= Seq::<(Seq<u8>, V)>::empty());
    }
}

/// The entries below a node that begin with `key` go through one slot.
pub proof fn lemma_beginning_node<V>(shape: Shape<V>, key: Seq<u8>, n: int)
    requires
        shape is Node,
        descends(shape.prefix(), key),
        0 <= n <= 256,
    ensures
        ({
            let b = key[shape.prefix().len() as int];
            beginning(shape.entries_below(n), key) == (if b < n && holds(shape->slots, b) {
                extend(
                    shape.prefix().push(b),
                    beginning(
                        shape->slots[index(shape->slots, b)].1.entries(),
                        rest(shape.prefix(), key),
                    ),
                )
            } else {
                Seq::<(Seq<u8>, V)>::empty()
            })
        }),
    decreases n,
{
    let prefix = shape.prefix();
    let slots = shape->slots;
    let b = key[prefix.len() as int];
    lemma_descends(prefix, key);
    if n <= 0 {
        lemma_beginning_none(shape.entries_below(n), key);
    } else {
        lemma_beginning_node(shape, key, n - 1);
        let c = (n - 1) as u8;
        let before = shape.entries_below(n - 1);
        let new = if holds(slots, c) {
            extend(prefix.push(c), slots[index(slots, c)].1.entries())
        } else {
            Seq::empty()
        };
        Seq::filter_distributes_over_add(
            before,
            new,
            |entry: (Seq<u8>, V)| key.is_prefix_of(entry.0),
        );
        if holds(slots, c) {
            let child = slots[index(slots, c)].1.entries();
            if c == b {
                lemma_beginning_extend(child, prefix.push(b), rest(prefix, key));
            } else {
                assert forall|i: int| 0 <= i < new.len() implies !key.is_prefix_of(
                    (#[trigger] new[i]).0,
                ) by {
                    let k = prefix.push(c) + child[i].0;
                    assert(k[prefix.len() as int] == c);
                    if key.is_prefix_of(k) {
                        assert(k.subrange(0, key.len() as int)[prefix.len() as int] == b);
                    }
                }
                lemma_beginning_none(new, key);
            }
        } else {
            lemma_beginning_none(new, key);
        }
        assert(beginning(shape.entries_below(n), key) =~= beginning(before, key) + beginning(
            new,
            key,
        ));
        if b < n && holds(slots, b) {
            assert(beginning(shape.entries_below(n), key) =~= extend(
                prefix.push(b),
                beginning(slots[index(slots, b)].1.entries(), rest(prefix, key)),
            ));
        } else {
            assert(beginning(shape.entries_below(n), key) =~= Seq::<(Seq<u8>, V)>::empty());
        }
    }
}

/// Bytes put in front in two steps.
pub proof fn lemma_extend_twice<V>(a: Seq<u8>, b: Seq<u8>, entries: Seq<(Seq<u8>, V)>)
    ensures
        extend(a, extend(b, entries)) == extend(a + b, entries),
{
    assert forall|i: int| 0 <= i < entries.len() implies a + (b + entries[i].0) == (a + b)
        + entries[i].0 by {
        assert(a + (b + entries[i].0) =~= (a + b) + entries[i].0);
    }
    assert(extend(a, extend(b, entries)) =~= extend(a + b, entries));
}

/// Empty bytes put in front change nothing.
pub proof fn lemma_extend_empty<V>(entries: Seq<(Seq<u8>, V)>)
    ensures
        extend(Seq::<u8>::empty(), entries) == entries,
{
    assert forall|i: int| 0 <= i < entries.len() implies Seq::<u8>::empty() + entries[i].0
        == entries[i].0 by {
        assert(Seq::<u8>::empty() + entries[i].0 =~= entries[i].0);
    }
    assert(extend(Seq::<u8>::empty(), entries) =~= entries);
}

/// How the entries behind an edge meet a prefix, when the edge decides it.
pub proof fn lemma_beginning_edge<V>(shape: Shape<V>, key: Seq<u8>)
    ensures
        common_len(shape.prefix(), key) == key.len() ==> beginning(shape.entries(), key)
            == shape.entries(),
        common_len(shape.prefix(), key) < key.len() && (common_len(shape.prefix(), key)
            < shape.prefix().len() || shape !is Node) ==> beginning(shape.entries(), key)
            == Seq::<(Seq<u8>, V)>::empty(),
{
    let prefix = shape.prefix();
    let entries = shape.entries();
    let n = common_len(prefix, key) as int;
    lemma_common_len(prefix, key);
    lemma_entries(shape);
    assert forall|i: int| 0 <= i < entries.len() implies prefix.is_prefix_of(
        (#[trigger] entries[i]).0,
    ) by {
        crate::raw::shape::laws::lemma_get_accepts(shape, entries[i].0);
    }
    if n == key.len() {
        assert forall|i: int| 0 <= i < entries.len() implies key.is_prefix_of(
            (#[trigger] entries[i]).0,
        ) by {
            let k = entries[i].0;
            assert(k.subrange(0, prefix.len() as int) == prefix);
            assert(key =~= k.subrange(0, prefix.len() as int).subrange(0, key.len() as int));
            assert(key =~= k.subrange(0, key.len() as int));
        }
        lemma_beginning_all(entries, key);
    } else if n < prefix.len() {
        assert forall|i: int| 0 <= i < entries.len() implies !key.is_prefix_of(
            (#[trigger] entries[i]).0,
        ) by {
            let k = entries[i].0;
            assert(k.subrange(0, prefix.len() as int)[n] == k[n]);
            if key.is_prefix_of(k) {
                assert(k.subrange(0, key.len() as int)[n] == k[n]);
            }
        }
        lemma_beginning_none(entries, key);
    } else if shape !is Node {
        lemma_beginning_none(entries, key);
    }
}

/// `entries` lists what `map` holds under the keys that satisfy `pred`, in
/// ascending order.
pub open spec fn lists<V>(
    entries: Seq<(Seq<u8>, V)>,
    map: Map<Seq<u8>, V>,
    pred: spec_fn(Seq<u8>) -> bool,
) -> bool {
    &&& sorted(entries)
    &&& forall|i: int|
        0 <= i < entries.len() ==> pred((#[trigger] entries[i]).0) && map.contains_key(
            entries[i].0,
        ) && map[entries[i].0] == entries[i].1
    &&& forall|k: Seq<u8>|
        map.contains_key(k) && #[trigger] pred(k) ==> entries.contains((k, map[k]))
}

/// What is left of ascending entries is ascending.
pub proof fn lemma_filter_sorted<V>(
    entries: Seq<(Seq<u8>, V)>,
    pred: spec_fn((Seq<u8>, V)) -> bool,
)
    requires
        sorted(entries),
    ensures
        sorted(entries.filter(pred)),
        forall|i: int|
            0 <= i < entries.filter(pred).len() ==> pred(#[trigger] entries.filter(pred)[i])
                && entries.contains(entries.filter(pred)[i]),
        forall|entry: (Seq<u8>, V)|
            entries.contains(entry) && #[trigger] pred(entry) ==> entries.filter(pred).contains(
                entry,
            ),
    decreases entries.len(),
{
    reveal(Seq::filter);
    if entries.len() > 0 {
        let short = entries.drop_last();
        let last = entries.last();
        assert forall|i: int, j: int| 0 <= i < j < short.len() implies lex_lt(
            (#[trigger] short[i]).0,
            (#[trigger] short[j]).0,
        ) by {
            assert(short[i] == entries[i] && short[j] == entries[j]);
        }
        lemma_filter_sorted(short, pred);
        let before = short.filter(pred);
        let after = entries.filter(pred);
        assert forall|i: int| 0 <= i < after.len() implies pred(#[trigger] after[i])
            && entries.contains(after[i]) by {
            if i < before.len() {
                assert(after[i] == before[i]);
                assert(short.contains(before[i]));
                let j = short.index_of(before[i]);
                assert(entries[j] == before[i]);
            } else {
                assert(entries[entries.len() - 1] == last);
            }
        }
        assert forall|i: int, j: int| 0 <= i < j < after.len() implies lex_lt(
            (#[trigger] after[i]).0,
            (#[trigger] after[j]).0,
        ) by {
            assert(after[i] == before[i]);
            if j < before.len() {
                assert(after[j] == before[j]);
            } else {
                assert(short.contains(before[i]));
                let x = short.index_of(before[i]);
                assert(entries[x] == before[i]);
                assert(lex_lt(entries[x].0, entries[entries.len() - 1].0));
            }
        }
        assert forall|entry: (Seq<u8>, V)|
            entries.contains(entry) && #[trigger] pred(entry) implies after.contains(entry) by {
            let j = entries.index_of(entry);
            assert(entries[j] == entry);
            if j < short.len() {
                assert(short[j] == entry);
                assert(before.contains(entry));
                let x = before.index_of(entry);
                assert(before[x] == entry);
                assert(after[x] == entry);
            } else {
                assert(after[before.len() as int] == entry);
            }
        }
    }
}

} // verus!
