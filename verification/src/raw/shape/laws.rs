//! What the operations on shapes do to the map that a shape stands for.
use vstd::prelude::*;
use crate::bytes::{
    common_len, diverge, lemma_common_len, lemma_common_len_is, lemma_diverge_at,
    lemma_not_diverge,
};
use crate::raw::node::Type;
use crate::raw::shape::{
    at, build, descends, holds, index, kind_for, live, live_by_byte, live_by_slot, lookup, occupancy, path,
    rest,
    slots_wf, unique, Shape,
};

verus! {

/// The slot of a radix byte is the one slot that holds it.
pub proof fn lemma_index<V>(slots: Seq<(u8, Shape<V>)>, i: int, b: u8)
    requires
        unique(slots),
        at(slots, i, b),
    ensures
        holds(slots, b),
        index(slots, b) == i,
        lookup(slots, b) == slots[i].1,
{
    assert(at(slots, index(slots, b), b));
}

/// A byte that occurs has a slot.
pub proof fn lemma_holds<V>(slots: Seq<(u8, Shape<V>)>, b: u8)
    requires
        holds(slots, b),
    ensures
        at(slots, index(slots, b), b),
        0 <= index(slots, b) < slots.len(),
        slots[index(slots, b)].0 == b,
        lookup(slots, b) == slots[index(slots, b)].1,
{
}

/// Key bytes at a node behind `prefix`.
pub proof fn lemma_descends(prefix: Seq<u8>, key: Seq<u8>)
    ensures
        descends(prefix, key) <==> prefix.len() < key.len() && (forall|i: int|
            0 <= i < prefix.len() ==> prefix[i] == key[i]),
        descends(prefix, key) ==> !diverge(prefix, key) && key == prefix.push(
            key[prefix.len() as int],
        ) + rest(prefix, key),
{
    if descends(prefix, key) {
        assert forall|i: int| 0 <= i < prefix.len() implies prefix[i] == key[i] by {
            assert(key.subrange(0, prefix.len() as int)[i] == key[i]);
        }
        lemma_common_len(prefix, key);
        assert(key =~= prefix.push(key[prefix.len() as int]) + rest(prefix, key));
    }
    if prefix.len() < key.len() && (forall|i: int| 0 <= i < prefix.len() ==> prefix[i] == key[i]) {
        assert(prefix =~= key.subrange(0, prefix.len() as int));
    }
}

/// What a node maps a key to depends on its prefix and children alone.
pub proof fn lemma_node_get<V>(prefix: Seq<u8>, kind: Type, slots: Seq<(u8, Shape<V>)>, key: Seq<u8>)
    ensures
        (Shape::Node { prefix, kind, slots }).get(key) == (if descends(prefix, key) {
            lookup(slots, key[prefix.len() as int]).get(rest(prefix, key))
        } else {
            None
        }),
        (Shape::Node { prefix, kind, slots }).accepts(key) == (if descends(prefix, key) {
            lookup(slots, key[prefix.len() as int]).accepts(rest(prefix, key))
        } else {
            diverge(prefix, key)
        }),
{
    if descends(prefix, key) && holds(slots, key[prefix.len() as int]) {
        lemma_holds(slots, key[prefix.len() as int]);
    }
}

/// Only keys that a shape accepts are stored in it.
pub proof fn lemma_get_accepts<V>(shape: Shape<V>, key: Seq<u8>)
    requires
        shape.get(key) is Some,
    ensures
        shape.accepts(key),
        shape.prefix().is_prefix_of(key),
    decreases shape,
{
    if let Shape::Node { prefix, slots, .. } = shape {
        lemma_holds(slots, key[prefix.len() as int]);
        lemma_get_accepts(slots[index(slots, key[prefix.len() as int])].1, rest(prefix, key));
    } else {
        assert(key.subrange(0, key.len() as int) =~= key);
    }
}

/// Two keys below the same node compare as what is left of them does.
pub proof fn lemma_rest(prefix: Seq<u8>, a: Seq<u8>, b: Seq<u8>)
    requires
        descends(prefix, a),
        descends(prefix, b),
    ensures
        a[prefix.len() as int] == b[prefix.len() as int] ==> (rest(prefix, a) == rest(prefix, b)
            <==> a == b) && (diverge(rest(prefix, a), rest(prefix, b)) <==> diverge(a, b)),
        a[prefix.len() as int] != b[prefix.len() as int] ==> diverge(a, b) && a != b,
{
    lemma_descends(prefix, a);
    lemma_descends(prefix, b);
    let n = prefix.len() as int;
    let x = rest(prefix, a);
    let y = rest(prefix, b);
    if a[n] == b[n] {
        if diverge(x, y) {
            lemma_common_len(x, y);
            let i = common_len(x, y) as int;
            assert(a[n + 1 + i] == x[i]);
            assert(b[n + 1 + i] == y[i]);
            lemma_diverge_at(a, b, n + 1 + i);
        } else {
            lemma_not_diverge(x, y);
            assert forall|i: int| 0 <= i < a.len() && i < b.len() implies a[i] == b[i] by {
                if i < n {
                    assert(prefix[i] == a[i]);
                    assert(prefix[i] == b[i]);
                } else if i > n {
                    assert(a[i] == x[i - n - 1]);
                    assert(b[i] == y[i - n - 1]);
                }
            }
            lemma_common_len(a, b);
        }
    } else {
        lemma_diverge_at(a, b, n);
    }
}

/// A key that leaves the path of another one at a node behind `prefix`.
pub proof fn lemma_leave(prefix: Seq<u8>, a: Seq<u8>, b: Seq<u8>)
    requires
        descends(prefix, a),
        diverge(prefix, b),
    ensures
        diverge(a, b),
        a != b,
        !descends(prefix, b),
{
    lemma_descends(prefix, a);
    lemma_descends(prefix, b);
    lemma_common_len(prefix, b);
    let i = common_len(prefix, b) as int;
    assert(prefix[i] == a[i]);
    lemma_diverge_at(a, b, i);
}

/// A path holds its key and nothing else.
pub proof fn lemma_path<V>(key: Seq<u8>, value: V, max: nat)
    ensures
        path(key, value, max).wf(max),
        path(key, value, max).compact(),
        path(key, value, max) !is Null,
        forall|k: Seq<u8>| #[trigger]
            path(key, value, max).get(k) == (if k == key {
                Some(value)
            } else {
                None
            }),
        forall|k: Seq<u8>| #[trigger]
            path(key, value, max).accepts(k) <==> k == key || diverge(key, k),
    decreases key.len(),
{
    if key.len() > max {
        let prefix = key.take(max as int);
        let b = key[max as int];
        let below = key.skip(max as int + 1);
        let child = path(below, value, max);
        let slots = seq![(b, child)];
        lemma_path(below, value, max);
        lemma_descends(prefix, key);
        assert(descends(prefix, key));
        assert(rest(prefix, key) =~= below);
        assert(slots[0].1 !is Null);
        assert forall|k: Seq<u8>|
            #![trigger path(key, value, max).get(k)]
            #![trigger path(key, value, max).accepts(k)]
            path(key, value, max).get(k) == (if k == key {
                Some(value)
            } else {
                None
            }) && (path(key, value, max).accepts(k) <==> k == key || diverge(key, k)) by {
            lemma_node_get(prefix, Type::Node3, slots, k);
            lemma_descends(prefix, k);
            if descends(prefix, k) {
                lemma_rest(prefix, key, k);
                if k[max as int] == b {
                    lemma_index(slots, 0, b);
                } else {
                    assert(!holds(slots, k[max as int]));
                }
            } else {
                if diverge(prefix, k) {
                    lemma_leave(prefix, key, k);
                } else {
                    lemma_not_diverge(prefix, k);
                    lemma_common_len_is(key, k, k.len());
                }
            }
        }
    } else {
        assert forall|k: Seq<u8>| #[trigger]
            path(key, value, max).get(k) == (if k == key {
                Some(value)
            } else {
                None
            }) by {
            assert(path(key, value, max) == Shape::Value { prefix: key, value });
        }
    }
}

/// How a key meets the bytes `head`, `b`, `tail` laid end to end.
proof fn lemma_split_bytes(head: Seq<u8>, b: u8, tail: Seq<u8>, k: Seq<u8>)
    ensures
        ({
            let all = head.push(b) + tail;
            let below = rest(head, k);
            &&& descends(head, k) && k[head.len() as int] == b ==> {
                &&& all == k <==> tail == below
                &&& diverge(all, k) <==> diverge(tail, below)
                &&& descends(all, k) <==> descends(tail, below)
                &&& descends(all, k) ==> k[all.len() as int] == below[tail.len() as int]
                &&& descends(all, k) ==> rest(all, k) == rest(tail, below)
            }
            &&& descends(head, k) && k[head.len() as int] != b ==> {
                &&& all != k
                &&& diverge(all, k)
                &&& !descends(all, k)
            }
            &&& !descends(head, k) ==> {
                &&& all != k
                &&& diverge(all, k) <==> diverge(head, k)
                &&& !descends(all, k)
            }
        }),
{
    let all = head.push(b) + tail;
    let below = rest(head, k);
    let n = head.len() as int;
    lemma_descends(head, all);
    lemma_descends(head, k);
    lemma_descends(all, k);
    lemma_descends(tail, below);
    assert forall|i: int| 0 <= i < head.len() implies head[i] == all[i] by {}
    assert(all[n] == b);
    assert(rest(head, all) =~= tail);
    if descends(head, k) {
        lemma_rest(head, all, k);
        if k[n] == b {
            if descends(all, k) {
                assert forall|i: int| 0 <= i < tail.len() implies tail[i] == below[i] by {
                    assert(all[n + 1 + i] == tail[i]);
                    assert(k[n + 1 + i] == below[i]);
                }
                assert(rest(all, k) =~= rest(tail, below));
            }
            if descends(tail, below) {
                assert forall|i: int| 0 <= i < all.len() implies all[i] == k[i] by {
                    if i < n {
                        assert(head[i] == k[i]);
                    } else if i > n {
                        assert(tail[i - n - 1] == below[i - n - 1]);
                    }
                }
            }
        } else {
            assert(all[n] != k[n]);
        }
    } else if diverge(head, k) {
        lemma_leave(head, all, k);
        lemma_common_len(head, k);
        let i = common_len(head, k) as int;
        assert(all[i] == head[i]);
    } else {
        lemma_not_diverge(head, k);
        lemma_common_len(all, k);
        if diverge(all, k) {
            let i = common_len(all, k) as int;
            assert(head[i] == k[i]);
        }
    }
}

/// An edge can be cut in two behind any of its bytes.
pub proof fn lemma_cut<V>(shape: Shape<V>, head: Seq<u8>, b: u8, tail: Seq<u8>, k: Seq<u8>)
    requires
        shape !is Null,
        shape.prefix() == head.push(b) + tail,
    ensures
        shape.get(k) == (if descends(head, k) && k[head.len() as int] == b {
            shape.with_prefix(tail).get(rest(head, k))
        } else {
            None
        }),
        shape.accepts(k) == (if descends(head, k) {
            k[head.len() as int] == b ==> shape.with_prefix(tail).accepts(rest(head, k))
        } else {
            diverge(head, k)
        }),
{
    lemma_split_bytes(head, b, tail, k);
}

/// Splitting an edge adds its key and changes nothing else.
pub proof fn lemma_expand<V>(shape: Shape<V>, key: Seq<u8>, value: V, max: nat)
    requires
        shape !is Null,
        shape.wf(max),
        diverge(shape.prefix(), key),
    ensures
        shape.expand(key, value, max).wf(max),
        shape.compact() ==> shape.expand(key, value, max).compact(),
        forall|k: Seq<u8>| #[trigger]
            shape.expand(key, value, max).get(k) == (if k == key {
                Some(value)
            } else {
                shape.get(k)
            }),
        forall|k: Seq<u8>|
            shape.accepts(k) && (k == key || diverge(key, k)) ==> #[trigger] shape.expand(
                key,
                value,
                max,
            ).accepts(k),
{
    let prefix = shape.prefix();
    lemma_common_len(prefix, key);
    let n = common_len(prefix, key) as int;
    let head = prefix.take(n);
    let tail = prefix.skip(n + 1);
    let below = key.skip(n + 1);
    let new = (key[n], path(below, value, max));
    let old_entry = (prefix[n], shape.with_prefix(tail));
    let slots = seq![new, old_entry];
    assert(shape.expand(key, value, max) == Shape::Node { prefix: head, kind: Type::Node3, slots });
    lemma_path(below, value, max);
    assert(prefix =~= head.push(prefix[n]) + tail);
    assert(slots[0] == new && slots[1] == old_entry);
    assert(slots[0].1 !is Null);
    assert(unique(slots));
    assert(old_entry.1.wf(max));
    assert(shape.compact() ==> old_entry.1.compact());
    assert(shape.expand(key, value, max).wf(max));
    lemma_descends(head, key);
    assert(descends(head, key));
    assert(rest(head, key) =~= below);
    assert forall|k: Seq<u8>|
        #![trigger shape.expand(key, value, max).get(k)]
        #![trigger shape.expand(key, value, max).accepts(k)]
        shape.expand(key, value, max).get(k) == (if k == key {
            Some(value)
        } else {
            shape.get(k)
        }) && (shape.accepts(k) && (k == key || diverge(key, k)) ==> shape.expand(
            key,
            value,
            max,
        ).accepts(k)) by {
        lemma_node_get(head, Type::Node3, slots, k);
        lemma_cut(shape, head, prefix[n], tail, k);
        lemma_descends(head, k);
        if descends(head, k) {
            lemma_rest(head, key, k);
            if k[n] == key[n] {
                lemma_index(slots, 0, k[n]);
            } else if k[n] == prefix[n] {
                lemma_index(slots, 1, k[n]);
            } else {
                assert(!holds(slots, k[n]));
            }
        }
    }
}

/// The live slots of the first `n`, in slot order.
proof fn lemma_live_by_slot<V>(slots: Seq<(u8, Shape<V>)>, n: int)
    requires
        unique(slots),
        0 <= n <= slots.len(),
    ensures
        live_by_slot(slots, n).len() <= n,
        unique(live_by_slot(slots, n)),
        forall|i: int|
            0 <= i < live_by_slot(slots, n).len() ==> (#[trigger] live_by_slot(slots, n)[i]).1
                !is Null && exists|j: int|
                0 <= j < n && slots[j] == live_by_slot(slots, n)[i],
        forall|j: int|
            0 <= j < n && slots[j].1 !is Null ==> exists|i: int|
                0 <= i < live_by_slot(slots, n).len() && live_by_slot(slots, n)[i]
                    == #[trigger] slots[j],
    decreases n,
{
    if n > 0 {
        lemma_live_by_slot(slots, n - 1);
        let before = live_by_slot(slots, n - 1);
        let after = live_by_slot(slots, n);
        if slots[n - 1].1 !is Null {
            assert(after == before.push(slots[n - 1]));
            assert forall|j: int| 0 <= j < n && slots[j].1 !is Null implies exists|i: int|
                0 <= i < after.len() && after[i] == #[trigger] slots[j] by {
                if j < n - 1 {
                    let i = choose|i: int| 0 <= i < before.len() && before[i] == slots[j];
                    assert(after[i] == slots[j]);
                } else {
                    assert(after[before.len() as int] == slots[j]);
                }
            }
            assert forall|i: int, k: int|
                0 <= i < after.len() && 0 <= k < after.len() && #[trigger] after[i].0
                    == #[trigger] after[k].0 implies i == k by {
                if i < before.len() {
                    assert(after[i] == before[i]);
                }
                if k < before.len() {
                    assert(after[k] == before[k]);
                }
            }
        }
    }
}

/// The live slots whose byte is less than `n`, in byte order.
proof fn lemma_live_by_byte<V>(slots: Seq<(u8, Shape<V>)>, n: int)
    requires
        0 <= n <= 256,
    ensures
        forall|i: int|
            0 <= i < live_by_byte(slots, n).len() ==> (#[trigger] live_by_byte(slots, n)[i]).1
                !is Null && live_by_byte(slots, n)[i].0 < n && live_by_byte(slots, n)[i].1
                == lookup(slots, live_by_byte(slots, n)[i].0),
        forall|i: int, j: int|
            0 <= i < j < live_by_byte(slots, n).len() ==> (#[trigger] live_by_byte(slots, n)[i]).0
                < (#[trigger] live_by_byte(slots, n)[j]).0,
        forall|b: u8|
            b < n && lookup(slots, b) !is Null ==> exists|i: int|
                0 <= i < live_by_byte(slots, n).len() && #[trigger] live_by_byte(slots, n)[i] == (
                    b,
                    #[trigger] lookup(slots, b),
                ),
        live_by_byte(slots, n).len() <= n,
    decreases n,
{
    if n > 0 {
        lemma_live_by_byte(slots, n - 1);
        let before = live_by_byte(slots, n - 1);
        let after = live_by_byte(slots, n);
        let c = (n - 1) as u8;
        if lookup(slots, c) !is Null {
            assert(after == before.push((c, lookup(slots, c))));
        }
        assert forall|b: u8| b < n && lookup(slots, b) !is Null implies exists|i: int|
            0 <= i < after.len() && #[trigger] after[i] == (b, #[trigger] lookup(slots, b)) by {
            if b < n - 1 {
                let i = choose|i: int|
                    0 <= i < before.len() && before[i] == (b, lookup(slots, b));
                assert(after[i] == before[i]);
            } else {
                assert(b == c);
                assert(after[before.len() as int] == (b, lookup(slots, b)));
            }
        }
    }
}

/// The live slots hold each child that is not null once.
#[verifier::rlimit(60)]
#[verifier::spinoff_prover]
pub proof fn lemma_live<V>(kind: Type, slots: Seq<(u8, Shape<V>)>)
    requires
        unique(slots),
    ensures
        unique(live(kind, slots)),
        forall|i: int|
            0 <= i < live(kind, slots).len() ==> (#[trigger] live(kind, slots)[i]).1 !is Null
                && holds(slots, live(kind, slots)[i].0) && live(kind, slots)[i].1 == lookup(
                slots,
                live(kind, slots)[i].0,
            ),
        forall|b: u8| #[trigger] lookup(live(kind, slots), b) == lookup(slots, b),
{
    let entries = live(kind, slots);
    lemma_live_by_slot(slots, slots.len() as int);
    lemma_live_by_byte(slots, 256);
    assert forall|i: int| 0 <= i < entries.len() implies (#[trigger] entries[i]).1 !is Null && holds(
        slots,
        entries[i].0,
    ) && entries[i].1 == lookup(slots, entries[i].0) by {
        if kind is Node3 || kind is Node15 {
            let j = choose|j: int| 0 <= j < slots.len() && slots[j] == entries[i];
            lemma_index(slots, j, slots[j].0);
        }
    }
    assert(unique(entries));
    assert forall|b: u8| #[trigger] lookup(entries, b) == lookup(slots, b) by {
        if holds(entries, b) {
            lemma_holds(entries, b);
        } else if lookup(slots, b) !is Null {
            lemma_holds(slots, b);
            if kind is Node3 || kind is Node15 {
                let j = index(slots, b);
                let i = choose|i: int| 0 <= i < entries.len() && entries[i] == slots[j];
                assert(at(entries, i, b));
            } else {
                let i = choose|i: int|
                    0 <= i < entries.len() && entries[i] == (b, lookup(slots, b));
                assert(at(entries, i, b));
            }
        }
    }
}

/// A fresh node holds the entries that it was built from.
pub proof fn lemma_build<V>(kind: Type, entries: Seq<(u8, Shape<V>)>)
    requires
        unique(entries),
        kind is Node256 || entries.len() <= kind.slots(),
    ensures
        slots_wf(kind, build(kind, entries)),
        forall|b: u8| #[trigger] lookup(build(kind, entries), b) == lookup(entries, b),
{
    if kind is Node256 {
        let slots = build(kind, entries);
        assert forall|i: int, j: int|
            0 <= i < slots.len() && 0 <= j < slots.len() && #[trigger] slots[i].0
                == #[trigger] slots[j].0 implies i == j by {
            assert(slots[i].0 == i as u8 && slots[j].0 == j as u8);
        }
        assert forall|b: u8| #[trigger] lookup(slots, b) == lookup(entries, b) by {
            assert(at(slots, b as int, b));
            lemma_index(slots, b as int, b);
        }
    }
}

/// Children found by lookup are as sound as the slots.
proof fn lemma_lookup_wf<V>(kind: Type, slots: Seq<(u8, Shape<V>)>, max: nat, b: u8)
    requires
        forall|i: int| 0 <= i < slots.len() ==> (#[trigger] slots[i]).1.wf(max),
    ensures
        lookup(slots, b).wf(max),
{
    if holds(slots, b) {
        lemma_holds(slots, b);
    }
}

/// Children found by lookup are as compact as the slots.
proof fn lemma_lookup_compact<V>(slots: Seq<(u8, Shape<V>)>, b: u8)
    requires
        forall|i: int| 0 <= i < slots.len() ==> (#[trigger] slots[i]).1.compact(),
    ensures
        lookup(slots, b).compact(),
{
    if holds(slots, b) {
        lemma_holds(slots, b);
    }
}

/// Rewriting a node without its null slots changes nothing that it maps.
pub proof fn lemma_replace<V>(shape: Shape<V>, max: nat)
    requires
        shape is Node,
        shape.wf(max),
    ensures
        shape.replace(max).wf(max),
        forall|k: Seq<u8>| #[trigger] shape.replace(max).get(k) == shape.get(k),
        forall|k: Seq<u8>| shape.accepts(k) ==> #[trigger] shape.replace(max).accepts(k),
        (forall|i: int| 0 <= i < shape->slots.len() ==> (#[trigger] shape->slots[i]).1.compact())
            ==> shape.replace(max).compact(),
        shape.replace(max) is Null <==> live(shape->kind, shape->slots).len() == 0,
        !Shape::<V>::compresses(
            shape.prefix(),
            live(shape->kind, shape->slots),
            max,
        ) && live(shape->kind, shape->slots).len() > 0 ==> shape.replace(max) is Node
            && shape.replace(max).prefix() == shape.prefix() && (shape.replace(max)->kind is Node256
            || shape.replace(max)->slots.len() < shape.replace(max)->kind.slots()),
{
    let prefix = shape.prefix();
    let kind = shape->kind;
    let slots = shape->slots;
    assert(shape == Shape::Node { prefix, kind, slots });
    let entries = live(kind, slots);
    let after = shape.replace(max);
    lemma_live(kind, slots);
    assert forall|i: int| 0 <= i < entries.len() implies (#[trigger] entries[i]).1.wf(max) by {
        lemma_lookup_wf(kind, slots, max, entries[i].0);
    }
    if entries.len() == 0 {
        assert forall|k: Seq<u8>| #[trigger] after.get(k) == shape.get(k) by {
            lemma_node_get(prefix, kind, slots, k);
            if descends(prefix, k) {
                let b = k[prefix.len() as int];
                assert(lookup(entries, b) == lookup(slots, b));
                assert(!holds(entries, b));
            }
        }
    } else if Shape::<V>::compresses(prefix, entries, max) {
        let (b, child) = entries[0];
        let all = prefix.push(b) + child.prefix();
        assert(after == child.with_prefix(all));
        assert(after.with_prefix(child.prefix()) == child);
        assert(after.prefix() == all);
        assert forall|k: Seq<u8>|
            #![trigger after.get(k)]
            #![trigger after.accepts(k)]
            after.get(k) == shape.get(k) && (shape.accepts(k) ==> after.accepts(k)) by {
            lemma_node_get(prefix, kind, slots, k);
            lemma_cut(after, prefix, b, child.prefix(), k);
            if descends(prefix, k) {
                let c = k[prefix.len() as int];
                assert(lookup(entries, c) == lookup(slots, c));
                if c == b {
                    lemma_index(entries, 0, b);
                } else {
                    assert(!holds(entries, c));
                }
            }
        }
        if forall|i: int| 0 <= i < slots.len() ==> (#[trigger] slots[i]).1.compact() {
            lemma_lookup_compact(slots, b);
        }
    } else {
        let new = kind_for(entries.len(), entries.len() == kind.slots());
        let fresh = build(new, entries);
        lemma_build(new, entries);
        assert(after == Shape::Node { prefix, kind: new, slots: fresh });
        assert forall|i: int| 0 <= i < fresh.len() implies (#[trigger] fresh[i]).1.wf(max) by {
            lemma_lookup_wf(kind, entries, max, fresh[i].0);
        }
        assert forall|k: Seq<u8>|
            #![trigger after.get(k)]
            #![trigger after.accepts(k)]
            after.get(k) == shape.get(k) && (shape.accepts(k) ==> after.accepts(k)) by {
            lemma_node_get(prefix, kind, slots, k);
            lemma_node_get(prefix, new, fresh, k);
            if descends(prefix, k) {
                let c = k[prefix.len() as int];
                assert(lookup(entries, c) == lookup(slots, c));
                assert(lookup(fresh, c) == lookup(entries, c));
            }
        }
        if forall|i: int| 0 <= i < slots.len() ==> (#[trigger] slots[i]).1.compact() {
            assert forall|i: int| 0 <= i < fresh.len() implies (#[trigger] fresh[i]).1.compact() by {
                assert(lookup(fresh, fresh[i].0) == lookup(entries, fresh[i].0));
                assert(lookup(entries, fresh[i].0) == lookup(slots, fresh[i].0));
                lemma_index(fresh, i, fresh[i].0);
                lemma_lookup_compact(slots, fresh[i].0);
            }
            let b = entries[0].0;
            lemma_index(entries, 0, b);
            assert(lookup(fresh, b) == lookup(entries, b));
            lemma_holds(fresh, b);
            assert(fresh[index(fresh, b)].1 !is Null);
        }
    }
}

/// Slots after the child under one byte is exchanged.
pub proof fn lemma_update<V>(slots: Seq<(u8, Shape<V>)>, b: u8, child: Shape<V>)
    requires
        unique(slots),
        holds(slots, b),
    ensures
        unique(slots.update(index(slots, b), (b, child))),
        forall|c: u8| #[trigger]
            lookup(slots.update(index(slots, b), (b, child)), c) == (if c == b {
                child
            } else {
                lookup(slots, c)
            }),
        forall|c: u8| #[trigger]
            holds(slots.update(index(slots, b), (b, child)), c) == holds(slots, c),
{
    lemma_holds(slots, b);
    let i = index(slots, b);
    let after = slots.update(i, (b, child));
    assert(unique(after)) by {
        assert forall|x: int, y: int|
            0 <= x < after.len() && 0 <= y < after.len() && #[trigger] after[x].0
                == #[trigger] after[y].0 implies x == y by {
            assert(after[x].0 == slots[x].0);
            assert(after[y].0 == slots[y].0);
        }
    }
    assert forall|c: u8|
        #![trigger lookup(after, c)]
        #![trigger holds(after, c)]
        lookup(after, c) == (if c == b {
            child
        } else {
            lookup(slots, c)
        }) && holds(after, c) == holds(slots, c) by {
        if holds(slots, c) {
            let j = index(slots, c);
            lemma_holds(slots, c);
            assert(at(after, j, c));
            lemma_index(after, j, c);
        } else if holds(after, c) {
            lemma_holds(after, c);
            assert(at(slots, index(after, c), c));
        }
    }
}

/// Slots after a child is added under a new byte.
pub proof fn lemma_push<V>(slots: Seq<(u8, Shape<V>)>, b: u8, child: Shape<V>)
    requires
        unique(slots),
        !holds(slots, b),
    ensures
        unique(slots.push((b, child))),
        forall|c: u8| #[trigger]
            lookup(slots.push((b, child)), c) == (if c == b {
                child
            } else {
                lookup(slots, c)
            }),
{
    let after = slots.push((b, child));
    assert(unique(after)) by {
        assert forall|x: int, y: int|
            0 <= x < after.len() && 0 <= y < after.len() && #[trigger] after[x].0
                == #[trigger] after[y].0 implies x == y by {
            if x < slots.len() {
                assert(after[x] == slots[x]);
                assert(at(slots, x, slots[x].0));
            }
            if y < slots.len() {
                assert(after[y] == slots[y]);
                assert(at(slots, y, slots[y].0));
            }
        }
    }
    assert forall|c: u8| #[trigger]
        lookup(after, c) == (if c == b {
            child
        } else {
            lookup(slots, c)
        }) by {
        if c == b {
            lemma_index(after, slots.len() as int, b);
        } else if holds(slots, c) {
            lemma_holds(slots, c);
            assert(at(after, index(slots, c), c));
            lemma_index(after, index(slots, c), c);
        } else if holds(after, c) {
            lemma_holds(after, c);
            assert(at(slots, index(after, c), c));
        }
    }
}

/// Exchanging the child on the path of `key` is seen by the keys through it.
proof fn lemma_child<V>(
    prefix: Seq<u8>,
    kind: Type,
    slots: Seq<(u8, Shape<V>)>,
    new: Seq<(u8, Shape<V>)>,
    key: Seq<u8>,
    k: Seq<u8>,
)
    requires
        descends(prefix, key),
        forall|c: u8|
            c != key[prefix.len() as int] ==> #[trigger] lookup(new, c) == lookup(slots, c),
    ensures
        ({
            let b = key[prefix.len() as int];
            let before = Shape::Node { prefix, kind, slots };
            let after = Shape::Node { prefix, kind, slots: new };
            if descends(prefix, k) && k[prefix.len() as int] == b {
                &&& before.get(k) == lookup(slots, b).get(rest(prefix, k))
                &&& before.accepts(k) == lookup(slots, b).accepts(rest(prefix, k))
                &&& after.get(k) == lookup(new, b).get(rest(prefix, k))
                &&& after.accepts(k) == lookup(new, b).accepts(rest(prefix, k))
                &&& (rest(prefix, k) == rest(prefix, key) <==> k == key)
                &&& diverge(rest(prefix, key), rest(prefix, k)) <==> diverge(key, k)
            } else {
                &&& after.get(k) == before.get(k)
                &&& after.accepts(k) == before.accepts(k)
                &&& k != key
            }
        }),
{
    lemma_node_get(prefix, kind, slots, k);
    lemma_node_get(prefix, kind, new, k);
    if descends(prefix, k) {
        lemma_rest(prefix, key, k);
    }
}

/// Attaching a path to a node adds its key and changes nothing else.
pub proof fn lemma_attach<V>(shape: Shape<V>, key: Seq<u8>, value: V, max: nat)
    requires
        shape is Node,
        shape.wf(max),
        descends(shape.prefix(), key),
        lookup(shape->slots, key[shape.prefix().len() as int]) is Null,
        shape->kind is Node256 || shape->slots.len() < shape->kind.slots(),
    ensures
        shape.attach(key, value, max).wf(max),
        shape.attach(key, value, max) is Node,
        (forall|i: int| 0 <= i < shape->slots.len() ==> (#[trigger] shape->slots[i]).1.compact())
            ==> shape.attach(key, value, max).compact(),
        forall|k: Seq<u8>| #[trigger]
            shape.attach(key, value, max).get(k) == (if k == key {
                Some(value)
            } else {
                shape.get(k)
            }),
        forall|k: Seq<u8>|
            shape.accepts(k) && (k == key || diverge(key, k)) ==> #[trigger] shape.attach(
                key,
                value,
                max,
            ).accepts(k),
{
    let prefix = shape.prefix();
    let kind = shape->kind;
    let slots = shape->slots;
    assert(shape == Shape::Node { prefix, kind, slots });
    let b = key[prefix.len() as int];
    let below = rest(prefix, key);
    let child = path(below, value, max);
    lemma_path(below, value, max);
    let after = shape.attach(key, value, max);
    let new = after->slots;
    if kind is Node256 {
        assert(at(slots, b as int, b));
    }
    if holds(slots, b) {
        lemma_update(slots, b, child);
        lemma_holds(slots, b);
        assert(new[index(slots, b)].1 !is Null);
    } else {
        lemma_push(slots, b, child);
        assert(new[slots.len() as int].1 !is Null);
    }
    assert(lookup(new, b) == child);
    assert forall|k: Seq<u8>|
        #![trigger after.get(k)]
        #![trigger after.accepts(k)]
        after.get(k) == (if k == key {
            Some(value)
        } else {
            shape.get(k)
        }) && (shape.accepts(k) && (k == key || diverge(key, k)) ==> after.accepts(k)) by {
        lemma_child(prefix, kind, slots, new, key, k);
    }
}

/// Associating a key with the value that it has changes nothing.
pub proof fn lemma_insert_same<V>(shape: Shape<V>, key: Seq<u8>, max: nat)
    requires
        shape.get(key) is Some,
    ensures
        shape.insert(key, shape.get(key)->0, max) == shape,
    decreases shape,
{
    if let Shape::Node { prefix, slots, .. } = shape {
        let b = key[prefix.len() as int];
        lemma_holds(slots, b);
        let i = index(slots, b);
        lemma_insert_same(slots[i].1, rest(prefix, key), max);
        assert(slots.update(i, (b, slots[i].1)) =~= slots);
    }
}

/// Inserting a key makes it map to its value and changes nothing else.
pub proof fn lemma_insert<V>(shape: Shape<V>, key: Seq<u8>, value: V, max: nat)
    requires
        shape.wf(max),
        shape.accepts(key),
    ensures
        shape.insert(key, value, max).wf(max),
        shape.insert(key, value, max) !is Null,
        shape.compact() ==> shape.insert(key, value, max).compact(),
        forall|k: Seq<u8>| #[trigger]
            shape.insert(key, value, max).get(k) == (if k == key {
                Some(value)
            } else {
                shape.get(k)
            }),
        forall|k: Seq<u8>|
            shape.accepts(k) && (k == key || diverge(key, k)) ==> #[trigger] shape.insert(
                key,
                value,
                max,
            ).accepts(k),
    decreases shape,
{
    let after = shape.insert(key, value, max);
    match shape {
        Shape::Null => {
            lemma_path(key, value, max);
        },
        Shape::Value { prefix, .. } => {
            if prefix == key {
                assert forall|k: Seq<u8>| #[trigger]
                    after.get(k) == (if k == key {
                        Some(value)
                    } else {
                        shape.get(k)
                    }) by {
                    assert(after == Shape::Value { prefix, value });
                }
            } else {
                lemma_expand(shape, key, value, max);
            }
        },
        Shape::Node { prefix, kind, slots } => {
            if descends(prefix, key) {
                let b = key[prefix.len() as int];
                lemma_node_get(prefix, kind, slots, key);
                if holds(slots, b) {
                    lemma_holds(slots, b);
                    let i = index(slots, b);
                    let child = slots[i].1.insert(rest(prefix, key), value, max);
                    let new = slots.update(i, (b, child));
                    lemma_insert(slots[i].1, rest(prefix, key), value, max);
                    lemma_update(slots, b, child);
                    assert(after == Shape::Node { prefix, kind, slots: new });
                    assert(new[i].1 !is Null);
                    assert forall|k: Seq<u8>|
                        #![trigger after.get(k)]
                        #![trigger after.accepts(k)]
                        after.get(k) == (if k == key {
                            Some(value)
                        } else {
                            shape.get(k)
                        }) && (shape.accepts(k) && (k == key || diverge(key, k)) ==> after.accepts(
                            k,
                        )) by {
                        lemma_child(prefix, kind, slots, new, key, k);
                    }
                } else if slots.len() < kind.slots() {
                    lemma_attach(shape, key, value, max);
                } else {
                    let new = shape.replace(max);
                    let entries = live(kind, slots);
                    lemma_replace(shape, max);
                    lemma_live(kind, slots);
                    if entries.len() == 0 {
                        lemma_path(key, value, max);
                    } else if Shape::<V>::compresses(prefix, entries, max) {
                        let (c, child) = entries[0];
                        lemma_split_bytes(prefix, c, child.prefix(), key);
                        assert(holds(slots, c));
                        lemma_expand(new, key, value, max);
                    } else {
                        lemma_build(new->kind, entries);
                        assert(lookup(new->slots, b) == lookup(entries, b));
                        assert(lookup(entries, b) == lookup(slots, b));
                        lemma_attach(new, key, value, max);
                    }
                    assert forall|k: Seq<u8>|
                        #![trigger after.get(k)]
                        #![trigger after.accepts(k)]
                        after.get(k) == (if k == key {
                            Some(value)
                        } else {
                            shape.get(k)
                        }) && (shape.accepts(k) && (k == key || diverge(key, k)) ==> after.accepts(
                            k,
                        )) by {
                        assert(new.get(k) == shape.get(k));
                        assert(shape.accepts(k) ==> new.accepts(k));
                    }
                }
            } else {
                lemma_expand(shape, key, value, max);
            }
        },
    }
}

/// Removing a key makes it map to nothing and changes nothing else.
pub proof fn lemma_remove<V>(shape: Shape<V>, key: Seq<u8>, recursive: bool, max: nat)
    requires
        shape.wf(max),
    ensures
        shape.remove(key, recursive, max).0.wf(max),
        !shape.remove(key, recursive, max).1 && recursive ==> (shape.remove(
            key,
            recursive,
            max,
        ).0 is Null <==> shape is Null),
        shape.remove(key, recursive, max).1 ==> recursive,
        shape.compact() && recursive ==> shape.remove(key, recursive, max).0.compact(),
        forall|k: Seq<u8>| #[trigger]
            shape.remove(key, recursive, max).0.get(k) == (if k == key {
                None
            } else {
                shape.get(k)
            }),
        forall|k: Seq<u8>|
            shape.accepts(k) ==> #[trigger] shape.remove(key, recursive, max).0.accepts(k),
    decreases shape,
{
    let (after, up) = shape.remove(key, recursive, max);
    if let Shape::Node { prefix, kind, slots } = shape {
        let b = key[prefix.len() as int];
        if descends(prefix, key) && holds(slots, b) {
            lemma_holds(slots, b);
            let i = index(slots, b);
            let below = rest(prefix, key);
            let (child, go) = slots[i].1.remove(below, recursive, max);
            let new = slots.update(i, (b, child));
            let node = Shape::Node { prefix, kind, slots: new };
            lemma_remove(slots[i].1, below, recursive, max);
            lemma_update(slots, b, child);
            assert(node.wf(max));
            lemma_replace(node, max);
            assert forall|k: Seq<u8>|
                #![trigger after.get(k)]
                #![trigger after.accepts(k)]
                after.get(k) == (if k == key {
                    None
                } else {
                    shape.get(k)
                }) && (shape.accepts(k) ==> after.accepts(k)) by {
                lemma_child(prefix, kind, slots, new, key, k);
                assert(node.replace(max).get(k) == node.get(k));
                assert(node.accepts(k) ==> node.replace(max).accepts(k));
            }
            if shape.compact() && recursive {
                if go {
                    if occupancy(new) > 1 {
                        lemma_live_by_slot(new, new.len() as int);
                        let first = live_by_slot(new, new.len() as int)[0];
                        let j = choose|j: int| 0 <= j < new.len() && new[j] == first;
                        assert(new[j].1 !is Null);
                    }
                } else {
                    let j = choose|j: int| 0 <= j < slots.len() && (#[trigger] slots[j]).1 !is Null;
                    assert(new[j].1 !is Null);
                }
            }
        } else {
            lemma_absent(shape, key);
        }
    }
}

/// A key that leaves a node behind `prefix` is not stored below it.
proof fn lemma_absent<V>(shape: Shape<V>, key: Seq<u8>)
    requires
        shape is Node,
        !(descends(shape.prefix(), key) && holds(shape->slots, key[shape.prefix().len() as int])),
    ensures
        shape.get(key) is None,
{
}

/// Radix bytes that lead to a child.
pub open spec fn child_bytes<V>(slots: Seq<(u8, Shape<V>)>) -> Set<u8> {
    Set::new(|b: u8| lookup(slots, b) !is Null)
}

/// However a node is walked, it has one entry for each radix byte that leads to a
/// child: a slot without a child does not count.
pub proof fn law_occupancy<V>(kind: Type, slots: Seq<(u8, Shape<V>)>)
    requires
        unique(slots),
    ensures
        child_bytes(slots).finite(),
        occupancy(slots) == child_bytes(slots).len(),
        live(kind, slots).len() == child_bytes(slots).len(),
        forall|b: u8|
            (#[trigger] child_bytes(slots).contains(b)) <==> exists|i: int|
                0 <= i < slots.len() && (#[trigger] slots[i]).0 == b && slots[i].1 !is Null,
{
    lemma_live_bytes(Type::Node3, slots);
    lemma_live_bytes(kind, slots);
    assert forall|b: u8| (#[trigger] child_bytes(slots).contains(b)) <==> exists|i: int|
        0 <= i < slots.len() && (#[trigger] slots[i]).0 == b && slots[i].1 !is Null by {
        if child_bytes(slots).contains(b) {
            lemma_holds(slots, b);
            let i = index(slots, b);
            assert(slots[i].0 == b && slots[i].1 !is Null);
        }
        if exists|i: int|
            0 <= i < slots.len() && (#[trigger] slots[i]).0 == b && slots[i].1 !is Null {
            let i = choose|i: int|
                0 <= i < slots.len() && (#[trigger] slots[i]).0 == b && slots[i].1 !is Null;
            lemma_index(slots, i, b);
        }
    }
}

/// The entries of a walk are as many as the radix bytes that lead to a child.
proof fn lemma_live_bytes<V>(kind: Type, slots: Seq<(u8, Shape<V>)>)
    requires
        unique(slots),
    ensures
        child_bytes(slots).finite(),
        live(kind, slots).len() == child_bytes(slots).len(),
{
    let entries = live(kind, slots);
    lemma_live(kind, slots);
    let bytes = Seq::new(entries.len(), |i: int| entries[i].0);
    assert(bytes.no_duplicates()) by {
        assert forall|i: int, j: int|
            0 <= i < bytes.len() && 0 <= j < bytes.len() && i != j implies bytes[i] != bytes[j] by {
            assert(entries[i].0 == bytes[i] && entries[j].0 == bytes[j]);
        }
    }
    bytes.unique_seq_to_set();
    vstd::seq_lib::seq_to_set_is_finite(bytes);
    assert(bytes.to_set() =~= child_bytes(slots)) by {
        assert forall|b: u8| bytes.to_set().contains(b) <==> child_bytes(slots).contains(b) by {
            if bytes.to_set().contains(b) {
                let i = bytes.index_of(b);
                assert(entries[i].0 == b);
            }
            if child_bytes(slots).contains(b) {
                assert(lookup(entries, b) == lookup(slots, b));
                lemma_holds(entries, b);
                assert(bytes[index(entries, b)] == b);
            }
        }
    }
}

/// A fresh node has room for its entries, and for one more where that is asked
/// for. Its type goes by how many there are to be.
pub proof fn law_kind_for(n: nat, grow: bool)
    requires
        n <= 255 || n <= 256 && !grow,
    ensures
        ({
            let room = if grow {
                n + 1
            } else {
                n
            };
            &&& room <= kind_for(n, grow).slots()
            &&& kind_for(n, grow) is Node3 <==> room <= 2
            &&& kind_for(n, grow) is Node15 <==> 3 <= room <= 13
            &&& kind_for(n, grow) is Node47 <==> 14 <= room <= 46
            &&& kind_for(n, grow) is Node256 <==> 47 <= room
        }),
        Type::Node3.slots() == 3,
        Type::Node15.slots() == 15,
        Type::Node47.slots() == 47,
        Type::Node256.slots() == 256,
{
}

/// Where a key departs from the bytes of an edge, the edge is split there: the
/// bytes in common lead to a node with two children, of which the new one comes
/// first and the old one keeps all that it has.
pub proof fn law_expand<V>(shape: Shape<V>, key: Seq<u8>, value: V, max: nat, n: int)
    requires
        shape !is Null,
        0 <= n < key.len(),
        n < shape.prefix().len(),
        key.take(n) == shape.prefix().take(n),
        key[n] != shape.prefix()[n],
    ensures
        shape.insert(key, value, max) == (Shape::Node {
            prefix: key.take(n),
            kind: Type::Node3,
            slots: seq![
                (key[n], Shape::Null.insert(key.skip(n + 1), value, max)),
                (shape.prefix()[n], shape.with_prefix(shape.prefix().skip(n + 1))),
            ],
        }),
{
    let prefix = shape.prefix();
    assert forall|i: int| 0 <= i < n implies prefix[i] == key[i] by {
        assert(prefix.take(n)[i] == key.take(n)[i]);
    }
    lemma_common_len_is(prefix, key, n as nat);
    lemma_descends(prefix, key);
    if descends(prefix, key) {
        assert(prefix[n] == key[n]);
    }
    assert(prefix != key);
}

/// A path of more bytes than an edge can hold goes through nodes with one child,
/// one for each full edge.
pub proof fn law_path<V>(key: Seq<u8>, value: V, max: nat)
    ensures
        key.len() <= max ==> Shape::Null.insert(key, value, max) == (Shape::Value {
            prefix: key,
            value,
        }),
        key.len() > max ==> Shape::Null.insert(key, value, max) == (Shape::Node {
            prefix: key.take(max as int),
            kind: Type::Node3,
            slots: seq![
                (
                    key[max as int],
                    Shape::Null.insert(key.skip(max as int + 1), value, max),
                ),
            ],
        }),
{
}

/// A node that has room keeps its type and its slots when a key is stored below
/// it. Only the slot of the key's byte changes, which comes last if it is new.
pub proof fn law_insert_below<V>(shape: Shape<V>, key: Seq<u8>, value: V, max: nat, i: int)
    requires
        shape is Node,
        unique(shape->slots),
        descends(shape.prefix(), key),
        holds(shape->slots, key[shape.prefix().len() as int]) || shape->slots.len()
            < shape->kind.slots(),
        0 <= i < shape->slots.len(),
    ensures
        ({
            let b = key[shape.prefix().len() as int];
            let after = shape.insert(key, value, max);
            &&& after is Node
            &&& after.prefix() == shape.prefix()
            &&& after->kind == shape->kind
            &&& after->slots.len() == (if holds(shape->slots, b) {
                shape->slots.len()
            } else {
                shape->slots.len() + 1
            })
            &&& after->slots[i].0 == shape->slots[i].0
            &&& shape->slots[i].0 != b ==> after->slots[i] == shape->slots[i]
            &&& shape->slots[i].0 == b ==> after->slots[i].1 == shape->slots[i].1.insert(
                key.skip(shape.prefix().len() as int + 1),
                value,
                max,
            )
            &&& !holds(shape->slots, b) ==> after->slots.last() == (
                b,
                Shape::Null.insert(key.skip(shape.prefix().len() as int + 1), value, max),
            )
        }),
{
    let slots = shape->slots;
    let b = key[shape.prefix().len() as int];
    if holds(slots, b) {
        lemma_holds(slots, b);
        if slots[i].0 == b {
            lemma_index(slots, i, b);
        }
    } else {
        if slots[i].0 == b {
            assert(at(slots, i, b));
        }
    }
}

/// A removal that leaves a node with more than one child, or that is not to look
/// back, leaves the node as it is but for the child that it goes into. A slot is
/// not given up with its child.
pub proof fn law_remove_below<V>(shape: Shape<V>, key: Seq<u8>, recursive: bool, max: nat, i: int)
    requires
        shape is Node,
        unique(shape->slots),
        descends(shape.prefix(), key),
        holds(shape->slots, key[shape.prefix().len() as int]),
        0 <= i < shape->slots.len(),
    ensures
        ({
            let b = key[shape.prefix().len() as int];
            let tail = key.skip(shape.prefix().len() as int + 1);
            let below = lookup(shape->slots, b).remove(tail, recursive, max).0;
            let slots = shape->slots.update(index(shape->slots, b), (b, below));
            let after = shape.remove(key, recursive, max).0;
            !recursive || child_bytes(slots).len() > 1 ==> {
                &&& after is Node
                &&& after.prefix() == shape.prefix()
                &&& after->kind == shape->kind
                &&& after->slots.len() == shape->slots.len()
                &&& after->slots[i].0 == shape->slots[i].0
                &&& shape->slots[i].0 != b ==> after->slots[i] == shape->slots[i]
                &&& shape->slots[i].0 == b ==> after->slots[i].1 == below
            }
        }),
{
    let b = key[shape.prefix().len() as int];
    lemma_holds(shape->slots, b);
    let tail = key.skip(shape.prefix().len() as int + 1);
    let below = lookup(shape->slots, b).remove(tail, recursive, max).0;
    let slots = shape->slots.update(index(shape->slots, b), (b, below));
    assert(unique(slots)) by {
        assert forall|x: int, y: int|
            0 <= x < slots.len() && 0 <= y < slots.len() && #[trigger] slots[x].0
                == #[trigger] slots[y].0 implies x == y by {
            assert(shape->slots[x].0 == slots[x].0);
            assert(shape->slots[y].0 == slots[y].0);
        }
    }
    law_occupancy(shape->kind, slots);
    if shape->slots[i].0 == b {
        lemma_index(shape->slots, i, b);
    }
    lemma_remove_flag(lookup(shape->slots, b), tail, max);
}

/// A removal that is not to look back does not ask the nodes above to.
proof fn lemma_remove_flag<V>(shape: Shape<V>, key: Seq<u8>, max: nat)
    ensures
        !shape.remove(key, false, max).1,
    decreases shape,
{
    if let Shape::Node { prefix, slots, .. } = shape {
        if descends(prefix, key) && holds(slots, key[prefix.len() as int]) {
            lemma_holds(slots, key[prefix.len() as int]);
            lemma_remove_flag(
                slots[index(slots, key[prefix.len() as int])].1,
                rest(prefix, key),
                max,
            );
        }
    }
}

/// A node that is rewritten goes away if it has no child. If it has one, and one
/// edge can hold the bytes to it, that child takes its place. Otherwise its type
/// goes by the number of its children, where a full node is taken to need one slot
/// more, and each child stays under its byte.
pub proof fn law_replace<V>(prefix: Seq<u8>, kind: Type, slots: Seq<(u8, Shape<V>)>, max: nat, b: u8)
    requires
        slots_wf(kind, slots),
    ensures
        ({
            let shape = Shape::Node { prefix, kind, slots };
            let count = child_bytes(slots).len();
            let after = shape.replace(max);
            &&& count == 0 ==> after is Null
            &&& count == 1 && lookup(slots, b) !is Null ==> {
                let child = lookup(slots, b);
                if prefix.len() + 1 + child.prefix().len() <= max {
                    after == child.with_prefix(prefix + seq![b] + child.prefix())
                } else {
                    after is Node
                }
            }
            &&& count > 1 ==> after is Node
            &&& after is Node && (count > 1 || count == 1 && lookup(slots, b) !is Null && prefix.len()
                + 1 + lookup(slots, b).prefix().len() > max) ==> {
                &&& after.prefix() == prefix
                &&& after->kind == kind_for(count, count == kind.slots())
                &&& lookup(after->slots, b) == lookup(slots, b)
            }
        }),
{
    let shape = Shape::Node { prefix, kind, slots };
    let entries = live(kind, slots);
    law_occupancy(kind, slots);
    lemma_live(kind, slots);
    if entries.len() == 1 && lookup(slots, b) !is Null {
        assert(lookup(entries, b) == lookup(slots, b));
        lemma_holds(entries, b);
        assert(entries[0].0 == b);
        assert(prefix.push(b) =~= prefix + seq![b]);
    }
    if entries.len() > 0 {
        let new = kind_for(entries.len(), entries.len() == kind.slots());
        assert(entries.len() <= 256) by {
            law_occupancy(Type::Node256, slots);
            lemma_live_by_byte(slots, 256);
        }
        lemma_build(new, entries);
    }
}


} // verus!
