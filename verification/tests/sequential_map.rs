use arctic::raw::iter::range::{Include, Unbound};
use arctic::raw::key::dynamic::boxed_slice::{BoxedSlice, BoxedStr};
use arctic::raw::key::dynamic::slice::{Slice, Str};
use arctic::raw::key::dynamic::{Misplaced, NonNull, NullByte, Reader as Bytes, Terminated};
use arctic::raw::key::unsigned::Reader;
use arctic::raw::{find_zero, is_unique, Smo};
use arctic::sequential::map::Entry;
use arctic::topology::{Branch, Child, Edge, Error, Node, NodeKind, Topology, VERSION};
use arctic::{Order, SequentialMap};
use std::collections::BTreeMap;
use std::marker::PhantomData;

fn random(state: &mut u64) -> u64 {
    *state = state.wrapping_mul(6364136223846793005).wrapping_add(1442695040888963407);
    let x = *state;
    (x ^ (x >> 29)).wrapping_mul(0xbf58_476d_1ce4_e5b9) ^ (x >> 32)
}

fn entries(map: &SequentialMap<u64, u64>, order: Order) -> Vec<(u64, u64)> {
    let mut iter = map.all().entries(order);
    let mut entries = Vec::new();
    while let Some((key, value)) = iter.next() {
        entries.push((key, *value));
    }
    entries
}

/// What is written is read back, and other keys are left alone.
#[test]
fn writes_are_read_back() {
    let mut map = SequentialMap::<u64, u64>::new();
    assert!(!map.contains_key(&1));
    assert_eq!(map.insert(1, 10).map(|value| *value).ok(), Some(10));
    assert_eq!(map.insert(1, 11).map_err(|(old, new)| (*old, new)), Err((10, 11)));
    assert_eq!(map.upsert(1, 12).map(|(old, new)| (old, *new)), Ok((10, 12)));
    assert_eq!(map.upsert(2, 20).map_err(|new| *new), Err(20));
    assert_eq!(map.update(&2, 21).map(|(old, new)| (old, *new)), Ok((20, 21)));
    assert_eq!(map.update(&3, 30).map(|(old, _)| old), Err(30));
    assert_eq!(map.get(&1), Some(&12));
    assert_eq!(map.get(&2), Some(&21));
    assert_eq!(map.get(&3), None);
    *map.get_mut(&1).unwrap() += 1;
    assert_eq!(map.remove(&1), Some(13));
    assert_eq!(map.remove(&1), None);
    assert_eq!(map.get(&2), Some(&21));
}

#[test]
fn agrees_with_an_ordered_map() {
    let mut state = 5;
    let mut map = SequentialMap::<u64, u64>::new();
    let mut model = BTreeMap::new();
    for round in 0..20_000u64 {
        let bits = random(&mut state);
        let key = (bits >> 8) % 700 * if bits & 1 == 0 { 1 } else { 0x0001_0000_0000_0001 };
        match bits >> 40 & 3 {
            0 | 1 => {
                let old = model.insert(key, round);
                assert_eq!(map.upsert(key, round).map(|(old, _)| old).ok(), old);
            }
            2 => assert_eq!(map.remove(&key), model.remove(&key)),
            _ => assert_eq!(map.get(&key), model.get(&key)),
        }
    }
    let expected = model.iter().map(|(key, value)| (*key, *value)).collect::<Vec<_>>();
    assert_eq!(entries(&map, Order::Ascend), expected);
    let reversed = expected.iter().rev().copied().collect::<Vec<_>>();
    assert_eq!(entries(&map, Order::Descend), reversed);

    for _ in 0..200 {
        let a = random(&mut state) % 0x0300_0000;
        let b = random(&mut state) % 0x0300_0000;
        let (lower, upper) = (a.min(b), a.max(b));
        let bounds = (Include(Reader::new(lower)), Include(Reader::new(upper)));
        let mut iter = map.range(&bounds).entries(Order::Ascend);
        for (key, value) in model.range(lower..=upper) {
            assert_eq!(iter.next(), Some((*key, value)));
        }
        assert_eq!(iter.next(), None);
    }
}

#[test]
fn half_open_ranges() {
    let map = SequentialMap::<u64, u64>::from_pairs(vec![(1, 10), (2, 20), (3, 30), (2, 21)]);
    let keys = |mut iter: arctic::sequential::iter::EntryIter<u64, u64>| {
        let mut keys = Vec::new();
        while let Some((key, value)) = iter.next() {
            keys.push((key, *value));
        }
        keys
    };
    let from = (Include(Reader::new(2u64)), Unbound(PhantomData));
    assert_eq!(keys(map.range(&from).entries(Order::Ascend)), vec![(2, 21), (3, 30)]);
    let to = (Unbound(PhantomData), Include(Reader::new(2u64)));
    assert_eq!(keys(map.range(&to).entries(Order::Descend)), vec![(2, 21), (1, 10)]);
    let all = (Unbound::<Reader<u64>>(PhantomData), Unbound(PhantomData));
    assert_eq!(keys(map.range(&all).entries(Order::Ascend)).len(), 3);
    let prefix = Reader::<u64>::from_prefix(&[0, 0]).unwrap();
    assert_eq!(keys(map.prefix(prefix).entries(Order::Ascend)).len(), 3);
    let prefix = Reader::<u64>::from_prefix(&[0, 1]).unwrap();
    assert_eq!(keys(map.prefix(prefix).entries(Order::Ascend)).len(), 0);
    // No key begins with more bytes than it has.
    assert!(Reader::<u16>::from_prefix(&[0, 1]).is_some());
    assert!(Reader::<u16>::from_prefix(&[0, 1, 7]).is_none());
}

#[test]
fn entries_are_filled_in() {
    let mut map = SequentialMap::<u64, u64>::new();
    *map.entry(1).or_insert(5) += 1;
    *map.entry(1).or_insert(50) += 1;
    assert_eq!(map.get(&1), Some(&7));
    assert_eq!(*map.entry(2).or_insert_with(|| 8), 8);
    assert_eq!(*map.entry(3).or_default(), 0);
    assert_eq!(*map.entry(1).and_modify(|value| *value = 70).or_insert(0), 70);
    match map.entry(1) {
        Entry::Occupied(mut entry) => {
            assert_eq!(*entry.get(), 70);
            assert_eq!(entry.update(71), 70);
            *entry.get_mut() += 1;
            assert_eq!(*entry.into_mut(), 72);
        }
        Entry::Vacant(_) => panic!("the key exists"),
    }
    match map.entry(4) {
        Entry::Vacant(entry) => assert_eq!(*entry.insert_entry(40).get(), 40),
        Entry::Occupied(_) => panic!("the key is new"),
    }
    assert_eq!(entries(&map, Order::Ascend), vec![(1, 72), (2, 8), (3, 0), (4, 40)]);
}

#[test]
fn values_are_changed_in_place() {
    let mut map = SequentialMap::<u64, u64>::from_pairs(vec![(1, 1), (2, 2), (3, 3)]);
    let mut iter = map.all_mut().entries_mut(Order::Descend);
    let mut keys = Vec::new();
    while let Some((key, value)) = iter.next() {
        keys.push(key);
        *value *= 10;
    }
    assert_eq!(keys, vec![3, 2, 1]);
    assert_eq!(entries(&map, Order::Ascend), vec![(1, 10), (2, 20), (3, 30)]);
}

/// Keys of text come in lexicographic order, and a key may begin with another
/// one.
#[test]
fn text_keys_are_ordered() {
    let mut map = SequentialMap::<BoxedStr<NonNull>, usize>::new();
    let words = ["b", "a", "", "ab", "abc", "aa", "\u{e9}t\u{e9}", "z"];
    for (index, word) in words.iter().enumerate() {
        assert!(map.insert(Str::new(word).unwrap(), index).is_ok());
    }
    let mut sorted = words.to_vec();
    sorted.sort();
    let mut iter = map.all().entries(Order::Ascend);
    for word in &sorted {
        let (key, value) = iter.next().unwrap();
        assert_eq!(key.as_slice().as_str(), *word);
        assert_eq!(words[*value], *word);
        assert_eq!(&*key.clone().into_boxed_slice(), *word);
    }
    assert!(iter.next().is_none());

    let mut iter = map.prefix(Bytes::new_prefix(b"ab")).entries(Order::Ascend);
    assert_eq!(iter.next().unwrap().0.as_slice().as_str(), "ab");
    assert_eq!(iter.next().unwrap().0.as_slice().as_str(), "abc");
    assert!(iter.next().is_none());

    assert_eq!(map.remove(Str::new("a").unwrap()), Some(1));
    assert_eq!(map.get(Str::new("ab").unwrap()), Some(&3));
    assert_eq!(BoxedStr::<NonNull>::default().as_slice().as_str(), "");
    assert_eq!(BoxedSlice::<NonNull, [u8]>::default().as_slice().as_bytes(), b"");
}

#[test]
fn keys_are_validated() {
    assert!(matches!(Str::<NonNull>::new("a\0b"), Err(NullByte { index: 1 })));
    assert!(matches!(
        Slice::<Terminated<10>, [u8]>::new(b"ab"),
        Err(Misplaced::Missing)
    ));
    assert!(matches!(
        Slice::<Terminated<10>, [u8]>::new(b"a\nb\n"),
        Err(Misplaced::Early { index: 1 })
    ));
    assert!(Slice::<Terminated<10>, [u8]>::new(b"ab\n").is_ok());
    match BoxedSlice::<NonNull, [u8]>::new(vec![0u8].into_boxed_slice()) {
        Err((raw, NullByte { index: 0 })) => assert_eq!(&*raw, &[0]),
        _ => panic!("the key is not valid"),
    }
}

#[test]
fn small_helpers() {
    assert!(is_unique(&[1, 2, 255, 0]));
    assert!(!is_unique(&[1, 2, 1]));
    assert_eq!(find_zero(0x0101_0001_0101_0101), 5);
    assert_eq!(find_zero(0), 0);
    assert!(Smo::ReplaceNode.is_allocate());
    assert!(!Smo::DeleteNode.is_allocate());
    assert!(!Smo::CompressEdge.is_allocate());
}

fn value(metadata: u64) -> Edge<u64> {
    Edge { metadata, child: Child::Value(1) }
}

fn topology(root: Edge<u64>) -> Topology<u64> {
    Topology { version: VERSION, root: Some(root) }
}

fn node(kind: NodeKind, slot_count: u16, branches: Vec<(u8, u16, Edge<u64>)>) -> Edge<u64> {
    Edge {
        metadata: 0,
        child: Child::Node(Node {
            kind,
            slot_count,
            branches: branches
                .into_iter()
                .map(|(key, slot, edge)| Branch { key, slot, edge })
                .collect(),
        }),
    }
}

/// Each way in which a topology can be malformed.
#[test]
fn malformed_topologies_are_rejected() {
    let check = |topology: Topology<u64>| topology.validate::<u16>();
    // An edge with one byte.
    let one = 8u64;
    assert_eq!(check(Topology { version: VERSION, root: None }), Ok(()));
    assert_eq!(
        check(Topology { version: VERSION + 1, root: None }),
        Err(Error::UnsupportedVersion { found: VERSION + 1 })
    );
    assert_eq!(
        check(topology(value(one))),
        Err(Error::InvalidKeyLength { found: 1, expected: 2 })
    );
    let fine = || node(NodeKind::Node3, 1, vec![(1, 0, value(one))]);
    assert_eq!(check(topology(fine())), Ok(()));
    assert_eq!(
        check(topology(node(NodeKind::Node3, 0, vec![]))),
        Err(Error::EmptyNode)
    );
    assert_eq!(
        check(topology(node(NodeKind::Node3, 4, vec![(1, 0, value(one))]))),
        Err(Error::NodeCapacity { kind: NodeKind::Node3, found: 4 })
    );
    assert_eq!(
        check(topology(node(NodeKind::Node3, 1, vec![(1, 1, value(one))]))),
        Err(Error::InvalidSlot { kind: NodeKind::Node3, slot: 1 })
    );
    let pair = |a: (u8, u16), b: (u8, u16)| {
        node(NodeKind::Node3, 2, vec![(a.0, a.1, value(one)), (b.0, b.1, value(one))])
    };
    assert_eq!(check(topology(pair((1, 0), (2, 1)))), Ok(()));
    assert_eq!(
        check(topology(pair((1, 0), (1, 1)))),
        Err(Error::DuplicateKey { key: 1 })
    );
    assert_eq!(
        check(topology(pair((1, 0), (2, 0)))),
        Err(Error::InvalidSlot { kind: NodeKind::Node3, slot: 0 })
    );
    let four = (0..4).map(|i| (i as u8, i, value(one))).collect();
    assert_eq!(
        check(topology(node(NodeKind::Node3, 3, four))),
        Err(Error::NodeCapacity { kind: NodeKind::Node3, found: 4 })
    );
    assert_eq!(
        check(topology(node(NodeKind::Node256, 256, vec![(1, 2, value(one))]))),
        Err(Error::InvalidSlot { kind: NodeKind::Node256, slot: 2 })
    );
}

#[test]
fn visiting_values_keeps_the_tree() {
    let mut map = SequentialMap::<u64, u64>::from_pairs((0..300).map(|key| (key * 3, key)).collect());
    let before = map.export_topology(|_: &u64| 0u64).unwrap();
    let mut iter = map.all_mut().entries_mut(Order::Ascend);
    let mut count = 0;
    while let Some((_, value)) = iter.next() {
        *value += 1;
        count += 1;
    }
    assert_eq!(count, 300);
    assert_eq!(map.export_topology(|_: &u64| 0u64).unwrap(), before);
    assert_eq!(map.get(&897), Some(&300));
}

#[test]
fn pairs_are_stored_one_by_one() {
    let pairs: Vec<(u64, u64)> = (0..500).map(|key| (key * 7919 % 200, key)).collect();
    let mut one_by_one = SequentialMap::<u64, u64>::new();
    for (key, value) in &pairs {
        let _ = one_by_one.upsert(*key, *value);
    }
    let map = SequentialMap::<u64, u64>::from_pairs(pairs);
    assert_eq!(
        map.export_topology(|value: &u64| *value).unwrap(),
        one_by_one.export_topology(|value: &u64| *value).unwrap()
    );
}
