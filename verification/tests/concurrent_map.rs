use arctic::concurrent::map::ConcurrentMap;
use arctic::concurrent::smr::epoch::Epoch;
use arctic::concurrent::smr::ps_reclaim::{PsReclaim, RECLAIM_BATCH};
use arctic::concurrent::smr::Smr;
use arctic::raw::iter::range::Include;
use arctic::raw::key::dynamic::boxed_slice::{BoxedSlice, BoxedStr};
use arctic::raw::key::dynamic::slice::{Slice, Str};
use arctic::raw::key::dynamic::{NonNull, Terminated};
use arctic::raw::key::unsigned::Reader;
use arctic::raw::key::{Key, Read};
use arctic::Order;
use std::sync::Arc;

type EpochMap<K, V> = ConcurrentMap<K, V, Epoch>;

/// A key that can be compared and borrowed.
trait Sample: Key {
    fn borrow<'k>(&'k self) -> Self::Borrowed<'k>;

    fn sorted(&self) -> Vec<u8>;
}

impl Sample for u16 {
    fn borrow<'k>(&'k self) -> &'k u16 {
        self
    }

    fn sorted(&self) -> Vec<u8> {
        self.to_be_bytes().to_vec()
    }
}

impl Sample for u64 {
    fn borrow<'k>(&'k self) -> &'k u64 {
        self
    }

    fn sorted(&self) -> Vec<u8> {
        self.to_be_bytes().to_vec()
    }
}

impl Sample for BoxedStr<NonNull> {
    fn borrow<'k>(&'k self) -> Slice<'k, NonNull, str> {
        self.as_slice()
    }

    fn sorted(&self) -> Vec<u8> {
        self.as_slice().as_str().as_bytes().to_vec()
    }
}

impl Sample for BoxedSlice<Terminated<0>, [u8]> {
    fn borrow<'k>(&'k self) -> Slice<'k, Terminated<0>, [u8]> {
        self.as_slice()
    }

    fn sorted(&self) -> Vec<u8> {
        self.as_slice().as_bytes().to_vec()
    }
}

fn insert_all<K: Sample>(iter: Vec<K>) -> EpochMap<K, u64> {
    let mut keys = iter
        .into_iter()
        .enumerate()
        .map(|(index, key)| (key, index as u64))
        .collect::<Vec<_>>();

    let mut map = EpochMap::<K, u64>::default();

    for (key, value) in &keys {
        map.upsert(key.as_insert(), *value);
        assert_eq!(map.get(key.borrow()).map(|value| *value.get()), Some(*value));
    }

    for (key, value) in &keys {
        assert_eq!(map.get(key.borrow()).map(|value| *value.get()), Some(*value));
    }

    let mut iter = map.as_sequential().all().entries(Order::Ascend);
    let mut count = 0;
    while iter.lend().is_some() {
        count += 1;
    }
    drop(iter);

    assert_eq!(count, keys.len());

    keys.sort_by(|(l, _), (r, _)| l.sorted().cmp(&r.sorted()));

    let sequential = map.as_sequential();
    let mut iter = sequential.all().entries(Order::Ascend);
    for (rk, rv) in &keys {
        let (lk, lv) = iter.next().unwrap();
        assert_eq!(lk.sorted(), rk.sorted());
        assert_eq!(*lv, *rv);
    }
    assert!(iter.next().is_none());

    let Some(((first, _), (last, _))) = keys.first().zip(keys.last()) else {
        return map;
    };

    let prefix = K::read(first.borrow()).common_prefix(K::read(last.borrow()));
    let mut iter = map.prefix(prefix).entries(Order::Descend);
    for (rk, rv) in keys.iter().rev() {
        let (lk, lv) = iter.next().unwrap();
        assert_eq!(lk.sorted(), rk.sorted());
        assert_eq!(*lv, *rv);
    }
    assert!(iter.next().is_none());

    let mut i = 0;
    let bounds = (Include(K::read(first.borrow())), Include(K::read(last.borrow())));
    let mut iter = map.range(&bounds).entries(Order::Descend);
    for (rk, rv) in keys.iter().rev() {
        let (lk, lv) = iter.next().unwrap();
        i += 1;
        assert_eq!(lk.sorted(), rk.sorted());
        assert_eq!(*lv, *rv);
    }
    assert!(iter.next().is_none());
    assert_eq!(i, keys.len());

    map
}

fn range(map: &EpochMap<u64, u64>, lower: u64, upper: u64, order: Order) -> Vec<(u64, u64)> {
    let bounds = (Include(Reader::new(lower)), Include(Reader::new(upper)));
    let mut iter = map.range(&bounds).entries(order);
    let mut entries = Vec::new();
    while let Some((key, value)) = iter.next() {
        entries.push((key, *value));
    }
    entries
}

/// The value type must not cost `Send` or `Sync`.
#[test]
fn map_remains_send_and_sync() {
    fn assert_send_sync<T: Send + Sync>() {}

    assert_send_sync::<EpochMap<u64, u64>>();
    assert_send_sync::<EpochMap<u64, Box<u64>>>();
    assert_send_sync::<EpochMap<u64, Arc<u64>>>();
}

#[test]
fn smoke() {
    let mut map = EpochMap::<BoxedStr<NonNull>, u64>::default();
    map.upsert(Slice::new_unchecked("abcd"), 1u64);
    assert_eq!(map.get(Slice::new_unchecked("abcd")).map(|value| *value.get()), Some(1));
}

#[test]
fn smoke_u64_key() {
    let mut map = EpochMap::<[u8; 8], u64>::default();
    let key = 0xdeadbeefu64.to_be_bytes();
    map.upsert(&key, 1u64);
    assert_eq!(map.get(&key).map(|value| *value.get()), Some(1));
}

#[test]
fn smoke_value_ref() {
    let values: [u64; 6] = [0, 1, 2, 3, 4, 5];
    let mut map = EpochMap::<u64, &u64>::default();

    for (key, value) in values.iter().enumerate() {
        map.upsert(key as u64, value);
    }

    for key in 0..values.len() {
        let value: &u64 = map.get(&(key as u64)).map(|value| *value.get()).unwrap();
        assert!(core::ptr::eq(value, &values[key]));
    }
}

#[test]
fn scan_value() {
    let mut map = EpochMap::<u64, u64>::default();
    let key = 1u64;
    map.upsert(key, 2u64);
    assert_eq!(range(&map, 1u64, 1u64, Order::Ascend), vec![(1, 2)]);
}

#[test]
fn scan_node3() {
    insert_all((0u64..3).collect());
}

#[test]
fn scan_node256() {
    insert_all((0u64..256).collect());
}

#[test]
fn scan_gap() {
    let map = insert_all((0u64..512).step_by(2).collect());
    assert_eq!(
        range(&map, 256u64, 511u64, Order::Ascend),
        (256..512).step_by(2).map(|key| (key, key / 2)).collect::<Vec<_>>()
    );
}

#[test]
fn node3_overwrite() {
    let mut map = EpochMap::<u64, u64>::default();

    for value in [1u64, 2, 3] {
        map.upsert(1, value);
        assert_eq!(map.get(&1).map(|value| *value.get()), Some(value));
    }

    let sequential = map.as_sequential();
    let mut iter = sequential.all().entries(Order::Ascend);
    let mut count = 0;
    while let Some((key, value)) = iter.next() {
        assert_eq!(key, 1);
        assert_eq!(*value, 3);
        count += 1;
    }
    assert_eq!(count, 1);
}

#[test]
fn node3_reverse() {
    insert_all((0u16..3).rev().collect());
}

#[test]
fn node3_full() {
    insert_all((0u16..3).collect());
}

#[test]
fn node3_expand() {
    insert_all((0u16..4).collect());
}

#[test]
fn node15_full() {
    insert_all((0u16..15).collect());
}

#[test]
fn node15_expand() {
    insert_all((0u16..16).collect());
}

#[test]
fn node47_full() {
    insert_all((0u16..47).collect());
}

#[test]
fn node47_expand() {
    insert_all((0u16..61).collect());
}

#[test]
fn node256_full() {
    insert_all((0u16..=255).collect());
}

#[test]
fn range_reverse() {
    let mut map = EpochMap::<u64, u64>::default();

    for key in [5, 1, 4, 3, 2] {
        map.upsert(key, key);
        assert_eq!(map.get(&key).map(|value| *value.get()), Some(key));
    }

    assert_eq!(range(&map, 2, 4, Order::Descend), vec![(4, 4), (3, 3), (2, 2)]);
}

#[test]
fn split_edges() {
    let mut key = (1..100).collect::<Vec<u8>>();
    let mut keys = Vec::new();
    while !key.is_empty() {
        let mut next = key.clone();
        next.push(0);
        key.pop();
        let next = next.into_boxed_slice();
        match BoxedSlice::<Terminated<0>, [u8]>::new(next) {
            Ok(next) => keys.push(next),
            Err(_) => panic!("misplaced terminator"),
        }
    }
    assert_eq!(keys.len(), 99);
    insert_all(keys);
}

fn text(text: &str) -> BoxedStr<NonNull> {
    match BoxedStr::<NonNull>::new(text.to_string().into_boxed_str()) {
        Ok(text) => text,
        Err(_) => panic!("null byte"),
    }
}

#[test]
fn one_long_key() {
    insert_all(vec![text(&"a".repeat(1000))]);
}

#[test]
fn short_key() {
    insert_all(vec![text("\n")]);
}

#[test]
fn two_long_keys() {
    insert_all(vec![text(&"a".repeat(1000)), text(&"b".repeat(1000))]);
}

#[test]
fn smoke_key_slice() {
    let keys = ["ad", "abc"];
    let mut map = EpochMap::<Str<NonNull>, u64>::new();
    assert!(map.insert(Str::new(keys[0]).unwrap(), 0).is_ok());
    assert!(map.insert(Str::new(keys[1]).unwrap(), 1).is_ok());

    let temp = "adabc";
    assert_eq!(map.get(Str::new(&temp[..2]).unwrap()).map(|value| *value.get()), Some(0));
    assert_eq!(map.get(Str::new(&temp[2..]).unwrap()).map(|value| *value.get()), Some(1));
}

#[test]
fn key_slice_long_prefix() {
    let keys = (0..10).map(|i| "a".repeat(100) + &i.to_string()).collect::<Vec<_>>();
    let mut map = EpochMap::<Slice<NonNull, [u8]>, u64>::new();
    for (i, key) in keys.iter().enumerate() {
        assert!(map.insert(Slice::new(key.as_bytes()).unwrap(), i as u64).is_ok());
    }
    for (i, key) in keys.iter().enumerate() {
        assert_eq!(
            map.get(Slice::new(key.as_bytes()).unwrap()).map(|value| *value.get()),
            Some(i as u64)
        );
    }
}

#[test]
fn removed_values_are_reclaimed_without_a_quiescent_map() {
    let mut map = ConcurrentMap::<u64, Box<u64>, PsReclaim>::new();
    for key in 0..RECLAIM_BATCH as u64 * 2 {
        assert!(map.insert(key, Box::new(key)).is_ok());
        let removed = map.remove(&key).unwrap();
        assert_eq!(**removed.get(), key);
        removed.retire();
    }

    for key in 0..8 {
        assert!(map.get(&key).is_none());
    }

    assert!(map.smr().garbage() < RECLAIM_BATCH as u32);
}

#[test]
fn boxed_slices_are_given_back() {
    let bytes: Box<[u8]> = vec![3, 1, 2, 0].into_boxed_slice();
    match BoxedSlice::<Terminated<0>, [u8]>::new(bytes.clone()) {
        Ok(slice) => assert_eq!(slice.into_boxed_slice(), bytes),
        Err(_) => panic!("the terminator is in place"),
    }
    let bytes: Box<[u8]> = vec![3, 0, 2].into_boxed_slice();
    match BoxedSlice::<Terminated<0>, [u8]>::new(bytes.clone()) {
        Ok(_) => panic!("misplaced terminator"),
        Err((raw, _)) => assert_eq!(raw, bytes),
    }
    assert_eq!(&*text("arctic").into_boxed_slice(), "arctic");
}
