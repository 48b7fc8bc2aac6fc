use arctic::concurrent::map::ConcurrentMap;
use arctic::concurrent::smr::epoch::Epoch;
use arctic::raw::iter::range::Include;
use arctic::raw::key::dynamic::boxed_slice::BoxedStr;
use arctic::raw::key::dynamic::slice::Str;
use arctic::raw::key::dynamic::NonNull;
use arctic::raw::key::unsigned::Reader;
use arctic::topology;
use arctic::{Order, SequentialMap};

fn turso_row_id(row_id: i64) -> u128 {
    const SIGN: u64 = 1u64.rotate_right(1);

    let table_id = (-1i64) as u64 ^ SIGN;
    ((table_id as u128) << 64) | (((row_id as u64) ^ SIGN) as u128)
}

#[test]
fn turso_range_24230c111c599daff93a7abc11c5c72b33d0ebfd() {
    let mut map = SequentialMap::<u128, u64>::default();
    let entries = (0..10u64)
        .map(|index| (turso_row_id(index as i64), index))
        .collect::<Vec<_>>();

    for (row_id, index) in &entries {
        assert!(map.upsert(*row_id, *index).is_err());
    }

    for (row_id, index) in &entries {
        assert_eq!(map.get(row_id), Some(index));
    }

    let bounds = (
        Include(Reader::new(turso_row_id(5))),
        Include(Reader::new(turso_row_id(i64::MAX))),
    );
    let mut iter = map.range(&bounds).values(Order::Ascend);
    let mut values = Vec::new();
    while let Some(value) = iter.next() {
        values.push(*value);
    }
    assert_eq!(values, (5..10).collect::<Vec<u64>>());
}

#[test]
fn insert_duplicate_82007770fb876db856313cebf12be21b9182f16a() {
    let mut map = ConcurrentMap::<u64, u64, Epoch>::default();
    assert!(map.insert(0u64, 0u64).is_ok());
    assert!(map.insert(0u64, 1u64).is_err());
}

#[test]
fn range_common_prefix_72c2fceda258b00fc2e9d4a805b28e9ad8e8107d() {
    let mut map = ConcurrentMap::<u64, u64, Epoch>::new();
    const NEEDLE: u64 = 0xE642_3BB1_ADBB_F000;
    const LOWER: u64 = 0x39_9100;
    const UPPER: u64 = 0xFF29_D24D_7E9A_920D;
    assert!(map.insert(NEEDLE, 0).is_ok());
    let bounds = (Include(Reader::new(LOWER)), Include(Reader::new(UPPER)));
    let mut iter = map.range(&bounds).entries(Order::Ascend);
    let mut count = 0;
    while let Some((key, value)) = iter.next() {
        assert_eq!(key, NEEDLE);
        assert_eq!(*value, 0);
        count += 1;
    }
    assert_eq!(count, 1);
}

fn count(map: &SequentialMap<u64, u64>, lower: u64, upper: u64, order: Order) -> usize {
    let bounds = (Include(Reader::new(lower)), Include(Reader::new(upper)));
    let mut iter = map.range(&bounds).entries(order);
    let mut count = 0;
    while iter.next().is_some() {
        count += 1;
    }
    count
}

/// An inverted range yields nothing below a large node.
#[test]
fn node256_empty() {
    let mut map = SequentialMap::<u64, u64>::new();
    for i in 0..200u64 {
        let _ = map.upsert((i << 56) | 0xAA, i);
    }

    let lower = (150u64 << 56) | 0xAA;
    let upper = (10u64 << 56) | 0xAA;
    assert_eq!(count(&map, lower, upper, Order::Ascend), 0);
    assert_eq!(count(&map, lower, upper, Order::Descend), 0);
}

/// An inverted range yields nothing below a small node.
#[test]
fn node15_empty() {
    let mut map = SequentialMap::<u64, u64>::new();
    for i in 0..10u64 {
        let _ = map.upsert((i << 56) | 0xAA, i);
    }

    let lower = (8u64 << 56) | 0xAA;
    let upper = (1u64 << 56) | 0xAA;
    assert_eq!(count(&map, lower, upper, Order::Ascend), 0);
    assert_eq!(count(&map, lower, upper, Order::Descend), 0);
}

/// Bounds that share a long prefix and only invert at a deeper byte.
#[test]
fn deep_divergence_empty() {
    let mut map = ConcurrentMap::<u64, u64, Epoch>::default();
    for i in 0..10u64 {
        assert!(map.insert(0x0101_0101_0101_0100 | i, i).is_ok());
    }

    let bounds = (
        Include(Reader::new(0x0101_0101_0101_0108u64)),
        Include(Reader::new(0x0101_0101_0101_0101u64)),
    );
    let shard = map.range(&bounds);
    assert!(shard.entries(Order::Ascend).next().is_none());
    assert!(shard.entries(Order::Descend).next().is_none());
}

/// A range from a key to itself yields exactly the single matching entry.
#[test]
fn single_key_range() {
    let mut map = SequentialMap::<u64, u64>::new();
    for i in 0..10u64 {
        let _ = map.upsert((i << 56) | 0xAA, i);
    }

    let key = (5u64 << 56) | 0xAA;
    let bounds = (Include(Reader::new(key)), Include(Reader::new(key)));
    let mut iter = map.range(&bounds).entries(Order::Ascend);
    assert_eq!(iter.next(), Some((key, &5)));
    assert_eq!(iter.next(), None);
}

/// Inverted string ranges, including the case where the upper bound is a
/// proper prefix of the lower bound.
#[test]
fn boxed_str_empty() {
    let mut map = SequentialMap::<BoxedStr<NonNull>, u64>::new();
    for key in ["a", "ab", "b", "ba"] {
        let _ = map.upsert(Str::new(key).expect("No null byte"), 0);
    }

    let b = Str::<NonNull>::new("b").expect("No null byte");
    let a = Str::<NonNull>::new("a").expect("No null byte");
    let ab = Str::<NonNull>::new("ab").expect("No null byte");

    let count = |lower: Str<NonNull>, upper: Str<NonNull>| {
        let bounds = (Include(lower.read()), Include(upper.read()));
        let mut iter = map.range(&bounds).entries(Order::Ascend);
        let mut count = 0;
        while iter.next().is_some() {
            count += 1;
        }
        count
    };

    assert_eq!(count(b, a), 0);
    assert_eq!(count(ab, a), 0);

    // Non-inverted ranges over the same bounds still work.
    assert_eq!(count(a, b), 3);
    assert_eq!(count(a, ab), 2);
    assert_eq!(count(a, a), 1);
}

/// A removal that is not recursive leaves the nodes that it empties in place.
#[test]
fn sequential_remove_non_recursive_keeps_empty_nodes() {
    // The keys diverge at the first byte, and each branch has a node with a
    // single child.
    const A: u128 = 0x0101_0101_0101_0101_0101_0101_0101_0101;
    const B: u128 = 0x0202_0202_0202_0202_0202_0202_0202_0202;

    let build = || {
        let mut map = SequentialMap::<u128, u64>::new();
        assert!(map.insert(A, 1).is_ok());
        assert!(map.insert(B, 2).is_ok());
        map
    };

    // The recursive removal collapses the emptied node.
    let mut recursive = build();
    assert_eq!(recursive.remove(&B), Some(2));
    assert!(recursive.export_topology(|value: &u64| *value).is_ok());

    // The other one leaves it in place, which the export detects.
    let mut non_recursive = build();
    assert_eq!(non_recursive.remove_non_recursive(&B), Some(2));
    assert_eq!(
        non_recursive.export_topology(|value: &u64| *value),
        Err(topology::Error::EmptyNode),
    );

    // The map still behaves correctly around the leftover node.
    assert_eq!(non_recursive.get(&A), Some(&1));
    assert_eq!(non_recursive.get(&B), None);
    assert!(non_recursive.insert(B, 3).is_ok());
    assert_eq!(non_recursive.get(&B), Some(&3));
}
