use arctic::concurrent::map::ConcurrentMap;
use arctic::concurrent::smr::epoch::Epoch;
use arctic::topology::{validate_le_metadata, Branch, Child, Edge, Error, Node, NodeKind, Topology, VERSION};
use arctic::SequentialMap;

fn contains_kind<V>(edge: &Edge<V>, expected: NodeKind) -> bool {
    match &edge.child {
        Child::Value(_) => false,
        Child::Node(node) => {
            node.kind == expected
                || node
                    .branches
                    .iter()
                    .any(|branch| contains_kind(&branch.edge, expected))
        }
    }
}

fn assert_round_trip_for_keys(keys: Vec<u64>, expected: NodeKind) {
    let mut map = SequentialMap::<u64, u64>::new();
    for key in keys {
        assert!(map.insert(key, key.rotate_left(17)).is_ok());
    }

    let before = map.export_topology(|value: &u64| *value).unwrap();
    assert!(contains_kind(before.root.as_ref().unwrap(), expected));
    let restored =
        SequentialMap::<u64, u64>::from_topology(before.clone(), |value: u64| value).unwrap();
    let after = restored.export_topology(|value: &u64| *value).unwrap();
    assert_eq!(after, before);
}

#[test]
fn sequential_round_trip_preserves_topology_and_values() {
    let mut map = SequentialMap::<u64, Box<u64>>::new();
    for key in (0..4_096).map(|key| key * 17) {
        assert!(map.insert(key, Box::new(key ^ 0xA5A5)).is_ok());
    }
    for key in (0..4_096).step_by(7).map(|key| key * 17) {
        assert!(map.remove(&key).is_some());
    }

    let before = map.export_topology(|value: &Box<u64>| **value).unwrap();
    let restored =
        SequentialMap::<u64, Box<u64>>::from_topology(before.clone(), |value: u64| Box::new(value))
            .unwrap();
    let after = restored.export_topology(|value: &Box<u64>| **value).unwrap();

    assert_eq!(after, before);
    for key in (0..4_096u64).map(|key| key * 17) {
        let expected = (key / 17 % 7 != 0).then_some(key ^ 0xA5A5);
        assert_eq!(restored.get(&key).map(|value| **value), expected);
    }
}

#[test]
fn concurrent_round_trip_requires_exclusive_snapshot() {
    let mut map = ConcurrentMap::<u64, Box<u64>, Epoch>::default();
    for key in 0..1_024 {
        assert!(map.insert(key, Box::new(key + 1)).is_ok());
    }

    let topology = map.export_topology(|value: &Box<u64>| **value).unwrap();
    let restored = ConcurrentMap::<u64, Box<u64>, Epoch>::from_topology(topology, |value: u64| {
        Box::new(value)
    })
    .unwrap();

    for key in 0..1_024 {
        assert_eq!(restored.get(&key).map(|value| **value.get()), Some(key + 1));
    }
}

#[test]
fn rejects_transient_metadata_flags() {
    let topology = Topology::<u64> {
        version: VERSION,
        root: Some(Edge {
            metadata: 1,
            child: Child::Value(42),
        }),
    };
    assert_eq!(
        topology.validate::<u64>(),
        Err(Error::InvalidMetadata { metadata: 1 }),
    );
}

#[test]
fn preserves_every_adaptive_node_kind() {
    assert_round_trip_for_keys((0..2).collect(), NodeKind::Node3);
    assert_round_trip_for_keys((0..10).collect(), NodeKind::Node15);
    assert_round_trip_for_keys((0..32).collect(), NodeKind::Node47);
    assert_round_trip_for_keys((0..256).collect(), NodeKind::Node256);
}

/// Reverse the branches of each node.
fn reverse(edge: &mut Edge<u64>) {
    if let Child::Node(node) = &mut edge.child {
        node.branches.reverse();
        for branch in &mut node.branches {
            reverse(&mut branch.edge);
        }
    }
}

#[test]
fn branches_in_any_order_are_exported_in_slot_order() {
    let mut map = SequentialMap::<u64, u64>::new();
    for key in 0..600 {
        assert!(map.insert(key * 5, key).is_ok());
    }
    for key in (0..600).step_by(3) {
        assert_eq!(map.remove(&(key * 5)), Some(key));
    }
    let sorted = map.export_topology(|value: &u64| *value).unwrap();
    let mut reversed = sorted.clone();
    reverse(reversed.root.as_mut().unwrap());
    assert_ne!(reversed, sorted);
    assert_eq!(reversed.validate::<u64>(), Ok(()));
    let restored =
        SequentialMap::<u64, u64>::from_topology(reversed, |value: u64| value).unwrap();
    assert_eq!(restored.export_topology(|value: &u64| *value).unwrap(), sorted);
}

#[test]
fn copies_are_equal() {
    let mut map = SequentialMap::<u32, u64>::new();
    for key in 0..300 {
        assert!(map.insert(key * 1000, u64::from(key)).is_ok());
    }
    let topology = map.export_topology(|value: &u64| *value).unwrap();
    assert_eq!(topology.clone(), topology);
    let edge: &Edge<u64> = topology.root.as_ref().unwrap();
    assert_eq!(edge.child.clone(), edge.child);
    let node: &Node<u64> = match &edge.child {
        Child::Node(node) => node,
        Child::Value(_) => panic!("the tree has more than one key"),
    };
    assert_eq!(node.clone(), *node);
    let branch: &Branch<u64> = &node.branches[0];
    assert_eq!(branch.clone(), *branch);
}

/// Keys and values of a topology.
fn entries(edge: &Edge<u64>, path: &[u8], found: &mut Vec<(u64, u64)>) {
    // The low byte of the metadata has the length in bits, and the bytes begin
    // at the other end.
    let mut path = path.to_vec();
    let len = (edge.metadata & 0x38) as usize / 8;
    path.extend_from_slice(&edge.metadata.to_be_bytes()[..len]);
    match &edge.child {
        Child::Value(value) => {
            let bytes: [u8; 8] = path.try_into().unwrap();
            found.push((u64::from_be_bytes(bytes), *value));
        }
        Child::Node(node) => {
            for branch in &node.branches {
                let mut path = path.clone();
                path.push(branch.key);
                entries(&branch.edge, &path, found);
            }
        }
    }
}

#[test]
fn topologies_hold_the_keys_of_a_map() {
    let mut map = SequentialMap::<u64, u64>::new();
    let mut expected = Vec::new();
    for key in 0..1000u64 {
        let key = key.wrapping_mul(0x9E37_79B9_7F4A_7C15);
        assert!(map.insert(key, !key).is_ok());
        expected.push((key, !key));
    }
    expected.sort_unstable();
    let topology = map.export_topology(|value: &u64| *value).unwrap();
    assert_eq!(topology.version, VERSION);
    let mut found = Vec::new();
    entries(topology.root.as_ref().unwrap(), &[], &mut found);
    found.sort_unstable();
    assert_eq!(found, expected);
}

#[test]
fn little_endian_metadata_is_validated() {
    assert_eq!(validate_le_metadata(0), Ok(0));
    assert_eq!(validate_le_metadata(0x1000_0000_0000_2211), Ok(2));
    assert_eq!(validate_le_metadata(0x3877_6655_4433_2211), Ok(7));
    // A byte beyond the prefix, and each of the flags.
    for metadata in [
        0x1000_0000_0033_2211,
        0x1100_0000_0000_2211,
        0x1200_0000_0000_2211,
        0x1400_0000_0000_2211,
        0x4000_0000_0000_0000,
    ] {
        assert_eq!(validate_le_metadata(metadata), Err(Error::InvalidMetadata { metadata }));
    }
}
