use arctic::raw::edge::be::Be;
use arctic::raw::key::unsigned::Reader;
use arctic::raw::key::{Read, Split};

/// A reader never reports a match that is longer than itself.
#[test]
fn match_prefix_clamps_to_len() {
    let key = 0x1122_3344_5566_7788u64;

    for trim in 0..8usize {
        let reader = Reader::new(key).prefix(trim);

        for edge_bytes in 0..=7usize {
            let edge = Be::new(key, edge_bytes);
            let matched = reader.match_prefix(&edge);
            assert!(matched <= reader.len());
            assert_eq!(matched, trim.min(edge_bytes));
        }
    }
}

/// Same property for readers that were split from their last byte.
#[test]
fn match_prefix_clamps_split_reader() {
    let key = 0xAABB_CCDD_EEFF_0011u64;
    let (reader, last) = <u64 as Split>::split_last(&key);
    assert_eq!(last, 0x11);

    let edge = Be::new(key, 56 / 8);
    assert!(reader.match_prefix(&edge) <= reader.len());
}
