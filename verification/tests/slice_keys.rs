use arctic::raw::edge::slice::{Slice as SliceEdge, CAPACITY};
use arctic::raw::edge::Meta;
use arctic::raw::key::dynamic::slice::{Slice, SliceReader, Str};
use arctic::raw::key::dynamic::NonNull;
use arctic::raw::key::{Key, Read};
use arctic::{Order, SequentialMap};

fn bytes(edge: &SliceEdge) -> Vec<u8> {
    (0..edge.len()).map(|index| edge.get(index)).collect()
}

/// An edge is split around each of its bytes and joined again, the appended
/// zero byte included.
#[test]
fn slice_edges_split_and_join() {
    let key = b"abcdef";
    let edge = SliceEdge::new(key, 2, 4, true);
    assert_eq!(bytes(&edge), b"cdef\0");
    for index in 0..5 {
        let (parent, byte, child) = edge.try_expand(index).unwrap();
        assert_eq!(bytes(&parent), &b"cdef\0"[..index]);
        assert_eq!(byte, b"cdef\0"[index]);
        assert_eq!(bytes(&child), &b"cdef\0"[index + 1..]);
        assert_eq!(bytes(&parent.try_compress(byte, &child).unwrap()), b"cdef\0");
    }
    assert!(edge.try_expand(5).is_none());
    assert_eq!(SliceEdge::null().len(), 0);
    assert_eq!(SliceEdge::capacity(), 8191);
}

/// Edges of different keys are joined too, as long as the result is not too
/// long.
#[test]
fn slice_edges_of_other_keys_join() {
    let parent = SliceEdge::new(b"abc", 0, 3, false);
    let child = SliceEdge::new(b"xyz", 1, 2, true);
    assert_eq!(bytes(&parent.try_compress(b'-', &child).unwrap()), b"abc-yz\0");
    assert_eq!(bytes(&SliceEdge::copied(b"abc".to_vec())), b"abc");

    let long = vec![b'a'; CAPACITY];
    let front = SliceEdge::new(&long, 0, CAPACITY - 2, false);
    let back = SliceEdge::new(&long, CAPACITY - 1, 1, false);
    let joined = front.try_compress(b'a', &back).unwrap();
    assert_eq!(bytes(&joined), long);
    assert!(joined.try_compress(b'a', &SliceEdge::null()).is_none());
    let terminated = SliceEdge::new(&long, CAPACITY - 1, 1, true);
    assert!(front.try_compress(b'a', &terminated).is_none());
}

/// A reader compresses the bytes that are left, up to the appended zero byte.
#[test]
fn slice_readers_make_edges() {
    let key = Str::<NonNull>::new("abcdefghij").unwrap();
    let stored = <Str<NonNull> as Key>::insert_as_read(&key);
    let borrowed = <Str<NonNull> as Key>::read(key);
    for reader in [stored, borrowed] {
        assert_eq!(reader.len(), 11);
        assert_eq!(bytes(&reader.get_edge(11)), b"abcdefghij\0");
        assert_eq!(bytes(&reader.suffix(8).get_edge(2)), b"ij");
        assert_eq!(bytes(&reader.suffix(8).get_edge(3)), b"ij\0");
        assert_eq!(bytes(&reader.suffix(11).get_edge(0)), b"");
        assert_eq!(bytes(&reader.prefix(9).suffix(1).get_edge(8)), b"bcdefghi");
        assert_eq!(reader.into_prefix().len(), 10);
        assert_eq!(reader.match_prefix(&SliceEdge::new(b"abxdef", 0, 6, false)), 2);
        assert_eq!(reader.match_prefix(&reader.get_edge(11)), 11);
        let other = SliceReader::new_prefix(b"abcde");
        assert_eq!(reader.common_prefix(other).len(), 5);
    }
    assert_eq!(<SliceReader as Read>::empty().get_byte(0), None);
}

/// Keys that share long runs of bytes are found by copies of them, and
/// removal leaves the others in place.
#[test]
fn long_borrowed_keys() {
    let keys = [
        "a".repeat(9000),
        "a".repeat(9000) + "b",
        "a".repeat(20000),
        "a".repeat(100) + "c",
        "d".to_string(),
        String::new(),
    ];
    let mut map = SequentialMap::<Slice<NonNull, [u8]>, usize>::new();
    for (index, key) in keys.iter().enumerate() {
        assert!(map.insert(Slice::new(key.as_bytes()).unwrap(), index).is_ok());
    }
    for (index, key) in keys.iter().enumerate() {
        let copy = key.clone();
        assert_eq!(map.get(Slice::new(copy.as_bytes()).unwrap()), Some(&index));
    }
    assert_eq!(map.get(Slice::new("a".repeat(9001).as_bytes()).unwrap()), None);

    let mut sorted: Vec<usize> = (0..keys.len()).collect();
    sorted.sort_by_key(|&index| &keys[index]);
    let mut found = Vec::new();
    let mut iter = map.all().entries(Order::Ascend);
    while let Some((key, value)) = iter.next() {
        assert_eq!(key.as_bytes(), keys[*value].as_bytes());
        found.push(*value);
    }
    assert_eq!(found, sorted);

    let prefix = "a".repeat(8999);
    let mut iter = map.prefix(SliceReader::new_prefix(prefix.as_bytes())).entries(Order::Descend);
    let mut found = Vec::new();
    while let Some((_, value)) = iter.next() {
        found.push(*value);
    }
    assert_eq!(found, vec![1, 2, 0]);

    for (index, key) in keys.iter().enumerate() {
        let copy = key.clone();
        assert_eq!(map.remove(Slice::new(copy.as_bytes()).unwrap()), Some(index));
        for (other, key) in keys.iter().enumerate() {
            let value = if other > index { Some(other) } else { None };
            assert_eq!(map.get(Slice::new(key.as_bytes()).unwrap()).copied(), value);
        }
    }
}
