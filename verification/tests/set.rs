use arctic::raw::set::ByteSet;

#[test]
fn smoke_set_8() {
    let mut set = ByteSet::default();

    for i in 0..8 {
        assert!(set.insert_mut(i));
    }

    for i in 0..8 {
        assert!(set.contains(i));
    }
}

#[test]
fn smoke_set_256() {
    let mut set = ByteSet::default();

    for i in 0..=255 {
        assert!(set.insert_mut(i));
    }

    for i in 0..=255 {
        assert!(set.contains(i));
    }
}

/// A byte is reported as new once, before and after the set grows.
#[test]
fn bytes_are_added_once() {
    let mut set = ByteSet::default();
    for i in [3, 200, 3, 7] {
        let expected = !set.contains(i);
        assert_eq!(set.insert_mut(i), expected);
    }
    for i in 0..32 {
        set.insert_mut(i);
    }
    assert!(!set.insert_mut(200));
    assert!(!set.insert_mut(31));
    assert!(!set.contains(32));
    assert!(!set.contains(0xff));
}
