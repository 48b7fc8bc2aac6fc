//! Edge metadata that points into a borrowed key.
use vstd::prelude::*;
use crate::raw::edge::Meta;

verus! {

/// Most bytes that an edge holds.
pub const CAPACITY: usize = 8191;

/// Compressed edge that refers to bytes of a key, and to the zero byte that
/// may be appended to it.
#[derive(Copy, Clone, Debug)]
pub struct Slice<'a> {
    key: &'a [u8],
    start: usize,
    len: usize,
    /// Whether the appended zero byte follows.
    terminate: bool,
}

/// Calls [`Vec::leak`]. Claims that the elements are the same.
#[verifier::external_body]
fn leaked<'a>(bytes: Vec<u8>) -> (slice: &'a [u8])
    ensures
        slice@ == bytes@,
{
    bytes.leak()
}

impl<'a> Slice<'a> {
    /// The key that the edge refers to.
    pub closed spec fn key(self) -> Seq<u8> {
        self.key@
    }

    /// Position of the edge's first byte in the key.
    pub closed spec fn start(self) -> int {
        self.start as int
    }

    /// Whether the edge stands directly behind `front` in the key.
    pub open spec fn follows(self, front: Seq<u8>) -> bool {
        &&& front.len() <= self.start()
        &&& self.key().subrange(self.start() - front.len(), self.start()) == front
    }

    /// Whether the edge stands directly behind `front` and `byte`, where an
    /// empty edge at the end of the key stands behind the appended zero byte.
    pub open spec fn continues(self, front: Seq<u8>, byte: u8) -> bool {
        ||| self.follows(front.push(byte))
        ||| byte == 0 && self.bytes().len() == 0 && self.follows(front)
    }

    /// Refer to the `len` bytes of `key` from `start` on, followed by the
    /// appended zero byte if `terminate` is set.
    pub fn new(key: &'a [u8], start: usize, len: usize, terminate: bool) -> (meta: Self)
        requires
            start + len <= key@.len(),
            len + (if terminate {
                1int
            } else {
                0
            }) <= CAPACITY,
        ensures
            meta.valid(),
            meta.bytes() == (if terminate {
                key@.subrange(start as int, start + len).push(0)
            } else {
                key@.subrange(start as int, start + len)
            }),
            meta.key() == key@,
            meta.start() == start,
    {
        let _ = key.len();
        Slice { key, start, len, terminate }
    }

    /// Hold `bytes` in memory that is never freed.
    pub fn copied(bytes: Vec<u8>) -> (meta: Self)
        requires
            bytes@.len() <= CAPACITY,
        ensures
            meta.valid(),
            meta.bytes() == bytes@,
    {
        let key = leaked(bytes);
        let meta = Slice { key, start: 0, len: key.len(), terminate: false };
        assert(meta.bytes() =~= key@);
        meta
    }

    /// Whether the bytes of the edge are those of `key` that end at `end`.
    fn stands_before(&self, key: &[u8], end: usize) -> (stands: bool)
        requires
            self.valid(),
            self.bytes().len() <= end <= key@.len(),
        ensures
            stands == (self.bytes() == key@.subrange(end - self.bytes().len(), end as int)),
    {
        let len: usize = Meta::len(self);
        let mut i: usize = 0;
        while i < len
            invariant
                self.valid(),
                len == self.bytes().len(),
                i <= len <= end <= key@.len(),
                forall|j: int| 0 <= j < i ==> self.bytes()[j] == key@[end - len + j],
            decreases len - i,
        {
            if self.get(i) != key[end - len + i] {
                proof {
                    let range = key@.subrange(end - len, end as int);
                    assert(range[i as int] != self.bytes()[i as int]);
                }
                return false;
            }
            i += 1;
        }
        assert(self.bytes() =~= key@.subrange(end - len, end as int));
        true
    }

    /// Append the bytes of the edge.
    fn append_to(&self, bytes: &mut Vec<u8>)
        requires
            self.valid(),
        ensures
            final(bytes)@ == old(bytes)@ + self.bytes(),
    {
        let ghost before = bytes@;
        let len: usize = Meta::len(self);
        let mut i: usize = 0;
        assert(before + self.bytes().take(0) =~= before);
        while i < len
            invariant
                self.valid(),
                len == self.bytes().len(),
                i <= len,
                bytes@ == before + self.bytes().take(i as int),
            decreases len - i,
        {
            bytes.push(self.get(i));
            i += 1;
            assert(bytes@ =~= before + self.bytes().take(i as int));
        }
        assert(self.bytes().take(len as int) =~= self.bytes());
    }
}

impl<'a> Meta for Slice<'a> {
    closed spec fn valid(&self) -> bool {
        &&& self.start + self.len <= self.key@.len() <= usize::MAX
        &&& self.bytes().len() <= CAPACITY
    }

    closed spec fn bytes(&self) -> Seq<u8> {
        let own = self.key@.subrange(self.start as int, self.start + self.len);
        if self.terminate {
            own.push(0)
        } else {
            own
        }
    }

    open spec fn max() -> nat {
        8191
    }

    proof fn lemma_valid(&self) {
    }

    fn capacity() -> (capacity: usize) {
        CAPACITY
    }

    fn null() -> (meta: Self) {
        let meta = Slice { key: &[], start: 0, len: 0, terminate: false };
        assert(meta.bytes() =~= Seq::<u8>::empty());
        meta
    }

    fn len(&self) -> (len: usize) {
        if self.terminate {
            self.len + 1
        } else {
            self.len
        }
    }

    fn get(&self, index: usize) -> (byte: u8) {
        if index < self.len {
            self.key[self.start + index]
        } else {
            0
        }
    }

    /// An edge stands behind the radix byte and the parent's bytes in the key
    /// that it refers to, so that the joined edge refers to that key too.
    /// Edges of which that is not so are copied.
    fn try_compress(&self, byte: u8, child: &Self) -> (joined: Option<Self>)
        ensures
            joined matches Some(meta) ==> child.continues(self.bytes(), byte) ==> meta.key()
                == child.key(),
    {
        let len: usize = Meta::len(self);
        let more: usize = Meta::len(child);
        if len + 1 + more > CAPACITY {
            return None;
        }
        let key = child.key;
        let start: usize = child.start;
        let ghost expected = self.bytes().push(byte) + child.bytes();
        if len < start && key[start - 1] == byte && self.stands_before(key, start - 1) {
            let joined = Slice {
                key,
                start: start - 1 - len,
                len: len + 1 + child.len,
                terminate: child.terminate,
            };
            proof {
                let front = key@.subrange(start - 1 - len, start - 1);
                assert forall|i: int| 0 <= i < expected.len() implies joined.bytes()[i]
                    == expected[i] by {
                    if i < len {
                        assert(front[i] == key@[start - 1 - len + i]);
                    }
                }
                assert(joined.bytes() =~= expected);
            }
            return Some(joined);
        }
        if byte == 0 && more == 0 && len <= start && self.stands_before(key, start) {
            let joined = Slice { key, start: start - len, len, terminate: true };
            assert(joined.bytes() =~= expected);
            return Some(joined);
        }
        assert(!child.follows(self.bytes().push(byte))) by {
            let front = self.bytes().push(byte);
            if child.follows(front) {
                assert(front[len as int] == key@[start - 1]);
                assert(self.bytes() =~= front.take(len as int));
                assert(self.bytes() =~= key@.subrange(start - 1 - len, start - 1));
            }
        }
        let mut bytes: Vec<u8> = Vec::new();
        self.append_to(&mut bytes);
        bytes.push(byte);
        child.append_to(&mut bytes);
        assert(bytes@ =~= expected);
        Some(Slice::copied(bytes))
    }

    /// The parts refer to the key that the edge refers to, so that they can be
    /// joined again without a copy.
    fn try_expand(&self, index: usize) -> (parts: Option<(Self, u8, Self)>)
        ensures
            parts matches Some((parent, byte, child)) ==> {
                &&& parent.key() == self.key()
                &&& parent.start() == self.start()
                &&& child.key() == self.key()
                &&& child.continues(parent.bytes(), byte)
            },
    {
        if index >= Meta::len(self) {
            return None;
        }
        let parent = Slice { len: index, terminate: false, ..*self };
        let byte: u8 = self.get(index);
        let child = if index < self.len {
            Slice { start: self.start + index + 1, len: self.len - index - 1, ..*self }
        } else {
            Slice { start: self.start + self.len, len: 0, terminate: false, ..*self }
        };
        proof {
            assert(parent.bytes() =~= self.bytes().take(index as int));
            assert(child.bytes() =~= self.bytes().skip(index as int + 1));
            if index < self.len {
                assert(self.key().subrange(self.start(), child.start())
                    =~= parent.bytes().push(byte));
            } else {
                assert(self.key().subrange(self.start(), child.start()) =~= parent.bytes());
            }
        }
        Some((parent, byte, child))
    }
}

} // verus!
