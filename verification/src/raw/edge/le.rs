//! Edge metadata that holds up to seven key bytes, first byte first.
use vstd::prelude::*;
use crate::raw::edge::Meta;

verus! {

/// Most bytes that an edge holds.
pub const CAPACITY: usize = 7;

/// Bits of the prefix length in a metadata word.
pub const LENGTH: u64 = 0x3800_0000_0000_0000;

/// Bits of transient flags in a metadata word, which are never set at rest.
pub const FLAGS: u64 = 0x0700_0000_0000_0000;

/// Number of key bytes in a metadata word whose bytes stand at the least
/// significant end.
pub open spec fn le_word_len(raw: u64) -> int {
    ((raw & LENGTH) >> 56u64) as int / 8
}

/// Mask of the `len` least significant bytes.
pub open spec fn le_prefix_mask(len: int) -> u64 {
    if len <= 0 {
        0
    } else {
        0xffff_ffff_ffff_ffffu64 >> ((64 - 8 * len) as u64)
    }
}

/// Canonical metadata words: no flags, and no bits beyond the prefix.
pub open spec fn le_word_valid(raw: u64) -> bool {
    raw & FLAGS == 0 && raw & !(le_prefix_mask(le_word_len(raw)) | LENGTH) == 0
}

/// Compressed edge of at most seven bytes.
#[derive(Copy, Clone, Debug)]
pub struct Le {
    bytes: [u8; 7],
    len: u8,
}

impl Le {
    /// Compress the bytes of `source` from `start` on, followed by a zero
    /// byte for each one that `source` lacks.
    pub fn from_slice(source: &[u8], start: usize, len: usize) -> (meta: Le)
        requires
            len <= CAPACITY,
            start <= source@.len(),
        ensures
            meta.valid(),
            meta.bytes().len() == len,
            forall|i: int|
                0 <= i < len ==> #[trigger] meta.bytes()[i] == (if start + i < source@.len() {
                    source@[start + i]
                } else {
                    0
                }),
    {
        let mut bytes: [u8; 7] = [0; 7];
        let mut i: usize = 0;
        while i < len && i < source.len() - start
            invariant
                len <= 7,
                i <= len,
                start <= source@.len(),
                start + i <= source@.len(),
                forall|j: int| 0 <= j < i ==> bytes@[j] == source@[start + j],
                forall|j: int| i <= j < 7 ==> bytes@[j] == 0,
            decreases len - i,
        {
            bytes[i] = source[start + i];
            i += 1;
        }
        Le { bytes, len: len as u8 }
    }
}

impl Meta for Le {
    closed spec fn valid(&self) -> bool {
        self.len <= 7
    }

    closed spec fn bytes(&self) -> Seq<u8> {
        Seq::new(self.len as nat, |i: int| self.bytes@[i])
    }

    open spec fn max() -> nat {
        7
    }

    proof fn lemma_valid(&self) {
    }

    fn capacity() -> (capacity: usize) {
        CAPACITY
    }

    fn null() -> (meta: Self) {
        let meta = Le { bytes: [0; 7], len: 0 };
        assert(meta.bytes() =~= Seq::<u8>::empty());
        meta
    }

    fn len(&self) -> (len: usize) {
        self.len as usize
    }

    fn get(&self, index: usize) -> (byte: u8) {
        self.bytes[index]
    }

    fn try_compress(&self, byte: u8, child: &Self) -> (joined: Option<Self>) {
        let len: usize = self.len as usize;
        let more: usize = child.len as usize;
        if len + 1 + more > CAPACITY {
            return None;
        }
        let mut bytes: [u8; 7] = self.bytes;
        bytes[len] = byte;
        let mut i: usize = 0;
        while i < more
            invariant
                len == self.len,
                more == child.len,
                len + 1 + more <= 7,
                i <= more,
                forall|j: int| 0 <= j < len ==> bytes@[j] == self.bytes@[j],
                bytes@[len as int] == byte,
                forall|j: int| 0 <= j < i ==> bytes@[len + 1 + j] == child.bytes@[j],
            decreases more - i,
        {
            let ghost before = bytes@;
            bytes[len + 1 + i] = child.bytes[i];
            i += 1;
            assert forall|j: int| 0 <= j < i implies bytes@[len + 1 + j] == child.bytes@[j] by {
                if j < i - 1 {
                    assert(bytes@[len + 1 + j] == before[len + 1 + j]);
                }
            }
        }
        let joined = Le { bytes, len: (len + 1 + more) as u8 };
        proof {
            let expected = self.bytes().push(byte) + child.bytes();
            assert forall|j: int| 0 <= j < expected.len() implies joined.bytes()[j]
                == expected[j] by {
                if j > len {
                    assert(bytes@[len + 1 + (j - len - 1)] == child.bytes@[j - len - 1]);
                }
            }
            assert(joined.bytes() =~= expected);
        }
        Some(joined)
    }

    fn try_expand(&self, index: usize) -> (parts: Option<(Self, u8, Self)>) {
        let len: usize = self.len as usize;
        if index >= len {
            return None;
        }
        let parent = Le { bytes: self.bytes, len: index as u8 };
        let mut bytes: [u8; 7] = [0; 7];
        let mut i: usize = 0;
        while i < len - index - 1
            invariant
                len == self.len,
                index < len <= 7,
                i <= len - index - 1,
                forall|j: int| 0 <= j < i ==> bytes@[j] == self.bytes@[index + 1 + j],
            decreases len - i,
        {
            bytes[i] = self.bytes[index + 1 + i];
            i += 1;
        }
        let child = Le { bytes, len: (len - index - 1) as u8 };
        proof {
            assert(parent.bytes() =~= self.bytes().take(index as int));
            assert(child.bytes() =~= self.bytes().skip(index as int + 1));
        }
        Some((parent, self.bytes[index], child))
    }
}

/// Layout of a metadata word: the key bytes from the least significant end on, and
/// eight times their number in the most significant byte. The word is canonical if
/// there is nothing else in it.
pub proof fn law_le_word(raw: u64)
    ensures
        8 * le_word_len(raw) == (raw & 0x3800_0000_0000_0000) >> 56u64,
        0 <= le_word_len(raw) <= 7,
        le_word_valid(raw) <==> raw >> 56u64 == (raw & 0x3800_0000_0000_0000) >> 56u64 && (raw
            & 0x00ff_ffff_ffff_ffff) >> ((raw & 0x3800_0000_0000_0000) >> 56u64) == 0,
{
    let bits = (raw & LENGTH) >> 56u64;
    let mask = le_prefix_mask(bits as int / 8);
    assert(bits <= 56 && bits % 8 == 0 && (mask == (if bits == 0 {
        0u64
    } else {
        0xffff_ffff_ffff_ffffu64 >> ((64 - bits) as u64)
    }) ==> (raw & 0x0700_0000_0000_0000 == 0 && raw & !(mask | 0x3800_0000_0000_0000) == 0) == (raw
        >> 56u64 == bits && (raw & 0x00ff_ffff_ffff_ffff) >> bits == 0))) by (bit_vector)
        requires
            bits == (raw & 0x3800_0000_0000_0000) >> 56u64,
    ;
}


} // verus!
