//! Weakly typed implementation of the adaptive radix tree.
//!
//! This module contains the structural types ([`edge`], [`node`], [`key`]) and
//! the operations on them that the typed maps share.
use vstd::prelude::*;
use vstd::std_specs::bits::axiom_u64_trailing_zeros;

pub mod cursor;
pub mod edge;
pub mod iter;
pub mod key;
pub mod node;
pub mod set;
pub mod shape;

verus! {

/// Structural modification operation.
#[derive(Copy, Clone, Debug, PartialEq, Eq, Structural)]
pub enum Smo {
    ReplaceNode,
    DeleteNode,
    CompressEdge,
}

impl Smo {
    /// Whether the operation allocates a node.
    pub fn is_allocate(self) -> (allocates: bool)
        ensures
            allocates == (self is ReplaceNode),
    {
        matches!(self, Smo::ReplaceNode)
    }
}

/// Bit `key` of a 256-bit set in two rows.
spec fn seen_bit(seen: [u128; 2], key: u8) -> bool {
    (seen@[(key / 128) as int] >> ((key % 128) as u128)) & 1 == 1
}

/// Whether no byte occurs twice in `keys`.
pub fn is_unique(keys: &[u8]) -> (unique: bool)
    ensures
        unique == (forall|i: int, j: int| 0 <= i < j < keys@.len() ==> keys@[i] != keys@[j]),
{
    let mut seen: [u128; 2] = [0u128; 2];
    assert forall|b: u8| !seen_bit(seen, b) by {
        let c = (b % 128) as u128;
        assert((0u128 >> c) & 1 == 0) by (bit_vector);
    }
    let mut i: usize = 0;
    while i < keys.len()
        invariant
            i <= keys@.len(),
            forall|b: u8| #[trigger] seen_bit(seen, b) <==> keys@.take(i as int).contains(b),
            forall|x: int, y: int| 0 <= x < y < i ==> keys@[x] != keys@[y],
        decreases keys@.len() - i,
    {
        let key: u8 = keys[i];
        let row: u8 = key / 128;
        let col: u8 = key % 128;
        let bit: u128 = 1u128 << col;
        let word: u128 = seen[row as usize];
        assert(word & (1u128 << col) > 0 <==> (word >> (col as u128)) & 1 == 1) by (bit_vector)
            requires
                col < 128,
        ;
        assert(seen_bit(seen, key) <==> keys@.take(i as int).contains(key));
        if word & bit > 0 {
            let ghost j = choose|j: int| 0 <= j < i && keys@.take(i as int)[j] == key;
            assert(keys@[j] == keys@[i as int]);
            return false;
        }
        let ghost before = seen;
        seen[row as usize] = word | bit;
        proof {
            assert forall|b: u8| #[trigger]
                seen_bit(seen, b) <==> keys@.take(i as int + 1).contains(b) by {
                let d = (b % 128) as u128;
                assert(((word | (1u128 << col)) >> d) & 1 == 1 <==> (d == col || (word >> d) & 1
                    == 1)) by (bit_vector)
                    requires
                        col < 128,
                        d < 128,
                ;
                assert(seen_bit(before, b) <==> keys@.take(i as int).contains(b));
                assert(keys@.take(i as int + 1) =~= keys@.take(i as int).push(key));
                if keys@.take(i as int).contains(b) {
                    let j = choose|j: int| 0 <= j < i && keys@.take(i as int)[j] == b;
                    assert(keys@.take(i as int + 1)[j] == b);
                }
                assert(keys@.take(i as int + 1)[i as int] == key);
                assert(b / 128 == row && b % 128 == col <==> b == key);
            }
            assert forall|x: int, y: int| 0 <= x < y < i + 1 implies keys@[x] != keys@[y] by {
                if y == i && keys@[x] == keys@[y] {
                    assert(keys@.take(i as int)[x] == key);
                }
            }
        }
        i += 1;
    }
    true
}

/// Byte `index` of `word`, counted from the least significant end.
pub open spec fn le_byte(word: u64, index: int) -> u8 {
    ((word >> ((8 * index) as u64)) & 0xff) as u8
}

/// Compute the lowest byte index at which byte 0 appears in `array`.
/// If there is no zero, return 8.
pub fn find_zero(array: u64) -> (index: u8)
    ensures
        index <= 8,
        index < 8 ==> le_byte(array, index as int) == 0,
        forall|i: int| 0 <= i < index ==> le_byte(array, i) != 0,
{
    let high_if_zero_or_ge_0x80: u64 = array.wrapping_sub(0x0101_0101_0101_0101);
    let high_if_lt_0x80: u64 = !array;
    let high_if_zero: u64 = high_if_zero_or_ge_0x80 & high_if_lt_0x80 & 0x8080_8080_8080_8080;
    let zeros: u32 = high_if_zero.trailing_zeros();
    proof {
        broadcast use axiom_u64_trailing_zeros;

        let h = high_if_zero;
        let s = high_if_zero_or_ge_0x80;
        let t = zeros as u64;
        assert(zeros >> 3 == zeros / 8) by (bit_vector);
        assert forall|i: int| 0 <= i < t / 8 implies le_byte(array, i) != 0 by {
            let k = i as u64;
            assert((h >> ((8 * k + 7) as u64)) & 1 == 0);
            assert(0 < (array >> ((8 * k) as u64)) & 0xff <= 0xff) by (bit_vector)
                requires
                    k < 8,
                    array >= 0x0101_0101_0101_0101u64 ==> s == array - 0x0101_0101_0101_0101u64,
                    array < 0x0101_0101_0101_0101u64 ==> s == array + 0x1_0000_0000_0000_0000
                        - 0x0101_0101_0101_0101u64,
                    h == s & !array & 0x8080_8080_8080_8080,
                    (h >> ((8 * k + 7) as u64)) & 1 == 0,
            ;
        }
        if t < 64 {
            assert((array >> ((8 * (t / 8)) as u64)) & 0xff == 0) by (bit_vector)
                requires
                    t < 64,
                    array >= 0x0101_0101_0101_0101u64 ==> s == array - 0x0101_0101_0101_0101u64,
                    array < 0x0101_0101_0101_0101u64 ==> s == array + 0x1_0000_0000_0000_0000
                        - 0x0101_0101_0101_0101u64,
                    h == s & !array & 0x8080_8080_8080_8080,
                    (h >> t) & 1 == 1,
                    h << ((64 - t) as u64) == 0,
            ;
        }
    }
    (zeros >> 3) as u8
}

/// Bytes of a word are its digits to the base of 256, least significant first.
pub proof fn law_le_byte(word: u64, index: u64)
    requires
        index < 8,
    ensures
        index == 0 ==> le_byte(word, index as int) == word % 256,
        index > 0 ==> le_byte(word, index as int) == le_byte(word / 256, index - 1),
{
    assert((word >> 0u64) & 0xff == word % 256 && (index < 8 && index > 0 ==> (word >> ((8
        * index) as u64)) & 0xff == ((word / 256) >> ((8 * (index - 1)) as u64)) & 0xff))
        by (bit_vector);
    assert(word % 256 < 256);
}


} // verus!
