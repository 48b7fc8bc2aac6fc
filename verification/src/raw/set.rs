//! Adaptive set of bytes.
//!
//! Up to seven bytes are listed; more are kept in a bit set.
use vstd::prelude::*;
use vstd::std_specs::bits::axiom_u64_trailing_zeros;

verus! {

/// Most bytes that are listed.
pub const LISTED: usize = 7;

/// List of at most seven distinct bytes.
pub struct Set8 {
    pub bytes: Vec<u8>,
}

impl Set8 {
    pub open spec fn wf(self) -> bool {
        &&& self.bytes@.len() <= LISTED
        &&& self.bytes@.no_duplicates()
    }

    /// Whether the byte is listed.
    pub fn contains(&self, byte: u8) -> (contains: bool)
        ensures
            contains == self.bytes@.contains(byte),
    {
        let mut i: usize = 0;
        while i < self.bytes.len()
            invariant
                i <= self.bytes@.len(),
                forall|j: int| 0 <= j < i ==> self.bytes@[j] != byte,
            decreases self.bytes@.len() - i,
        {
            if self.bytes[i] == byte {
                return true;
            }
            i += 1;
        }
        false
    }

    /// List a byte, and return whether it is new.
    ///
    /// Returns an error if the byte is new and there is no room.
    pub fn try_insert_mut(&mut self, byte: u8) -> (inserted: Result<bool, ()>)
        requires
            old(self).wf(),
        ensures
            final(self).wf(),
            match inserted {
                Ok(true) => {
                    &&& !old(self).bytes@.contains(byte)
                    &&& final(self).bytes@ == old(self).bytes@.push(byte)
                },
                Ok(false) => {
                    &&& old(self).bytes@.contains(byte)
                    &&& final(self).bytes@ == old(self).bytes@
                },
                Err(_) => {
                    &&& !old(self).bytes@.contains(byte)
                    &&& old(self).bytes@.len() == LISTED
                    &&& final(self).bytes@ == old(self).bytes@
                },
            },
    {
        if self.contains(byte) {
            return Ok(false);
        }
        if self.bytes.len() >= LISTED {
            return Err(());
        }
        let ghost before = self.bytes@;
        self.bytes.push(byte);
        proof {
            let after = self.bytes@;
            assert forall|i: int, j: int|
                0 <= i < after.len() && 0 <= j < after.len() && i != j implies after[i]
                != after[j] by {
                if i < before.len() {
                    assert(before.contains(before[i]));
                }
                if j < before.len() {
                    assert(before.contains(before[j]));
                }
            }
        }
        Ok(true)
    }
}

/// Bit `j` of `row` is set.
pub open spec fn bit(row: u64, j: u8) -> bool {
    row & (1u64 << j) != 0
}

/// Setting or clearing a bit leaves the others.
proof fn lemma_bits(row: u64, i: u8, j: u8)
    by (bit_vector)
    requires
        i < 64,
        j < 64,
    ensures
        ((row | (1u64 << i)) & (1u64 << j) != 0) == (row & (1u64 << j) != 0 || i == j),
        ((row & !(1u64 << i)) & (1u64 << j) != 0) == (row & (1u64 << j) != 0 && i != j),
        row & (1u64 << i) != 0 ==> ((row ^ (1u64 << i)) & (1u64 << j) != 0) == (row & (1u64 << j) != 0
            && i != j),
        (row & (1u64 << j) != 0) == ((row >> (j as u64)) & 1 == 1),
        0u64 & (1u64 << j) == 0,
{
}

/// Bit set with one bit per byte value.
#[derive(Copy, Clone, Debug, PartialEq, Eq)]
pub struct Set256 {
    pub rows: [u64; 4],
}

impl View for Set256 {
    type V = Set<u8>;

    open spec fn view(&self) -> Set<u8> {
        Set::new(|byte: u8| bit(self.rows@[byte as int / 64], (byte % 64) as u8))
    }
}

impl Set256 {
    /// Set without bytes.
    pub fn new() -> (set: Self)
        ensures
            set@ == Set::<u8>::empty(),
    {
        let set = Set256 { rows: [0, 0, 0, 0] };
        proof {
            assert forall|byte: u8| !set@.contains(byte) by {
                lemma_bits(0, 0, (byte % 64) as u8);
            }
            assert(set@ =~= Set::<u8>::empty());
        }
        set
    }

    /// Whether the byte is in the set.
    pub fn contains(&self, byte: u8) -> (contains: bool)
        ensures
            contains == self@.contains(byte),
    {
        self.rows[(byte / 64) as usize] & (1u64 << (byte % 64)) != 0
    }

    /// Add a byte, and return whether it is new.
    pub fn insert_mut(&mut self, byte: u8) -> (inserted: bool)
        ensures
            inserted == !old(self)@.contains(byte),
            final(self)@ == old(self)@.insert(byte),
    {
        let ghost before = *self;
        if self.contains(byte) {
            assert(self@.insert(byte) =~= self@);
            return false;
        }
        let i: usize = (byte / 64) as usize;
        self.rows[i] = self.rows[i] | (1u64 << (byte % 64));
        proof {
            assert forall|other: u8| self@.contains(other) == before@.insert(byte).contains(
                other,
            ) by {
                lemma_bits(before.rows@[i as int], (byte % 64) as u8, (other % 64) as u8);
            }
            assert(self@ =~= before@.insert(byte));
        }
        true
    }

    /// Remove a byte, and return whether it was in the set.
    pub fn remove_mut(&mut self, byte: u8) -> (removed: bool)
        ensures
            removed == old(self)@.contains(byte),
            final(self)@ == old(self)@.remove(byte),
    {
        let ghost before = *self;
        let removed = self.contains(byte);
        let i: usize = (byte / 64) as usize;
        self.rows[i] = self.rows[i] & !(1u64 << (byte % 64));
        proof {
            assert forall|other: u8| self@.contains(other) == before@.remove(byte).contains(
                other,
            ) by {
                lemma_bits(before.rows@[i as int], (byte % 64) as u8, (other % 64) as u8);
            }
            assert(self@ =~= before@.remove(byte));
        }
        removed
    }
}

/// Bytes of a set that are less than `n`.
spec fn below(set: Set<u8>, n: int) -> Set<u8> {
    Set::new(|byte: u8| set.contains(byte) && byte < n)
}

impl Set256 {
    /// Number of bytes in the set.
    pub fn len(&self) -> (len: usize)
        ensures
            len == self@.len(),
    {
        let mut len: usize = 0;
        let mut n: usize = 0;
        assert(below(self@, 0) =~= Set::<u8>::empty());
        while n < 256
            invariant
                n <= 256,
                len <= n,
                below(self@, n as int).finite(),
                len == below(self@, n as int).len(),
            decreases 256 - n,
        {
            let byte: u8 = n as u8;
            proof {
                let set = below(self@, n as int);
                let next = below(self@, n as int + 1);
                if self@.contains(byte) {
                    assert(next =~= set.insert(byte));
                } else {
                    assert(next =~= set);
                }
            }
            if self.contains(byte) {
                len += 1;
            }
            n += 1;
        }
        assert(below(self@, 256) =~= self@);
        len
    }

    /// The bytes in the set, in ascending order.
    pub fn iter(&self) -> (iter: Iter256)
        ensures
            iter.rest@ == self@,
    {
        Iter256 { rest: *self }
    }
}

/// Iterator over the bytes of a bit set.
#[derive(Copy, Clone, Debug)]
pub struct Iter256 {
    /// The bytes that are still to come.
    pub rest: Set256,
}

impl Iter256 {
    /// Take the smallest byte.
    pub fn next(&mut self) -> (byte: Option<u8>)
        ensures
            match byte {
                Some(byte) => {
                    &&& old(self).rest@.contains(byte)
                    &&& forall|other: u8| old(self).rest@.contains(other) ==> byte <= other
                    &&& final(self).rest@ == old(self).rest@.remove(byte)
                },
                None => {
                    &&& old(self).rest@ == Set::<u8>::empty()
                    &&& *final(self) == *old(self)
                },
            },
    {
        let ghost before = self.rest;
        let mut i: usize = 0;
        while i < 4
            invariant
                i <= 4,
                self.rest == before,
                *self == *old(self),
                before == old(self).rest,
                forall|k: int| 0 <= k < i ==> before.rows@[k] == 0,
            decreases 4 - i,
        {
            let row: u64 = self.rest.rows[i];
            let j: u32 = row.trailing_zeros();
            proof {
                broadcast use axiom_u64_trailing_zeros;

                assert(row == 0 <==> j == 64);
            }
            if j < 64 {
                let byte: u8 = i as u8 * 64 + j as u8;
                self.rest.rows[i] = row ^ (1u64 << j);
                proof {
                    broadcast use axiom_u64_trailing_zeros;

                    let bit_at = j as u8;
                    lemma_bits(row, bit_at, bit_at);
                    assert(1u64 << j == 1u64 << bit_at);
                    assert(before@.contains(byte));
                    assert forall|other: u8| before@.contains(other) implies byte <= other by {
                        let k = (other % 64) as u8;
                        lemma_bits(before.rows@[other as int / 64], bit_at, k);
                        if other / 64 < i {
                            lemma_bits(0, 0, k);
                        } else if other / 64 == i && k < j {
                            assert((row >> (k as u64)) & 1u64 == 0);
                        }
                    }
                    assert forall|other: u8| self.rest@.contains(other) == before@.remove(
                        byte,
                    ).contains(other) by {
                        lemma_bits(row, bit_at, (other % 64) as u8);
                    }
                    assert(self.rest@ =~= before@.remove(byte));
                }
                return Some(byte);
            }
            i += 1;
        }
        proof {
            assert forall|byte: u8| !before@.contains(byte) by {
                lemma_bits(0, 0, (byte % 64) as u8);
                assert(before.rows@[byte as int / 64] == 0);
            }
            assert(before@ =~= Set::<u8>::empty());
        }
        None
    }
}

/// Adaptive set of bytes.
pub enum ByteSet {
    Set8(Set8),
    Set256(Box<Set256>),
}

impl View for ByteSet {
    type V = Set<u8>;

    open spec fn view(&self) -> Set<u8> {
        match self {
            ByteSet::Set8(set) => set.bytes@.to_set(),
            ByteSet::Set256(set) => set@,
        }
    }
}

impl Default for ByteSet {
    fn default() -> (set: Self)
        ensures
            set.wf(),
            set@ == Set::<u8>::empty(),
    {
        let set = ByteSet::Set8(Set8 { bytes: Vec::new() });
        assert(set@ =~= Set::<u8>::empty());
        set
    }
}

impl ByteSet {
    pub open spec fn wf(self) -> bool {
        self matches ByteSet::Set8(set) ==> set.wf()
    }

    /// Whether the byte is in the set.
    pub fn contains(&self, byte: u8) -> (contains: bool)
        ensures
            contains == self@.contains(byte),
    {
        match self {
            ByteSet::Set8(set) => set.contains(byte),
            ByteSet::Set256(set) => set.contains(byte),
        }
    }

    /// Add a byte, and return whether it is new.
    ///
    /// A list that is full is converted into a bit set.
    pub fn insert_mut(&mut self, byte: u8) -> (inserted: bool)
        requires
            old(self).wf(),
        ensures
            final(self).wf(),
            inserted == !old(self)@.contains(byte),
            final(self)@ == old(self)@.insert(byte),
            *final(self) is Set8 <==> *old(self) is Set8 && (old(self)@.contains(byte)
                || old(self)@.len() < LISTED),
    {
        let ghost before = *self;
        proof {
            if before is Set8 {
                before->Set8_0.bytes@.unique_seq_to_set();
            }
        }
        let full = match self {
            ByteSet::Set8(set) => match set.try_insert_mut(byte) {
                Ok(inserted) => {
                    proof {
                        let bytes = before->Set8_0.bytes@;
                        if inserted {
                            assert(self@ =~= before@.insert(byte)) by {
                                assert forall|b: u8| self@.contains(b) == before@.insert(
                                    byte,
                                ).contains(b) by {
                                    let after = bytes.push(byte);
                                    if bytes.contains(b) {
                                        assert(after[bytes.index_of(b)] == b);
                                    }
                                    assert(after[bytes.len() as int] == byte);
                                    if after.contains(b) && b != byte {
                                        assert(bytes[after.index_of(b)] == b);
                                    }
                                }
                            }
                        } else {
                            assert(self@ =~= before@.insert(byte));
                        }
                    }
                    return inserted;
                },
                Err(()) => true,
            },
            ByteSet::Set256(_) => false,
        };
        if full {
            assert(self@ =~= before@);
            self.expand_mut();
        }
        match self {
            ByteSet::Set256(set) => set.insert_mut(byte),
            ByteSet::Set8(_) => vstd::pervasive::unreached(),
        }
    }

    /// Convert a list into a bit set.
    fn expand_mut(&mut self)
        requires
            *old(self) is Set8,
        ensures
            *final(self) is Set256,
            final(self)@ == old(self)@,
    {
        let ghost before = *self;
        let mut all = Set256::new();
        if let ByteSet::Set8(set) = self {
            let ghost bytes = set.bytes@;
            let mut i: usize = 0;
            assert(all@ =~= bytes.take(0).to_set());
            while i < set.bytes.len()
                invariant
                    set.bytes@ == bytes,
                    i <= bytes.len(),
                    all@ == bytes.take(i as int).to_set(),
                decreases bytes.len() - i,
            {
                let _ = all.insert_mut(set.bytes[i]);
                proof {
                    let now = bytes.take(i as int);
                    let next = bytes.take(i as int + 1);
                    assert forall|b: u8| next.to_set().contains(b) == now.to_set().insert(
                        bytes[i as int],
                    ).contains(b) by {
                        if now.contains(b) {
                            assert(next[now.index_of(b)] == b);
                        }
                        assert(next[i as int] == bytes[i as int]);
                        if next.contains(b) && b != bytes[i as int] {
                            assert(now[next.index_of(b)] == b);
                        }
                    }
                    assert(next.to_set() =~= all@);
                }
                i += 1;
            }
            assert(bytes.take(bytes.len() as int) =~= bytes);
        }
        *self = ByteSet::Set256(Box::new(all));
    }
}

} // verus!
