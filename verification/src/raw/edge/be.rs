//! Edge metadata that holds up to seven key bytes, most significant first.
use vstd::prelude::*;
use vstd::std_specs::bits::axiom_u64_leading_zeros;
use crate::raw::edge::Meta;

verus! {

/// Bits of the prefix length.
pub const LENGTH: u64 = 0b11_1000;

/// Bits of transient flags, which are never set at rest.
pub const FLAGS: u64 = 0b111;

/// Byte `index` of `word`, counted from the most significant end.
pub open spec fn byte_at(word: u64, index: int) -> u8 {
    ((word >> ((56 - 8 * index) as u64)) & 0xff) as u8
}

/// Mask of the `len` most significant bytes.
pub open spec fn prefix_mask(len: int) -> u64 {
    if len <= 0 {
        0
    } else {
        0xffff_ffff_ffff_ffffu64 << ((64 - 8 * len) as u64)
    }
}

/// Compressed edge of at most seven bytes.
///
/// The bytes stand at the most significant end; the length in bits stands in
/// the three bits of [`LENGTH`].
#[derive(Copy, Clone, Debug, PartialEq, Eq, Structural)]
pub struct Be {
    raw: u64,
}

impl Be {
    /// The metadata word.
    pub closed spec fn word(self) -> u64 {
        self.raw
    }

    /// The bytes stand at the most significant end of the word.
    pub proof fn lemma_bytes(self)
        ensures
            self.bytes() == be_word_bytes(self.word()),
            self.valid() == be_word_valid(self.word()),
    {
    }

    /// The metadata word.
    pub fn into_raw(self) -> (raw: u64)
        ensures
            raw == self.word(),
    {
        self.raw
    }

    /// Interpret a metadata word.
    pub fn from_raw(raw: u64) -> (meta: Be)
        requires
            be_word_valid(raw),
        ensures
            meta.valid(),
            meta.word() == raw,
            meta.bytes() == be_word_bytes(raw),
    {
        Be { raw }
    }

    /// Compress the `len` most significant bytes of `buffer`.
    pub fn new(buffer: u64, len: usize) -> (meta: Be)
        requires
            len <= 7,
        ensures
            meta.valid(),
            meta.bytes() == Seq::new(len as nat, |i: int| byte_at(buffer, i)),
    {
        let n: u64 = len as u64;
        let mask: u64 = if len == 0 {
            0
        } else {
            0xffff_ffff_ffff_ffffu64 << (64 - 8 * n)
        };
        let raw: u64 = (buffer & mask) | (n * 8);
        let meta = Be { raw };
        proof {
            assert(mask == prefix_mask(len as int));
            assert(n <= 7 && mask == (if n == 0 {
                0u64
            } else {
                0xffff_ffff_ffff_ffffu64 << ((64 - 8 * n) as u64)
            }) ==> ((buffer & mask) | (n * 8) as u64) & 0b11_1000 == n * 8 && ((buffer & mask) | (n
                * 8) as u64) & 0b111 == 0 && ((buffer & mask) | (n * 8) as u64) & !(mask
                | 0b11_1000) == 0) by (bit_vector);
            assert(raw & LENGTH == n * 8);
            assert forall|i: int| 0 <= i < len implies byte_at(raw, i) == byte_at(buffer, i) by {
                let k = i as u64;
                assert(k < n && n <= 7 ==> (((buffer & (0xffff_ffff_ffff_ffffu64 << ((64 - 8 * n) as u64)))
                    | (n * 8) as u64) >> ((56 - 8 * k) as u64)) & 0xff == (buffer >> ((56 - 8
                    * k) as u64)) & 0xff) by (bit_vector);
            }
            assert(meta.bytes() =~= Seq::new(len as nat, |i: int| byte_at(buffer, i)));
        }
        meta
    }
}

/// Number of most significant bytes in which two words agree.
pub fn common_bytes(a: u64, b: u64) -> (len: usize)
    ensures
        len <= 8,
        forall|i: int| 0 <= i < len ==> #[trigger] byte_at(a, i) == byte_at(b, i),
        len < 8 ==> byte_at(a, len as int) != byte_at(b, len as int),
{
    let x: u64 = a ^ b;
    let zeros: u32 = x.leading_zeros();
    proof {
        broadcast use axiom_u64_leading_zeros;

        let z = zeros as u64;
        assert forall|i: int| 0 <= i < z / 8 implies #[trigger] byte_at(a, i) == byte_at(b, i) by {
            let k = i as u64;
            assert((a >> ((56 - 8 * k) as u64)) & 0xff == (b >> ((56 - 8 * k) as u64)) & 0xff)
                by (bit_vector)
                requires
                    k < z / 8,
                    z <= 64,
                    (a ^ b) >> ((64 - z) as u64) == 0,
            ;
        }
        if z < 64 {
            let k = z / 8;
            assert((a >> ((56 - 8 * k) as u64)) & 0xff != (b >> ((56 - 8 * k) as u64)) & 0xff && (a
                >> ((56 - 8 * k) as u64)) & 0xff <= 0xff && (b >> ((56 - 8 * k) as u64)) & 0xff
                <= 0xff) by (bit_vector)
                requires
                    z < 64,
                    k == z / 8,
                    ((a ^ b) >> ((63 - z) as u64)) & 1u64 != 0u64,
                    (a ^ b) >> ((64 - z) as u64) == 0,
            ;
        }
    }
    (zeros / 8) as usize
}

/// Canonical metadata words: no flags, and no bits beyond the prefix.
pub open spec fn be_word_valid(raw: u64) -> bool {
    let len = (raw & LENGTH) as int / 8;
    raw & FLAGS == 0 && raw & !(prefix_mask(len) | LENGTH) == 0
}

/// Key bytes of a metadata word.
pub open spec fn be_word_bytes(raw: u64) -> Seq<u8> {
    Seq::new((raw & LENGTH) as nat / 8, |i: int| byte_at(raw, i))
}

/// Number of key bytes in a metadata word.
proof fn lemma_word_len(raw: u64)
    ensures
        raw & LENGTH <= 56,
        (raw & LENGTH) % 8 == 0,
{
    assert(raw & 0b11_1000 <= 56 && (raw & 0b11_1000) % 8 == 0) by (bit_vector);
}

impl Meta for Be {
    closed spec fn valid(&self) -> bool {
        be_word_valid(self.raw)
    }

    closed spec fn bytes(&self) -> Seq<u8> {
        be_word_bytes(self.raw)
    }

    open spec fn max() -> nat {
        7
    }

    proof fn lemma_valid(&self) {
        lemma_word_len(self.raw);
    }

    fn capacity() -> (capacity: usize) {
        7
    }

    fn null() -> (meta: Be) {
        let meta = Be::new(0, 0);
        assert(meta.bytes() =~= Seq::<u8>::empty());
        meta
    }

    fn len(&self) -> (len: usize) {
        proof {
            lemma_word_len(self.raw);
        }
        ((self.raw & LENGTH) / 8) as usize
    }

    fn get(&self, index: usize) -> (byte: u8) {
        proof {
            self.lemma_valid();
        }
        let raw = self.raw;
        let shift: u64 = 56 - 8 * (index as u64);
        ((raw >> shift) & 0xff) as u8
    }

    fn try_compress(&self, byte: u8, child: &Be) -> (joined: Option<Be>) {
        let n: u64 = self.len() as u64;
        let m: u64 = child.len() as u64;
        proof {
            self.lemma_valid();
            child.lemma_valid();
        }
        if n + 1 + m > 7 {
            return None;
        }
        let a: u64 = self.raw;
        let b: u64 = byte as u64;
        let c: u64 = child.raw;
        let head: u64 = if n == 0 {
            0
        } else {
            a & (0xffff_ffff_ffff_ffffu64 << (64 - 8 * n))
        };
        let all: u64 = head | (b << (56 - 8 * n)) | (c >> (8 * n + 8));
        let meta = Be::new(all, (n + 1 + m) as usize);
        proof {
            let joined = self.bytes().push(byte) + child.bytes();
            assert forall|i: int| 0 <= i < n + 1 + m implies byte_at(all, i) == joined[i] by {
                let k = i as u64;
                if i < n {
                    assert(k < n && n <= 6 && b <= 0xff ==> ((((a & (0xffff_ffff_ffff_ffffu64 << ((
                    64 - 8 * n) as u64))) | (b << ((56 - 8 * n) as u64)) | (c >> ((8 * n + 8) as u64))) >> (
                    (56 - 8 * k) as u64)) & 0xff) == (a >> ((56 - 8 * k) as u64)) & 0xff)
                        by (bit_vector);
                } else if i == n {
                    assert(n <= 6 && b <= 0xff && head == (if n == 0 {
                        0u64
                    } else {
                        a & (0xffff_ffff_ffff_ffffu64 << ((64 - 8 * n) as u64))
                    }) ==> (((head | (b << ((56 - 8 * n) as u64)) | (c >> ((8 * n + 8) as u64))) >> (
                    (56 - 8 * n) as u64)) & 0xff) == b) by (bit_vector);
                } else {
                    let j = (i - n - 1) as u64;
                    assert(n <= 6 && j <= 5 && n + 1 + j <= 6 && b <= 0xff && head == (if n == 0 {
                        0u64
                    } else {
                        a & (0xffff_ffff_ffff_ffffu64 << ((64 - 8 * n) as u64))
                    }) ==> (((head | (b << ((56 - 8 * n) as u64)) | (c >> ((8 * n + 8) as u64))) >> (
                    (56 - 8 * (n + 1 + j)) as u64)) & 0xff) == (c >> ((56 - 8 * j) as u64)) & 0xff)
                        by (bit_vector);
                    assert(joined[i] == child.bytes()[j as int]);
                }
            }
            assert(meta.bytes() =~= joined);
        }
        Some(meta)
    }

    fn try_expand(&self, index: usize) -> (parts: Option<(Be, u8, Be)>) {
        let n: usize = self.len();
        proof {
            self.lemma_valid();
        }
        if index >= n {
            return None;
        }
        let raw: u64 = self.raw;
        let parent = Be::new(raw, index);
        let byte: u8 = self.get(index);
        let below: u64 = raw << (8 * (index as u64) + 8);
        let child = Be::new(below, n - index - 1);
        proof {
            assert(parent.bytes() =~= self.bytes().take(index as int));
            assert forall|i: int| 0 <= i < n - index - 1 implies byte_at(below, i) == byte_at(
                raw,
                i + index + 1,
            ) by {
                let k = i as u64;
                let s = index as u64;
                assert(k + s + 1 < 7 && k < 7 && s < 7 ==> ((raw << ((8 * s + 8) as u64)) >> ((56 - 8
                    * k) as u64)) & 0xff == (raw >> ((56 - 8 * (k + s + 1)) as u64)) & 0xff)
                    by (bit_vector);
            }
            assert(child.bytes() =~= self.bytes().skip(index as int + 1));
        }
        Some((parent, byte, child))
    }
}

/// Words that agree in their first `n` bytes.
proof fn lemma_word_prefix(a: u64, b: u64, n: u64)
    requires
        n <= 7,
        forall|i: int| 0 <= i < n ==> #[trigger] byte_at(a, i) == byte_at(b, i),
    ensures
        n > 0 ==> a >> ((64 - 8 * n) as u64) == b >> ((64 - 8 * n) as u64),
    decreases n,
{
    if n > 0 {
        let m = (n - 1) as u64;
        lemma_word_prefix(a, b, m);
        assert(byte_at(a, m as int) == byte_at(b, m as int));
        assert(a >> ((56 - 8 * m) as u64) == b >> ((56 - 8 * m) as u64)) by (bit_vector)
            requires
                m < 7,
                ((a >> ((56 - 8 * m) as u64)) & 0xff) as u8 == ((b >> ((56 - 8 * m) as u64))
                    & 0xff) as u8,
                m > 0 ==> a >> ((64 - 8 * m) as u64) == b >> ((64 - 8 * m) as u64),
        ;
    }
}

/// A canonical metadata word is determined by its key bytes.
pub proof fn lemma_word_injective(a: u64, b: u64)
    requires
        be_word_valid(a),
        be_word_valid(b),
        be_word_bytes(a) == be_word_bytes(b),
    ensures
        a == b,
{
    lemma_word_len(a);
    lemma_word_len(b);
    let x = be_word_bytes(a);
    let y = be_word_bytes(b);
    assert(x.len() == y.len());
    let n = ((a & LENGTH) / 8) as u64;
    assert(a & LENGTH == b & LENGTH);
    assert forall|i: int| 0 <= i < n implies #[trigger] byte_at(a, i) == byte_at(b, i) by {
        assert(x[i] == y[i]);
    }
    lemma_word_prefix(a, b, n);
    let mask = prefix_mask(n as int);
    assert(a == b) by (bit_vector)
        requires
            n <= 7,
            mask == (if n == 0 {
                0u64
            } else {
                0xffff_ffff_ffff_ffffu64 << ((64 - 8 * n) as u64)
            }),
            a & 0b11_1000 == b & 0b11_1000,
            a & 0b111 == 0,
            b & 0b111 == 0,
            a & !(mask | 0b11_1000) == 0,
            b & !(mask | 0b11_1000) == 0,
            n > 0 ==> a >> ((64 - 8 * n) as u64) == b >> ((64 - 8 * n) as u64),
    ;
}

/// Layout of a metadata word: the key bytes from the most significant end on, and
/// eight times their number in the last byte. The word is canonical if there is
/// nothing else in it.
pub proof fn law_be_word(raw: u64, i: int)
    ensures
        8 * be_word_bytes(raw).len() == raw & 0b11_1000,
        be_word_bytes(raw).len() <= 7,
        0 <= i < be_word_bytes(raw).len() ==> be_word_bytes(raw)[i] == ((raw >> ((56 - 8 * i) as u64))
            & 0xff) as u8,
        be_word_valid(raw) <==> raw & 0xff == raw & 0b11_1000 && (raw & 0xffff_ffff_ffff_ff00) << (
        raw & 0b11_1000) == 0,
{
    lemma_word_len(raw);
    let bits = raw & LENGTH;
    let mask = prefix_mask(bits as int / 8);
    assert((raw & 0b111 == 0 && raw & !(mask | 0b11_1000) == 0) == (raw & 0xff == raw & 0b11_1000
        && (raw & 0xffff_ffff_ffff_ff00) << (raw & 0b11_1000) == 0)) by (bit_vector)
        requires
            mask == (if raw & 0b11_1000 == 0 {
                0u64
            } else {
                0xffff_ffff_ffff_ffffu64 << ((64 - (raw & 0b11_1000)) as u64)
            }),
    ;
}


} // verus!
