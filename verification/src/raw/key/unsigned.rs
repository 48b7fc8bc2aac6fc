//! Support for unsigned integer keys.
use core::marker::PhantomData;
use vstd::prelude::*;
use crate::bytes::{common_len, diverge, lemma_common_len, lemma_common_len_is, lex_lt};
use crate::raw::edge::be::{byte_at, common_bytes, Be};
use crate::raw::edge::Meta;
use crate::raw::key::{Implicit, Key, Read, Split, Write};

verus! {

/// Byte `index` of `wide`, counted from the most significant end.
pub open spec fn wide_byte(wide: u128, index: int) -> u8 {
    ((wide >> ((120 - 8 * index) as u128)) & 0xff) as u8
}

/// The `len` most significant bytes of `wide`.
pub open spec fn wide_bytes(wide: u128, len: nat) -> Seq<u8> {
    Seq::new(len, |i: int| wide_byte(wide, i))
}

/// Abstraction over unsigned native integer types.
pub trait Native: Copy + Sized {
    /// Number of bytes.
    spec fn size() -> nat;

    /// The integer.
    spec fn value(self) -> int;

    /// The bytes, most significant first.
    spec fn be_bytes(self) -> Seq<u8>;

    /// Integers have between one and sixteen bytes.
    proof fn lemma_size(self)
        ensures
            0 < Self::size() <= 16,
            self.be_bytes().len() == Self::size(),
    ;

    /// The bytes at the most significant end of a wide word.
    spec fn wide(self) -> u128;

    /// The wide word holds the bytes, and zeros beyond them.
    proof fn lemma_wide(self)
        ensures
            wide_bytes(self.wide(), Self::size()) == self.be_bytes(),
            forall|i: int| Self::size() <= i < 16 ==> #[trigger] wide_byte(self.wide(), i) == 0,
    ;

    /// Wide words are ordered as the integers are.
    proof fn lemma_wide_order(self, other: Self)
        ensures
            self.wide() < other.wide() <==> self.value() < other.value(),
            self.wide() == other.wide() <==> self == other,
    ;

    /// Number of bytes.
    fn bytes() -> (len: usize)
        ensures
            len == Self::size(),
            0 < len <= 16,
    ;

    /// Move the bytes to the most significant end of a wide word.
    fn into_wide(self) -> (wide: u128)
        ensures
            wide == self.wide(),
    ;

    /// Take the bytes from the most significant end of a wide word.
    fn from_wide(wide: u128) -> (native: Self)
        ensures
            native.be_bytes() == wide_bytes(wide, Self::size()),
    ;
}

/// Wide words that agree in their first `n` bytes.
proof fn lemma_wide_prefix(a: u128, b: u128, n: u128)
    requires
        n <= 16,
        forall|i: int| 0 <= i < n ==> #[trigger] wide_byte(a, i) == wide_byte(b, i),
    ensures
        n > 0 ==> a >> ((128 - 8 * n) as u128) == b >> ((128 - 8 * n) as u128),
    decreases n,
{
    if n > 0 {
        let m = (n - 1) as u128;
        lemma_wide_prefix(a, b, m);
        assert(wide_byte(a, m as int) == wide_byte(b, m as int));
        assert(a >> ((120 - 8 * m) as u128) == b >> ((120 - 8 * m) as u128)) by (bit_vector)
            requires
                m < 16,
                ((a >> ((120 - 8 * m) as u128)) & 0xff) as u8 == ((b >> ((120 - 8 * m) as u128))
                    & 0xff) as u8,
                m > 0 ==> a >> ((128 - 8 * m) as u128) == b >> ((128 - 8 * m) as u128),
        ;
    }
}

/// Wide words are ordered as their bytes are.
proof fn lemma_wide_lex(a: u128, b: u128)
    ensures
        a < b <==> lex_lt(wide_bytes(a, 16), wide_bytes(b, 16)),
        a == b <==> wide_bytes(a, 16) == wide_bytes(b, 16),
{
    let x = wide_bytes(a, 16);
    let y = wide_bytes(b, 16);
    lemma_common_len(x, y);
    let n = common_len(x, y) as u128;
    assert forall|i: int| 0 <= i < n implies #[trigger] wide_byte(a, i) == wide_byte(b, i) by {
        assert(x[i] == y[i]);
    }
    lemma_wide_prefix(a, b, n);
    if n == 16 {
        assert(a == b) by (bit_vector)
            requires
                a >> 0u128 == b >> 0u128,
        ;
    } else {
        assert(x[n as int] != y[n as int]);
        assert((a < b) == ((((a >> ((120 - 8 * n) as u128)) & 0xff) as u8) < (((b >> ((120 - 8
            * n) as u128)) & 0xff) as u8))) by (bit_vector)
            requires
                n < 16,
                n > 0 ==> a >> ((128 - 8 * n) as u128) == b >> ((128 - 8 * n) as u128),
                ((a >> ((120 - 8 * n) as u128)) & 0xff) as u8 != ((b >> ((120 - 8 * n) as u128))
                    & 0xff) as u8,
        ;
    }
}

/// The bytes of an integer determine it, and are ordered as the integers are.
pub proof fn lemma_native_order<N: Native>(a: N, b: N)
    ensures
        lex_lt(a.be_bytes(), b.be_bytes()) <==> a.value() < b.value(),
        a.be_bytes() == b.be_bytes() <==> a == b,
{
    a.lemma_size();
    b.lemma_size();
    a.lemma_wide();
    b.lemma_wide();
    a.lemma_wide_order(b);
    lemma_wide_lex(a.wide(), b.wide());
    let x = wide_bytes(a.wide(), 16);
    let y = wide_bytes(b.wide(), 16);
    let p = a.be_bytes();
    let q = b.be_bytes();
    assert forall|i: int| 0 <= i < N::size() implies x[i] == p[i] && y[i] == q[i] by {
        assert(wide_bytes(a.wide(), N::size())[i] == p[i]);
        assert(wide_bytes(b.wide(), N::size())[i] == q[i]);
    }
    assert forall|i: int| N::size() <= i < 16 implies x[i] == y[i] by {
        assert(wide_byte(a.wide(), i) == 0 && wide_byte(b.wide(), i) == 0);
    }
    lemma_common_len(p, q);
    let n = common_len(p, q);
    if n < N::size() {
        lemma_common_len_is(x, y, n);
        assert(p[n as int] != q[n as int]);
    } else {
        lemma_common_len_is(x, y, 16);
        assert(p =~= q);
        assert(x =~= y);
    }
}

/// Bytes of a wide word after a shift to the left.
proof fn lemma_wide_shl(wide: u128, start: u128, i: u128)
    requires
        start < 16,
        i + start < 16,
    ensures
        wide_byte(wide << ((8 * start) as u128), i as int) == wide_byte(wide, i + start),
{
    assert(((wide << ((8 * start) as u128)) >> ((120 - 8 * i) as u128)) & 0xff == (wide >> ((120 - 8
        * (i + start)) as u128)) & 0xff) by (bit_vector)
        requires
            start < 16,
            i < 16,
            i + start < 16,
    ;
}

/// Bytes of the halves of a wide word.
proof fn lemma_wide_halves(wide: u128, i: u64)
    requires
        i < 8,
    ensures
        byte_at((wide >> 64) as u64, i as int) == wide_byte(wide, i as int),
        byte_at(wide as u64, i as int) == wide_byte(wide, i as int + 8),
{
    assert((((wide >> 64) as u64) >> ((56 - 8 * i) as u64)) & 0xff == (wide >> ((120 - 8
        * i) as u128)) & 0xff && ((wide as u64) >> ((56 - 8 * i) as u64)) & 0xff == (wide >> ((56 - 8
        * i) as u128)) & 0xff) by (bit_vector)
        requires
            i < 8,
    ;
}

/// Reads the bytes of an unsigned integer, most significant first.
///
/// The buffer may hold arbitrary bytes beyond the first `len`.
#[derive(Debug)]
pub struct Reader<N> {
    buffer: u128,
    len: usize,
    native: PhantomData<N>,
}

impl<N> Copy for Reader<N> {

}

impl<N> Clone for Reader<N> {
    fn clone(&self) -> (reader: Self)
        ensures
            reader == *self,
    {
        *self
    }
}

impl<N: Native> Reader<N> {
    /// Read a whole key.
    pub fn new(key: N) -> (reader: Self)
        ensures
            reader.valid(),
            reader.bytes() == key.be_bytes(),
    {
        proof {
            key.lemma_size();
            key.lemma_wide();
        }
        let reader = Reader { buffer: key.into_wide(), len: N::bytes(), native: PhantomData };
        assert(reader.bytes() =~= key.be_bytes());
        reader
    }

    /// Read a prefix of a key.
    ///
    /// Returns `None` if there are more bytes than a key has, so that no key
    /// begins with them.
    pub fn from_prefix(prefix: &[u8]) -> (reader: Option<Self>)
        ensures
            match reader {
                Some(reader) => {
                    &&& prefix@.len() <= N::size()
                    &&& reader.valid()
                    &&& reader.bytes() == prefix@
                },
                None => prefix@.len() > N::size(),
            },
    {
        let len: usize = prefix.len();
        if len > N::bytes() {
            return None;
        }
        let mut buffer: u128 = 0;
        let mut i: usize = 0;
        assert(0u128 & (0xffff_ffff_ffff_ffff_ffff_ffff_ffff_ffffu128 >> 0u128) == 0)
            by (bit_vector);
        while i < len
            invariant
                i <= len <= 16,
                len == prefix@.len(),
                forall|j: int| 0 <= j < i ==> #[trigger] wide_byte(buffer, j) == prefix@[j],
                i < 16 ==> buffer & (0xffff_ffff_ffff_ffff_ffff_ffff_ffff_ffffu128 >> ((8
                    * i) as u128)) == 0,
            decreases len - i,
        {
            let ghost before = buffer;
            let byte: u8 = prefix[i];
            let b: u128 = byte as u128;
            let shift: u128 = 120 - 8 * (i as u128);
            buffer = buffer | (b << shift);
            proof {
                let n = i as u128;
                assert((buffer >> ((120 - 8 * n) as u128)) & 0xff == b && (n < 15 ==> buffer & (
                0xffff_ffff_ffff_ffff_ffff_ffff_ffff_ffffu128 >> ((8 * (n + 1)) as u128)) == 0))
                    by (bit_vector)
                    requires
                        n < 16,
                        b <= 0xff,
                        before & (0xffff_ffff_ffff_ffff_ffff_ffff_ffff_ffffu128 >> ((8 * n) as u128))
                            == 0,
                        buffer == before | (b << ((120 - 8 * n) as u128)),
                ;
                assert forall|j: int| 0 <= j < i implies #[trigger] wide_byte(buffer, j)
                    == prefix@[j] by {
                    let m = j as u128;
                    assert((buffer >> ((120 - 8 * m) as u128)) & 0xff == (before >> ((120 - 8
                        * m) as u128)) & 0xff) by (bit_vector)
                        requires
                            m < n,
                            n < 16,
                            b <= 0xff,
                            buffer == before | (b << ((120 - 8 * n) as u128)),
                    ;
                    assert(wide_byte(before, j) == prefix@[j]);
                }
            }
            i += 1;
        }
        let reader = Reader { buffer, len, native: PhantomData };
        assert(reader.bytes() =~= prefix@);
        Some(reader)
    }
}

impl<N: Native> Read for Reader<N> {
    type Edge = Be;

    closed spec fn valid(self) -> bool {
        self.len <= N::size() <= 16
    }

    closed spec fn bytes(self) -> Seq<u8> {
        wide_bytes(self.buffer, self.len as nat)
    }

    proof fn lemma_len(self) {
    }

    fn empty() -> (reader: Self) {
        let _ = N::bytes();
        let reader = Reader { buffer: 0, len: 0, native: PhantomData };
        assert(reader.bytes() =~= Seq::<u8>::empty());
        reader
    }

    fn len(self) -> (len: usize) {
        self.len
    }

    fn get_byte(self, index: usize) -> (byte: Option<u8>) {
        if index < self.len {
            let shift: u128 = 120 - 8 * (index as u128);
            Some(((self.buffer >> shift) & 0xff) as u8)
        } else {
            None
        }
    }

    fn get_edge(self, len: usize) -> (meta: Be) {
        let top: u64 = (self.buffer >> 64) as u64;
        let meta = Be::new(top, len);
        proof {
            assert forall|i: int| 0 <= i < len implies byte_at(top, i) == wide_byte(
                self.buffer,
                i,
            ) by {
                lemma_wide_halves(self.buffer, i as u64);
            }
            assert(meta.bytes() =~= self.bytes().take(len as int));
        }
        meta
    }

    fn match_prefix(self, meta: &Be) -> (len: usize) {
        let top: u64 = (self.buffer >> 64) as u64;
        let word: u64 = meta.into_raw();
        let common: usize = common_bytes(word, top);
        let edge: usize = meta.len();
        // The buffer may hold arbitrary bytes beyond the reader, and the
        // metadata word holds its length, so that the match is clamped to both.
        let len: usize = if common < edge {
            common
        } else {
            edge
        };
        let len: usize = if len < self.len {
            len
        } else {
            self.len
        };
        proof {
            meta.lemma_valid();
            meta.lemma_bytes();
            assert forall|i: int| 0 <= i < 8 implies #[trigger] byte_at(top, i) == wide_byte(
                self.buffer,
                i,
            ) by {
                lemma_wide_halves(self.buffer, i as u64);
            }
            lemma_common_len_is(meta.bytes(), self.bytes(), len as nat);
        }
        len
    }

    fn prefix(self, end: usize) -> (reader: Self) {
        let reader = Reader { buffer: self.buffer, len: end, native: PhantomData };
        assert(reader.bytes() =~= self.bytes().take(end as int));
        reader
    }

    fn suffix(self, start: usize) -> (reader: Self) {
        let buffer: u128 = if start < 16 {
            self.buffer << (8 * (start as u128))
        } else {
            0
        };
        let reader = Reader { buffer, len: self.len - start, native: PhantomData };
        proof {
            assert forall|i: int| 0 <= i < self.len - start implies wide_byte(buffer, i)
                == wide_byte(self.buffer, i + start) by {
                lemma_wide_shl(self.buffer, start as u128, i as u128);
            }
            assert(reader.bytes() =~= self.bytes().skip(start as int));
        }
        reader
    }

    fn common_prefix(self, other: Self) -> (reader: Self) {
        let high: usize = common_bytes((self.buffer >> 64) as u64, (other.buffer >> 64) as u64);
        let common: usize = if high < 8 {
            high
        } else {
            8 + common_bytes(self.buffer as u64, other.buffer as u64)
        };
        let len: usize = if common < self.len {
            common
        } else {
            self.len
        };
        let len: usize = if len < other.len {
            len
        } else {
            other.len
        };
        proof {
            assert forall|i: int| 0 <= i < common && i < 16 implies wide_byte(self.buffer, i)
                == wide_byte(other.buffer, i) by {
                if i < 8 {
                    lemma_wide_halves(self.buffer, i as u64);
                    lemma_wide_halves(other.buffer, i as u64);
                } else {
                    lemma_wide_halves(self.buffer, (i - 8) as u64);
                    lemma_wide_halves(other.buffer, (i - 8) as u64);
                    assert(byte_at(self.buffer as u64, i - 8) == byte_at(other.buffer as u64, i - 8));
                }
            }
            if common < 16 {
                let i = common as int;
                if i < 8 {
                    lemma_wide_halves(self.buffer, i as u64);
                    lemma_wide_halves(other.buffer, i as u64);
                } else {
                    lemma_wide_halves(self.buffer, (i - 8) as u64);
                    lemma_wide_halves(other.buffer, (i - 8) as u64);
                }
            }
            lemma_common_len_is(self.bytes(), other.bytes(), len as nat);
        }
        self.prefix(len)
    }
}

/// Writes the bytes of an unsigned integer, most significant first.
#[derive(Debug)]
pub struct Writer<N> {
    buffer: u128,
    len: usize,
    native: PhantomData<N>,
}

impl<N: Native> Writer<N> {
    /// The integer, once all of its bytes are written.
    pub fn get(&self) -> (native: N)
        requires
            self.valid(),
            self.bytes().len() == N::size(),
        ensures
            native.be_bytes() == self.bytes(),
    {
        N::from_wide(self.buffer)
    }
}

impl<N: Native> Write for Writer<N> {
    type Edge = Be;

    closed spec fn valid(&self) -> bool {
        self.len <= N::size() <= 16
    }

    closed spec fn bytes(&self) -> Seq<u8> {
        wide_bytes(self.buffer, self.len as nat)
    }

    open spec fn max() -> nat {
        N::size()
    }

    fn capacity() -> (capacity: usize) {
        N::bytes()
    }

    proof fn lemma_len(&self) {
    }

    fn new() -> (writer: Self) {
        let _ = N::bytes();
        let writer = Writer { buffer: 0, len: 0, native: PhantomData };
        assert(writer.bytes() =~= Seq::<u8>::empty());
        writer
    }

    fn len(&self) -> (len: usize) {
        self.len
    }

    fn truncate(&mut self, len: usize) {
        self.len = len;
        assert(self.bytes() =~= old(self).bytes().take(len as int));
    }

    fn push(&mut self, byte: u8) {
        let n: u128 = self.len as u128;
        let b: u128 = byte as u128;
        let before: u128 = self.buffer;
        let shift: u128 = 120 - 8 * n;
        let hole: u128 = 0xffu128 << shift;
        self.buffer = (before & !hole) | (b << shift);
        self.len = self.len + 1;
        proof {
            let w = self.buffer;
            assert((w >> ((120 - 8 * n) as u128)) & 0xff == b) by (bit_vector)
                requires
                    n < 16,
                    b <= 0xff,
                    w == (before & !(0xffu128 << ((120 - 8 * n) as u128))) | (b << ((120 - 8
                        * n) as u128)),
            ;
            assert forall|i: int| 0 <= i < n implies wide_byte(w, i) == wide_byte(before, i) by {
                let k = i as u128;
                assert((w >> ((120 - 8 * k) as u128)) & 0xff == (before >> ((120 - 8 * k) as u128))
                    & 0xff) by (bit_vector)
                    requires
                        k < n,
                        n < 16,
                        b <= 0xff,
                        w == (before & !(0xffu128 << ((120 - 8 * n) as u128))) | (b << ((120 - 8
                            * n) as u128)),
                ;
            }
            assert(self.bytes() =~= old(self).bytes().push(byte));
        }
    }

    fn extend(&mut self, edge: &Be) {
        let len: usize = edge.len();
        let mut i: usize = 0;
        assert(edge.bytes().take(0) =~= Seq::<u8>::empty());
        assert(self.bytes() + Seq::<u8>::empty() =~= self.bytes());
        while i < len
            invariant
                i <= len,
                edge.valid(),
                len == edge.bytes().len(),
                self.valid(),
                self.bytes() == old(self).bytes() + edge.bytes().take(i as int),
                old(self).bytes().len() + edge.bytes().len() <= N::size(),
            decreases len - i,
        {
            self.push(edge.get(i));
            assert(self.bytes() =~= old(self).bytes() + edge.bytes().take(i as int + 1));
            i += 1;
        }
        assert(edge.bytes().take(len as int) =~= edge.bytes());
    }
}

/// Byte sequences of one length have the prefix property.
proof fn lemma_same_length(a: Seq<u8>, b: Seq<u8>)
    requires
        a.len() == b.len(),
    ensures
        a == b || diverge(a, b),
{
    lemma_common_len(a, b);
    if common_len(a, b) == a.len() {
        assert(a =~= b);
    }
}

impl Native for u16 {
    open spec fn size() -> nat {
        2
    }

    open spec fn value(self) -> int {
        self as int
    }

    open spec fn be_bytes(self) -> Seq<u8> {
        Seq::new(2, |i: int| ((self >> ((8 - 8 * i) as u16)) & 0xff) as u8)
    }

    open spec fn wide(self) -> u128 {
        (self as u128) << 112
    }

    proof fn lemma_size(self) {
    }

    proof fn lemma_wide(self) {
        let x = self;
        assert forall|i: int| 0 <= i < 16 implies #[trigger] wide_byte(x.wide(), i) == (if i < 2 {
            x.be_bytes()[i]
        } else {
            0
        }) by {
            let k = i as u128;
            let n = i as u16;
            assert(((((x as u128) << 112) >> ((120 - 8 * k) as u128)) & 0xff) as u8 == (if k < 2 {
                ((x >> ((8 - 8 * n) as u16)) & 0xff) as u8
            } else {
                0u8
            })) by (bit_vector)
                requires
                    k < 16,
                    n == k,
            ;
        }
        assert(wide_bytes(x.wide(), 2) =~= x.be_bytes());
    }

    proof fn lemma_wide_order(self, other: u16) {
        let a = self;
        let b = other;
        assert(((a as u128) << 112 < (b as u128) << 112) == (a < b) && ((a as u128) << 112 == (
        b as u128) << 112) == (a == b)) by (bit_vector);
    }

    fn bytes() -> (len: usize) {
        2
    }

    fn into_wide(self) -> (wide: u128) {
        (self as u128) << 112
    }

    fn from_wide(wide: u128) -> (native: u16) {
        let native: u16 = (wide >> 112) as u16;
        proof {
            assert forall|i: int| 0 <= i < 2 implies native.be_bytes()[i] == wide_byte(wide, i) by {
                let k = i as u128;
                let n = i as u16;
                assert(((wide >> ((120 - 8 * k) as u128)) & 0xff) as u8 == ((((wide >> 112) as u16) >> ((
                8 - 8 * n) as u16)) & 0xff) as u8) by (bit_vector)
                    requires
                        k < 2,
                        n == k,
                ;
            }
            assert(native.be_bytes() =~= wide_bytes(wide, 2));
        }
        native
    }
}

impl Key for u16 {
    type Borrowed<'k> = &'k u16;

    type Insert<'k> = u16;

    type Edge = Be;

    type Read<'k> = Reader<u16>;

    type Write = Writer<u16>;

    open spec fn bytes(self) -> Seq<u8> {
        self.be_bytes()
    }

    open spec fn borrowed_bytes<'k>(key: Self::Borrowed<'k>) -> Seq<u8> {
        key.be_bytes()
    }

    open spec fn insert_bytes<'k>(key: Self::Insert<'k>) -> Seq<u8> {
        key.be_bytes()
    }

    open spec fn is_key(bytes: Seq<u8>) -> bool {
        bytes.len() == 2
    }

    proof fn lemma_prefix_property(a: Seq<u8>, b: Seq<u8>) {
        lemma_same_length(a, b);
    }

    proof fn lemma_key_len(key: Seq<u8>) {
    }

    fn read<'k>(key: Self::Borrowed<'k>) -> (reader: Self::Read<'k>) {
        Reader::new(*key)
    }

    fn as_insert<'k>(&'k self) -> (insert: u16) {
        *self
    }

    fn insert_as_read<'i, 'k>(insert: &'k Self::Insert<'i>) -> (reader: Self::Read<'k>) {
        Reader::new(*insert)
    }

    fn insert_to_key<'k>(insert: Self::Insert<'k>) -> (key: Self) {
        insert
    }

    type Origin = Implicit;

    open spec fn origin_of(origin: Implicit, bytes: Seq<u8>) -> bool {
        true
    }

    fn origin<'k>(insert: Self::Insert<'k>) -> (origin: Implicit) {
        Implicit
    }

    fn write_to_key(writer: &Writer<u16>, origin: Implicit) -> (key: u16) {
        writer.get()
    }
}

impl Split for u16 {
    proof fn lemma_nonempty(key: Seq<u8>) {
    }

    fn split_last<'k>(key: Self::Borrowed<'k>) -> (parts: (Self::Read<'k>, u8)) {
        let reader = Reader::new(*key);
        let last: u8 = match reader.get_byte(1) {
            Some(last) => last,
            None => 0,
        };
        let front = reader.prefix(1);
        assert(front.bytes().push(last) =~= reader.bytes());
        (front, last)
    }
}

impl Native for u32 {
    open spec fn size() -> nat {
        4
    }

    open spec fn value(self) -> int {
        self as int
    }

    open spec fn be_bytes(self) -> Seq<u8> {
        Seq::new(4, |i: int| ((self >> ((24 - 8 * i) as u32)) & 0xff) as u8)
    }

    open spec fn wide(self) -> u128 {
        (self as u128) << 96
    }

    proof fn lemma_size(self) {
    }

    proof fn lemma_wide(self) {
        let x = self;
        assert forall|i: int| 0 <= i < 16 implies #[trigger] wide_byte(x.wide(), i) == (if i < 4 {
            x.be_bytes()[i]
        } else {
            0
        }) by {
            let k = i as u128;
            let n = i as u32;
            assert(((((x as u128) << 96) >> ((120 - 8 * k) as u128)) & 0xff) as u8 == (if k < 4 {
                ((x >> ((24 - 8 * n) as u32)) & 0xff) as u8
            } else {
                0u8
            })) by (bit_vector)
                requires
                    k < 16,
                    n == k,
            ;
        }
        assert(wide_bytes(x.wide(), 4) =~= x.be_bytes());
    }

    proof fn lemma_wide_order(self, other: u32) {
        let a = self;
        let b = other;
        assert(((a as u128) << 96 < (b as u128) << 96) == (a < b) && ((a as u128) << 96 == (
        b as u128) << 96) == (a == b)) by (bit_vector);
    }

    fn bytes() -> (len: usize) {
        4
    }

    fn into_wide(self) -> (wide: u128) {
        (self as u128) << 96
    }

    fn from_wide(wide: u128) -> (native: u32) {
        let native: u32 = (wide >> 96) as u32;
        proof {
            assert forall|i: int| 0 <= i < 4 implies native.be_bytes()[i] == wide_byte(wide, i) by {
                let k = i as u128;
                let n = i as u32;
                assert(((wide >> ((120 - 8 * k) as u128)) & 0xff) as u8 == ((((wide >> 96) as u32) >> ((
                24 - 8 * n) as u32)) & 0xff) as u8) by (bit_vector)
                    requires
                        k < 4,
                        n == k,
                ;
            }
            assert(native.be_bytes() =~= wide_bytes(wide, 4));
        }
        native
    }
}

impl Key for u32 {
    type Borrowed<'k> = &'k u32;

    type Insert<'k> = u32;

    type Edge = Be;

    type Read<'k> = Reader<u32>;

    type Write = Writer<u32>;

    open spec fn bytes(self) -> Seq<u8> {
        self.be_bytes()
    }

    open spec fn borrowed_bytes<'k>(key: Self::Borrowed<'k>) -> Seq<u8> {
        key.be_bytes()
    }

    open spec fn insert_bytes<'k>(key: Self::Insert<'k>) -> Seq<u8> {
        key.be_bytes()
    }

    open spec fn is_key(bytes: Seq<u8>) -> bool {
        bytes.len() == 4
    }

    proof fn lemma_prefix_property(a: Seq<u8>, b: Seq<u8>) {
        lemma_same_length(a, b);
    }

    proof fn lemma_key_len(key: Seq<u8>) {
    }

    fn read<'k>(key: Self::Borrowed<'k>) -> (reader: Self::Read<'k>) {
        Reader::new(*key)
    }

    fn as_insert<'k>(&'k self) -> (insert: u32) {
        *self
    }

    fn insert_as_read<'i, 'k>(insert: &'k Self::Insert<'i>) -> (reader: Self::Read<'k>) {
        Reader::new(*insert)
    }

    fn insert_to_key<'k>(insert: Self::Insert<'k>) -> (key: Self) {
        insert
    }

    type Origin = Implicit;

    open spec fn origin_of(origin: Implicit, bytes: Seq<u8>) -> bool {
        true
    }

    fn origin<'k>(insert: Self::Insert<'k>) -> (origin: Implicit) {
        Implicit
    }

    fn write_to_key(writer: &Writer<u32>, origin: Implicit) -> (key: u32) {
        writer.get()
    }
}

impl Split for u32 {
    proof fn lemma_nonempty(key: Seq<u8>) {
    }

    fn split_last<'k>(key: Self::Borrowed<'k>) -> (parts: (Self::Read<'k>, u8)) {
        let reader = Reader::new(*key);
        let last: u8 = match reader.get_byte(3) {
            Some(last) => last,
            None => 0,
        };
        let front = reader.prefix(3);
        assert(front.bytes().push(last) =~= reader.bytes());
        (front, last)
    }
}

impl Native for u64 {
    open spec fn size() -> nat {
        8
    }

    open spec fn value(self) -> int {
        self as int
    }

    open spec fn be_bytes(self) -> Seq<u8> {
        Seq::new(8, |i: int| ((self >> ((56 - 8 * i) as u64)) & 0xff) as u8)
    }

    open spec fn wide(self) -> u128 {
        (self as u128) << 64
    }

    proof fn lemma_size(self) {
    }

    proof fn lemma_wide(self) {
        let x = self;
        assert forall|i: int| 0 <= i < 16 implies #[trigger] wide_byte(x.wide(), i) == (if i < 8 {
            x.be_bytes()[i]
        } else {
            0
        }) by {
            let k = i as u128;
            let n = i as u64;
            assert(((((x as u128) << 64) >> ((120 - 8 * k) as u128)) & 0xff) as u8 == (if k < 8 {
                ((x >> ((56 - 8 * n) as u64)) & 0xff) as u8
            } else {
                0u8
            })) by (bit_vector)
                requires
                    k < 16,
                    n == k,
            ;
        }
        assert(wide_bytes(x.wide(), 8) =~= x.be_bytes());
    }

    proof fn lemma_wide_order(self, other: u64) {
        let a = self;
        let b = other;
        assert(((a as u128) << 64 < (b as u128) << 64) == (a < b) && ((a as u128) << 64 == (
        b as u128) << 64) == (a == b)) by (bit_vector);
    }

    fn bytes() -> (len: usize) {
        8
    }

    fn into_wide(self) -> (wide: u128) {
        (self as u128) << 64
    }

    fn from_wide(wide: u128) -> (native: u64) {
        let native: u64 = (wide >> 64) as u64;
        proof {
            assert forall|i: int| 0 <= i < 8 implies native.be_bytes()[i] == wide_byte(wide, i) by {
                let k = i as u128;
                let n = i as u64;
                assert(((wide >> ((120 - 8 * k) as u128)) & 0xff) as u8 == ((((wide >> 64) as u64) >> ((
                56 - 8 * n) as u64)) & 0xff) as u8) by (bit_vector)
                    requires
                        k < 8,
                        n == k,
                ;
            }
            assert(native.be_bytes() =~= wide_bytes(wide, 8));
        }
        native
    }
}

impl Key for u64 {
    type Borrowed<'k> = &'k u64;

    type Insert<'k> = u64;

    type Edge = Be;

    type Read<'k> = Reader<u64>;

    type Write = Writer<u64>;

    open spec fn bytes(self) -> Seq<u8> {
        self.be_bytes()
    }

    open spec fn borrowed_bytes<'k>(key: Self::Borrowed<'k>) -> Seq<u8> {
        key.be_bytes()
    }

    open spec fn insert_bytes<'k>(key: Self::Insert<'k>) -> Seq<u8> {
        key.be_bytes()
    }

    open spec fn is_key(bytes: Seq<u8>) -> bool {
        bytes.len() == 8
    }

    proof fn lemma_prefix_property(a: Seq<u8>, b: Seq<u8>) {
        lemma_same_length(a, b);
    }

    proof fn lemma_key_len(key: Seq<u8>) {
    }

    fn read<'k>(key: Self::Borrowed<'k>) -> (reader: Self::Read<'k>) {
        Reader::new(*key)
    }

    fn as_insert<'k>(&'k self) -> (insert: u64) {
        *self
    }

    fn insert_as_read<'i, 'k>(insert: &'k Self::Insert<'i>) -> (reader: Self::Read<'k>) {
        Reader::new(*insert)
    }

    fn insert_to_key<'k>(insert: Self::Insert<'k>) -> (key: Self) {
        insert
    }

    type Origin = Implicit;

    open spec fn origin_of(origin: Implicit, bytes: Seq<u8>) -> bool {
        true
    }

    fn origin<'k>(insert: Self::Insert<'k>) -> (origin: Implicit) {
        Implicit
    }

    fn write_to_key(writer: &Writer<u64>, origin: Implicit) -> (key: u64) {
        writer.get()
    }
}

impl Split for u64 {
    proof fn lemma_nonempty(key: Seq<u8>) {
    }

    fn split_last<'k>(key: Self::Borrowed<'k>) -> (parts: (Self::Read<'k>, u8)) {
        let reader = Reader::new(*key);
        let last: u8 = match reader.get_byte(7) {
            Some(last) => last,
            None => 0,
        };
        let front = reader.prefix(7);
        assert(front.bytes().push(last) =~= reader.bytes());
        (front, last)
    }
}

impl Native for u128 {
    open spec fn size() -> nat {
        16
    }

    open spec fn value(self) -> int {
        self as int
    }

    open spec fn be_bytes(self) -> Seq<u8> {
        Seq::new(16, |i: int| ((self >> ((120 - 8 * i) as u128)) & 0xff) as u8)
    }

    open spec fn wide(self) -> u128 {
        self
    }

    proof fn lemma_size(self) {
    }

    proof fn lemma_wide(self) {
        assert(wide_bytes(self.wide(), 16) =~= self.be_bytes());
    }

    proof fn lemma_wide_order(self, other: u128) {
    }

    fn bytes() -> (len: usize) {
        16
    }

    fn into_wide(self) -> (wide: u128) {
        self
    }

    fn from_wide(wide: u128) -> (native: u128) {
        let native: u128 = wide;
        assert(native.be_bytes() =~= wide_bytes(wide, 16));
        native
    }
}

impl Key for u128 {
    type Borrowed<'k> = &'k u128;

    type Insert<'k> = u128;

    type Edge = Be;

    type Read<'k> = Reader<u128>;

    type Write = Writer<u128>;

    open spec fn bytes(self) -> Seq<u8> {
        self.be_bytes()
    }

    open spec fn borrowed_bytes<'k>(key: Self::Borrowed<'k>) -> Seq<u8> {
        key.be_bytes()
    }

    open spec fn insert_bytes<'k>(key: Self::Insert<'k>) -> Seq<u8> {
        key.be_bytes()
    }

    open spec fn is_key(bytes: Seq<u8>) -> bool {
        bytes.len() == 16
    }

    proof fn lemma_prefix_property(a: Seq<u8>, b: Seq<u8>) {
        lemma_same_length(a, b);
    }

    proof fn lemma_key_len(key: Seq<u8>) {
    }

    fn read<'k>(key: Self::Borrowed<'k>) -> (reader: Self::Read<'k>) {
        Reader::new(*key)
    }

    fn as_insert<'k>(&'k self) -> (insert: u128) {
        *self
    }

    fn insert_as_read<'i, 'k>(insert: &'k Self::Insert<'i>) -> (reader: Self::Read<'k>) {
        Reader::new(*insert)
    }

    fn insert_to_key<'k>(insert: Self::Insert<'k>) -> (key: Self) {
        insert
    }

    type Origin = Implicit;

    open spec fn origin_of(origin: Implicit, bytes: Seq<u8>) -> bool {
        true
    }

    fn origin<'k>(insert: Self::Insert<'k>) -> (origin: Implicit) {
        Implicit
    }

    fn write_to_key(writer: &Writer<u128>, origin: Implicit) -> (key: u128) {
        writer.get()
    }
}

impl Split for u128 {
    proof fn lemma_nonempty(key: Seq<u8>) {
    }

    fn split_last<'k>(key: Self::Borrowed<'k>) -> (parts: (Self::Read<'k>, u8)) {
        let reader = Reader::new(*key);
        let last: u8 = match reader.get_byte(15) {
            Some(last) => last,
            None => 0,
        };
        let front = reader.prefix(15);
        assert(front.bytes().push(last) =~= reader.bytes());
        (front, last)
    }
}

} // verus!
