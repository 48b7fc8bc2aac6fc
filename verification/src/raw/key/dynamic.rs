//! Support for dynamically sized keys.
//!
//! Byte sequences satisfy the prefix property under an [`Invariant`]: either
//! they hold no zero byte, so that one can be appended to each, or they end in
//! a byte that occurs nowhere else in them.
use core::marker::PhantomData;
use vstd::prelude::*;
use vstd::utf8::{encode_utf8, valid_utf8};
use crate::bytes::{common_len, diverge, lemma_common_len, lemma_common_len_is, lemma_diverge_at};
use crate::raw::edge::le::Le;
use crate::raw::edge::Meta;
use crate::raw::key::{Read, Write};

pub mod array;
pub mod boxed_slice;
pub mod slice;

verus! {

/// Byte sequence that a raw key stands for.
pub open spec fn terminated_bytes(raw: Seq<u8>, terminate: bool) -> Seq<u8> {
    if terminate {
        raw.push(0)
    } else {
        raw
    }
}

/// Condition on keys that guarantees the prefix property.
pub trait Invariant: Sized + 'static {
    type Error;

    /// The condition.
    spec fn holds(raw: Seq<u8>) -> bool;

    /// Whether a zero byte is appended.
    spec fn terminates() -> bool;

    /// No key is a prefix of another key.
    proof fn lemma_prefix_property(a: Seq<u8>, b: Seq<u8>)
        requires
            Self::holds(a),
            Self::holds(b),
        ensures
            a == b || diverge(
                terminated_bytes(a, Self::terminates()),
                terminated_bytes(b, Self::terminates()),
            ),
    ;

    /// Whether a zero byte is appended.
    fn terminate() -> (terminate: bool)
        ensures
            terminate == Self::terminates(),
    ;

    /// Check the condition.
    fn validate(raw: &[u8]) -> (valid: Result<(), Self::Error>)
        ensures
            valid is Ok <==> Self::holds(raw@),
    ;
}

/// Checking the raw bytes of a key gave this error.
pub open spec fn rejected<I: Invariant>(bytes: Seq<u8>, error: I::Error) -> bool {
    exists|raw: &[u8]|
        raw@ == bytes && #[trigger] call_ensures(I::validate, (raw,), Err::<(), I::Error>(error))
}

/// Keys without a zero byte.
#[derive(Copy, Clone, Debug, PartialEq, Eq, Structural)]
pub struct NonNull;

/// A zero byte in a key.
#[derive(Copy, Clone, Debug, PartialEq, Eq, Structural)]
pub struct NullByte {
    /// Where the first zero byte is.
    pub index: usize,
}

impl Invariant for NonNull {
    type Error = NullByte;

    open spec fn holds(raw: Seq<u8>) -> bool {
        !raw.contains(0)
    }

    open spec fn terminates() -> bool {
        true
    }

    proof fn lemma_prefix_property(a: Seq<u8>, b: Seq<u8>) {
        let x = a.push(0);
        let y = b.push(0);
        lemma_common_len(a, b);
        let n = common_len(a, b) as int;
        if n < a.len() && n < b.len() {
            assert(x[n] == a[n] && y[n] == b[n]);
            lemma_diverge_at(x, y, n);
        } else if a.len() < b.len() {
            assert(x[n] == 0);
            assert(y[n] == b[n]);
            assert(b.contains(b[n]));
            lemma_diverge_at(x, y, n);
        } else if b.len() < a.len() {
            assert(y[n] == 0);
            assert(x[n] == a[n]);
            assert(a.contains(a[n]));
            lemma_diverge_at(x, y, n);
        } else {
            assert(a =~= b);
        }
    }

    fn terminate() -> (terminate: bool) {
        true
    }

    fn validate(raw: &[u8]) -> (valid: Result<(), NullByte>)
        ensures
            valid matches Err(error) ==> error.index < raw@.len() && raw@[error.index as int] == 0
                && !raw@.take(error.index as int).contains(0),
    {
        let mut i: usize = 0;
        while i < raw.len()
            invariant
                i <= raw@.len(),
                forall|j: int| 0 <= j < i ==> raw@[j] != 0,
            decreases raw@.len() - i,
        {
            if raw[i] == 0 {
                proof {
                    assert(raw@.contains(raw@[i as int]));
                    let front = raw@.take(i as int);
                    if front.contains(0) {
                        let j = front.index_of(0);
                        assert(raw@[j] == 0);
                    }
                }
                return Err(NullByte { index: i });
            }
            i += 1;
        }
        Ok(())
    }
}

/// Keys that end in a byte which occurs nowhere else in them.
#[derive(Copy, Clone, Debug)]
pub struct Terminated<const BYTE: u8>;

/// Where a terminator is missing or misplaced.
#[derive(Copy, Clone, Debug, PartialEq, Eq, Structural)]
pub enum Misplaced {
    /// The key does not end in the terminator.
    Missing,
    /// The terminator occurs before the end.
    Early {
        /// Where it occurs first.
        index: usize,
    },
}

impl<const BYTE: u8> Invariant for Terminated<BYTE> {
    type Error = Misplaced;

    open spec fn holds(raw: Seq<u8>) -> bool {
        &&& raw.len() > 0
        &&& raw.last() == BYTE
        &&& forall|i: int| 0 <= i < raw.len() - 1 ==> #[trigger] raw[i] != BYTE
    }

    open spec fn terminates() -> bool {
        false
    }

    proof fn lemma_prefix_property(a: Seq<u8>, b: Seq<u8>) {
        lemma_common_len(a, b);
        let n = common_len(a, b) as int;
        if n < a.len() && n < b.len() {
            lemma_diverge_at(a, b, n);
        } else if a.len() < b.len() {
            assert(a[n - 1] == b[n - 1]);
        } else if b.len() < a.len() {
            assert(a[n - 1] == b[n - 1]);
        } else {
            assert(a =~= b);
        }
    }

    fn terminate() -> (terminate: bool) {
        false
    }

    fn validate(raw: &[u8]) -> (valid: Result<(), Misplaced>)
        ensures
            valid matches Err(Misplaced::Missing) ==> !raw@.contains(BYTE),
            valid matches Err(Misplaced::Early { index }) ==> index < raw@.len() - 1
                && raw@[index as int] == BYTE && !raw@.take(index as int).contains(BYTE),
    {
        let mut i: usize = 0;
        while i < raw.len()
            invariant
                i <= raw@.len(),
                forall|j: int| 0 <= j < i ==> raw@[j] != BYTE,
            decreases raw@.len() - i,
        {
            if raw[i] == BYTE {
                if i + 1 == raw.len() {
                    return Ok(());
                }
                proof {
                    let front = raw@.take(i as int);
                    if front.contains(BYTE) {
                        let j = front.index_of(BYTE);
                        assert(raw@[j] == BYTE);
                    }
                }
                return Err(Misplaced::Early { index: i });
            }
            i += 1;
        }
        proof {
            if raw@.contains(BYTE) {
                let j = raw@.index_of(BYTE);
                assert(raw@[j] == BYTE);
            }
        }
        Err(Misplaced::Missing)
    }
}

/// Unsized types that are stored as bytes.
pub trait Raw: 'static {
    /// The bytes.
    spec fn raw_bytes(&self) -> Seq<u8>;

    /// Byte sequences that are of this type.
    spec fn is_raw(bytes: Seq<u8>) -> bool;

    /// The bytes.
    fn as_raw_bytes(&self) -> (bytes: &[u8])
        ensures
            bytes@ == self.raw_bytes(),
            Self::is_raw(self.raw_bytes()),
    ;

    /// Copy into a box.
    fn into_boxed(&self) -> (boxed: Box<Self>)
        ensures
            boxed.raw_bytes() == self.raw_bytes(),
    ;

    /// Convert bytes that are of this type.
    fn from_raw_bytes(bytes: Vec<u8>) -> (boxed: Box<Self>)
        requires
            Self::is_raw(bytes@),
        ensures
            boxed.raw_bytes() == bytes@,
    ;
}

/// Calls [`Vec::into_boxed_slice`]. Claims that the elements are the same.
#[verifier::external_body]
fn boxed_bytes(bytes: Vec<u8>) -> (boxed: Box<[u8]>)
    ensures
        boxed@ == bytes@,
{
    bytes.into_boxed_slice()
}

/// Calls [`String::from_utf8`]. Claims that bytes which are valid UTF-8 become
/// the string that they encode.
#[verifier::external_body]
fn string_from_utf8(bytes: Vec<u8>) -> (string: String)
    requires
        valid_utf8(bytes@),
    ensures
        encode_utf8(string@) == bytes@,
{
    String::from_utf8(bytes).unwrap()
}

/// Calls [`String::into_boxed_str`]. Claims that the text is the same.
#[verifier::external_body]
fn boxed_text(text: String) -> (boxed: Box<str>)
    ensures
        boxed@ == text@,
{
    text.into_boxed_str()
}

/// Copy a slice.
pub fn copy_bytes(bytes: &[u8]) -> (copy: Vec<u8>)
    ensures
        copy@ == bytes@,
{
    let mut copy: Vec<u8> = Vec::new();
    let mut i: usize = 0;
    while i < bytes.len()
        invariant
            i <= bytes@.len(),
            copy@ == bytes@.take(i as int),
        decreases bytes@.len() - i,
    {
        copy.push(bytes[i]);
        i += 1;
        assert(copy@ =~= bytes@.take(i as int));
    }
    assert(copy@ =~= bytes@);
    copy
}

impl Raw for [u8] {
    open spec fn raw_bytes(&self) -> Seq<u8> {
        self@
    }

    open spec fn is_raw(bytes: Seq<u8>) -> bool {
        true
    }

    fn as_raw_bytes(&self) -> (bytes: &[u8]) {
        self
    }

    fn into_boxed(&self) -> (boxed: Box<[u8]>) {
        boxed_bytes(copy_bytes(self))
    }

    fn from_raw_bytes(bytes: Vec<u8>) -> (boxed: Box<[u8]>) {
        boxed_bytes(bytes)
    }
}

impl Raw for str {
    open spec fn raw_bytes(&self) -> Seq<u8> {
        encode_utf8(self@)
    }

    open spec fn is_raw(bytes: Seq<u8>) -> bool {
        valid_utf8(bytes)
    }

    fn as_raw_bytes(&self) -> (bytes: &[u8]) {
        proof {
            vstd::utf8::encode_utf8_valid_utf8(self@);
        }
        self.as_bytes()
    }

    fn into_boxed(&self) -> (boxed: Box<str>) {
        proof {
            vstd::utf8::encode_utf8_valid_utf8(self@);
        }
        boxed_text(string_from_utf8(copy_bytes(self.as_bytes())))
    }

    fn from_raw_bytes(bytes: Vec<u8>) -> (boxed: Box<str>) {
        boxed_text(string_from_utf8(bytes))
    }
}

/// Tracks the bytes of a dynamically sized key that are still to be read.
#[derive(Copy, Clone, Debug)]
pub struct Reader<'k> {
    slice: &'k [u8],
    start: usize,
    end: usize,
    /// Whether a zero byte follows.
    terminate: bool,
}

impl<'k> Reader<'k> {
    /// Read a key.
    pub fn new(slice: &'k [u8], terminate: bool) -> (reader: Self)
        requires
            slice@.len() < usize::MAX,
        ensures
            reader.valid(),
            reader.bytes() == terminated_bytes(slice@, terminate),
            reader.source() == slice@,
            reader.own() == slice@,
    {
        let reader = Reader { slice, start: 0, end: slice.len(), terminate };
        assert(slice@.subrange(0, slice@.len() as int) =~= slice@);
        assert(reader.bytes() =~= terminated_bytes(slice@, terminate));
        reader
    }

    /// Read a scan prefix, which names only the given bytes.
    pub fn new_prefix(prefix: &'k [u8]) -> (reader: Self)
        ensures
            reader.valid(),
            reader.bytes() == prefix@,
            reader.own() == prefix@,
    {
        let reader = Reader { slice: prefix, start: 0, end: prefix.len(), terminate: false };
        assert(prefix@.subrange(0, prefix@.len() as int) =~= prefix@);
        reader
    }

    /// Interpret a reader as a scan prefix rather than as an exact key.
    pub fn into_prefix(self) -> (reader: Self)
        requires
            self.valid(),
        ensures
            reader.valid(),
            reader.bytes() == self.own(),
            reader.own() == self.own(),
            reader.source() == self.source(),
    {
        Reader { terminate: false, ..self }
    }

    /// The range lies in the key.
    spec fn wf(self) -> bool {
        &&& self.start <= self.end <= self.slice@.len() <= usize::MAX
        &&& self.terminate ==> self.end - self.start < usize::MAX
    }

    /// The bytes that are left.
    spec fn rest(self) -> Seq<u8> {
        terminated_bytes(self.own(), self.terminate)
    }

    /// The bytes of the whole key.
    pub closed spec fn source(self) -> Seq<u8> {
        self.slice@
    }

    /// The bytes without the one that is appended.
    pub closed spec fn own(self) -> Seq<u8> {
        self.slice@.subrange(self.start as int, self.end as int)
    }

    /// Number of bytes that the key and an edge have in common.
    fn match_edge<M: Meta>(self, meta: &M) -> (len: usize)
        requires
            self.valid(),
            meta.valid(),
        ensures
            len == common_len(meta.bytes(), self.bytes()),
    {
        let limit: usize = meta.len();
        let total: usize = self.len();
        let mut i: usize = 0;
        while i < limit && i < total
            invariant
                self.valid(),
                meta.valid(),
                limit == meta.bytes().len(),
                total == self.bytes().len(),
                i <= limit,
                i <= total,
                forall|j: int| 0 <= j < i ==> meta.bytes()[j] == self.bytes()[j],
            decreases limit - i,
        {
            if meta.get(i) != self.at(i) {
                proof {
                    lemma_common_len_is(meta.bytes(), self.bytes(), i as nat);
                }
                return i;
            }
            i += 1;
        }
        proof {
            lemma_common_len_is(meta.bytes(), self.bytes(), i as nat);
        }
        i
    }

    fn at(&self, index: usize) -> (byte: u8)
        requires
            self.valid(),
            index < self.bytes().len(),
        ensures
            byte == self.bytes()[index as int],
    {
        if index < self.end - self.start {
            self.slice[self.start + index]
        } else {
            0
        }
    }
}

impl<'k> Read for Reader<'k> {
    type Edge = Le;

    closed spec fn valid(self) -> bool {
        self.wf()
    }

    closed spec fn bytes(self) -> Seq<u8> {
        self.rest()
    }

    proof fn lemma_len(self) {
    }

    fn empty() -> (reader: Self) {
        Reader::new_prefix(&[])
    }

    fn len(self) -> (len: usize) {
        if self.terminate {
            self.end - self.start + 1
        } else {
            self.end - self.start
        }
    }

    fn get_byte(self, index: usize) -> (byte: Option<u8>) {
        if index < self.end - self.start {
            Some(self.slice[self.start + index])
        } else if self.terminate && index == self.end - self.start {
            Some(0)
        } else {
            None
        }
    }

    fn get_edge(self, len: usize) -> (meta: Le) {
        let front = vstd::slice::slice_subrange(self.slice, self.start, self.end);
        let meta = Le::from_slice(front, 0, len);
        proof {
            assert(front@ == self.own());
            assert forall|i: int| 0 <= i < len implies meta.bytes()[i] == self.bytes()[i] by {
                assert(meta.bytes()[i] == (if 0 + i < front@.len() {
                    front@[0 + i]
                } else {
                    0
                }));
            }
            assert(meta.bytes() =~= self.bytes().take(len as int));
        }
        meta
    }

    fn match_prefix(self, meta: &Le) -> (len: usize) {
        self.match_edge(meta)
    }

    fn prefix(self, end: usize) -> (reader: Self)
        ensures
            reader.source() == self.source(),
            reader.own() == (if end <= self.own().len() {
                self.own().take(end as int)
            } else {
                self.own()
            }),
    {
        let own: usize = self.end - self.start;
        let reader = if end <= own {
            Reader { slice: self.slice, start: self.start, end: self.start + end, terminate: false }
        } else {
            self
        };
        proof {
            assert(reader.bytes() =~= self.bytes().take(end as int));
            if end <= own {
                assert(reader.own() =~= self.own().take(end as int));
            }
        }
        reader
    }

    fn suffix(self, start: usize) -> (reader: Self)
        ensures
            reader.source() == self.source(),
            reader.own() == (if start <= self.own().len() {
                self.own().skip(start as int)
            } else {
                Seq::empty()
            }),
    {
        let own: usize = self.end - self.start;
        let reader = if start <= own {
            Reader { start: self.start + start, ..self }
        } else {
            Reader { start: self.end, terminate: false, ..self }
        };
        proof {
            assert(reader.bytes() =~= self.bytes().skip(start as int));
            if start <= own {
                assert(reader.own() =~= self.own().skip(start as int));
            } else {
                assert(reader.own() =~= Seq::<u8>::empty());
            }
        }
        reader
    }

    fn common_prefix(self, other: Self) -> (reader: Self)
        ensures
            reader.source() == self.source(),
    {
        let a: usize = self.len();
        let b: usize = other.len();
        let mut i: usize = 0;
        while i < a && i < b
            invariant
                self.valid(),
                other.valid(),
                a == self.bytes().len(),
                b == other.bytes().len(),
                i <= a,
                i <= b,
                forall|j: int| 0 <= j < i ==> self.bytes()[j] == other.bytes()[j],
            decreases a - i,
        {
            if self.at(i) != other.at(i) {
                proof {
                    lemma_common_len_is(self.bytes(), other.bytes(), i as nat);
                }
                return self.prefix(i);
            }
            i += 1;
        }
        proof {
            lemma_common_len_is(self.bytes(), other.bytes(), i as nat);
        }
        self.prefix(i)
    }
}

/// Constructs the bytes of a dynamically sized key.
#[derive(Debug)]
pub struct Writer<M> {
    pub buffer: Vec<u8>,
    pub edge: PhantomData<M>,
}

impl<M: Meta> Write for Writer<M> {
    type Edge = M;

    open spec fn valid(&self) -> bool {
        self.buffer@.len() <= usize::MAX
    }

    open spec fn bytes(&self) -> Seq<u8> {
        self.buffer@
    }

    open spec fn max() -> nat {
        usize::MAX as nat
    }

    fn capacity() -> (capacity: usize) {
        usize::MAX
    }

    proof fn lemma_len(&self) {
    }

    fn new() -> (writer: Self) {
        Writer { buffer: Vec::new(), edge: PhantomData }
    }

    fn len(&self) -> (len: usize) {
        self.buffer.len()
    }

    fn truncate(&mut self, len: usize) {
        let ghost before = self.buffer@;
        self.buffer.truncate(len);
        assert(self.buffer@ =~= before.take(len as int));
    }

    fn push(&mut self, byte: u8) {
        self.buffer.push(byte);
    }

    fn extend(&mut self, edge: &M) {
        let ghost before = self.buffer@;
        let len: usize = edge.len();
        let mut i: usize = 0;
        assert(before + edge.bytes().take(0) =~= before);
        while i < len
            invariant
                edge.valid(),
                len == edge.bytes().len(),
                i <= len,
                self.buffer@ == before + edge.bytes().take(i as int),
                before.len() + edge.bytes().len() <= usize::MAX,
            decreases len - i,
        {
            self.buffer.push(edge.get(i));
            i += 1;
            assert(self.buffer@ =~= before + edge.bytes().take(i as int));
        }
        assert(edge.bytes().take(len as int) =~= edge.bytes());
    }
}

} // verus!
