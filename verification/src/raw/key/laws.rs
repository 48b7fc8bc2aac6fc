//! Laws of keys: what the bytes of each type of key are.
//!
//! The maps of this crate are stated over the bytes of keys. The laws say for
//! each type which bytes those are, that different keys have different ones, and
//! that their order is that of the keys.
use vstd::prelude::*;
use vstd::utf8::{encode_utf8, valid_utf8};
use crate::bytes::{
    common_len, lemma_common_len, lemma_common_len_is, lemma_lex_irreflexive, lex_lt,
};
use crate::raw::key::dynamic::boxed_slice::BoxedSlice;
use crate::raw::key::dynamic::slice::Slice;
use crate::raw::key::dynamic::{
    rejected, Invariant, Misplaced, NonNull, NullByte, Raw, Terminated,
};
use crate::raw::key::unsigned::{lemma_native_order, Native};
use crate::raw::key::Key;

verus! {

/// The bytes of an integer are its own, most significant first. Integers are
/// kept apart by them, and sort as they do.
pub proof fn law_u16_key(a: u16, b: u16, bytes: Seq<u8>)
    ensures
        a.bytes().len() == 2,
        forall|i: int|
            0 <= i < 2 ==> #[trigger] a.bytes()[i] == ((a >> ((8 - 8 * i) as u16)) & 0xff) as u8,
        <u16 as Key>::borrowed_bytes(&a) == a.bytes(),
        <u16 as Key>::insert_bytes(a) == a.bytes(),
        a.bytes() == b.bytes() <==> a == b,
        lex_lt(a.bytes(), b.bytes()) <==> a < b,
        <u16 as Key>::is_key(bytes) <==> bytes.len() == 2,
        <u16 as Native>::size() == 2,
        a.value() == a,
        a.be_bytes() == a.bytes(),
{
    lemma_native_order(a, b);
}

/// The bytes of an integer are its own, most significant first. Integers are
/// kept apart by them, and sort as they do.
pub proof fn law_u32_key(a: u32, b: u32, bytes: Seq<u8>)
    ensures
        a.bytes().len() == 4,
        forall|i: int|
            0 <= i < 4 ==> #[trigger] a.bytes()[i] == ((a >> ((24 - 8 * i) as u32)) & 0xff) as u8,
        <u32 as Key>::borrowed_bytes(&a) == a.bytes(),
        <u32 as Key>::insert_bytes(a) == a.bytes(),
        a.bytes() == b.bytes() <==> a == b,
        lex_lt(a.bytes(), b.bytes()) <==> a < b,
        <u32 as Key>::is_key(bytes) <==> bytes.len() == 4,
        <u32 as Native>::size() == 4,
        a.value() == a,
        a.be_bytes() == a.bytes(),
{
    lemma_native_order(a, b);
}

/// The bytes of an integer are its own, most significant first. Integers are
/// kept apart by them, and sort as they do.
pub proof fn law_u64_key(a: u64, b: u64, bytes: Seq<u8>)
    ensures
        a.bytes().len() == 8,
        forall|i: int|
            0 <= i < 8 ==> #[trigger] a.bytes()[i] == ((a >> ((56 - 8 * i) as u64)) & 0xff) as u8,
        <u64 as Key>::borrowed_bytes(&a) == a.bytes(),
        <u64 as Key>::insert_bytes(a) == a.bytes(),
        a.bytes() == b.bytes() <==> a == b,
        lex_lt(a.bytes(), b.bytes()) <==> a < b,
        <u64 as Key>::is_key(bytes) <==> bytes.len() == 8,
        <u64 as Native>::size() == 8,
        a.value() == a,
        a.be_bytes() == a.bytes(),
{
    lemma_native_order(a, b);
}

/// The bytes of an integer are its own, most significant first. Integers are
/// kept apart by them, and sort as they do.
pub proof fn law_u128_key(a: u128, b: u128, bytes: Seq<u8>)
    ensures
        a.bytes().len() == 16,
        forall|i: int|
            0 <= i < 16 ==> #[trigger] a.bytes()[i] == ((a >> ((120 - 8 * i) as u128)) & 0xff) as u8,
        <u128 as Key>::borrowed_bytes(&a) == a.bytes(),
        <u128 as Key>::insert_bytes(a) == a.bytes(),
        a.bytes() == b.bytes() <==> a == b,
        lex_lt(a.bytes(), b.bytes()) <==> a < b,
        <u128 as Key>::is_key(bytes) <==> bytes.len() == 16,
        <u128 as Native>::size() == 16,
        a.value() == a,
        a.be_bytes() == a.bytes(),
{
    lemma_native_order(a, b);
}

/// The bytes of an array are all of its elements, in order.
pub proof fn law_array_key<const N: usize>(a: [u8; N], b: [u8; N], bytes: Seq<u8>)
    ensures
        a.bytes() == a@,
        <[u8; N] as Key>::borrowed_bytes(&a) == a@,
        <[u8; N] as Key>::insert_bytes(&a) == a@,
        <[u8; N] as Key>::borrowed_bytes(&a) == <[u8; N] as Key>::borrowed_bytes(&b) <==> (forall|
            i: int,
        |
            0 <= i < N ==> a@[i] == b@[i]),
        <[u8; N] as Key>::is_key(bytes) <==> bytes.len() == N,
{
    if forall|i: int| 0 <= i < N ==> a@[i] == b@[i] {
        assert(a@ =~= b@);
    }
}

/// The raw bytes of a byte slice are all of its elements, in order, and any
/// sequence of bytes makes one.
pub proof fn law_raw_bytes(key: &[u8], bytes: Seq<u8>)
    ensures
        key.raw_bytes() == key@,
        <[u8] as Raw>::is_raw(bytes),
{
}

/// The raw bytes of a text are its UTF-8 encoding, which different texts do not
/// share.
pub proof fn law_raw_text(a: &str, b: &str, bytes: Seq<u8>)
    ensures
        a.raw_bytes() == encode_utf8(a@),
        a.raw_bytes() == b.raw_bytes() <==> a@ == b@,
        <str as Raw>::is_raw(bytes) <==> valid_utf8(bytes),
{
    vstd::utf8::encode_utf8_decode_utf8(a@);
    vstd::utf8::encode_utf8_decode_utf8(b@);
}

/// A zero byte anywhere keeps a key from being valid, and nothing else does. A
/// zero byte is appended to such keys.
pub proof fn law_non_null(raw: Seq<u8>)
    ensures
        NonNull::holds(raw) <==> forall|i: int| 0 <= i < raw.len() ==> #[trigger] raw[i] != 0,
        NonNull::terminates(),
{
    if !NonNull::holds(raw) && forall|i: int| 0 <= i < raw.len() ==> #[trigger] raw[i] != 0 {
        assert(raw.contains(0u8));
        let i = raw.index_of(0);
        assert(raw[i] == 0);
    }
    if NonNull::holds(raw) {
        assert forall|i: int| 0 <= i < raw.len() implies #[trigger] raw[i] != 0 by {
            assert(raw.contains(raw[i]));
        }
    }
}

/// A key is valid if the terminator is its last byte and occurs nowhere else.
/// Nothing is appended to such keys.
pub proof fn law_terminated<const BYTE: u8>(raw: Seq<u8>)
    ensures
        <Terminated<BYTE> as Invariant>::holds(raw) <==> (raw.len() > 0 && forall|i: int|
            0 <= i < raw.len() ==> (#[trigger] raw[i] == BYTE <==> i == raw.len() - 1)),
        !<Terminated<BYTE> as Invariant>::terminates(),
{
    if <Terminated<BYTE> as Invariant>::holds(raw) {
        assert forall|i: int| 0 <= i < raw.len() implies (#[trigger] raw[i] == BYTE <==> i
            == raw.len() - 1) by {}
    }
    if raw.len() > 0 && forall|i: int|
        0 <= i < raw.len() ==> (#[trigger] raw[i] == BYTE <==> i == raw.len() - 1) {
        assert(raw[raw.len() - 1] == BYTE);
    }
}

/// A zero byte at the end keeps the order of sequences without one, and keeps
/// them apart.
proof fn lemma_appended_order(a: Seq<u8>, b: Seq<u8>)
    requires
        NonNull::holds(a),
        NonNull::holds(b),
    ensures
        lex_lt(a.push(0), b.push(0)) <==> lex_lt(a, b),
        a.push(0) == b.push(0) <==> a == b,
{
    let x = a.push(0);
    let y = b.push(0);
    assert(x.drop_last() =~= a);
    assert(y.drop_last() =~= b);
    lemma_common_len(a, b);
    let n = common_len(a, b);
    law_non_null(a);
    law_non_null(b);
    if n == a.len() && n == b.len() {
        assert(a =~= b);
        lemma_lex_irreflexive(a);
        lemma_lex_irreflexive(x);
    } else {
        assert forall|i: int| 0 <= i < n implies x[i] == y[i] by {
            assert(a[i] == b[i]);
        }
        assert(x[n as int] == (if n < a.len() {
            a[n as int]
        } else {
            0
        }));
        assert(y[n as int] == (if n < b.len() {
            b[n as int]
        } else {
            0
        }));
        lemma_common_len_is(x, y, n);
    }
}

/// A borrowed key stands for its raw bytes, with one zero byte at the end if the
/// invariant asks for that. In either form that a map takes it has the same
/// bytes.
pub proof fn law_slice_key<'a, I: Invariant, R: Raw + ?Sized>(key: Slice<'a, I, R>)
    ensures
        key.raw_bytes() == key.inner().raw_bytes(),
        key.bytes() == (if I::terminates() {
            key.raw_bytes() + seq![0u8]
        } else {
            key.raw_bytes()
        }),
        <Slice<'a, I, R> as Key>::borrowed_bytes(key) == key.bytes(),
        <Slice<'a, I, R> as Key>::insert_bytes(key) == key.bytes(),
        <BoxedSlice<I, R> as Key>::borrowed_bytes(key) == key.bytes(),
        <BoxedSlice<I, R> as Key>::insert_bytes(key) == key.bytes(),
{
    assert(key.raw_bytes().push(0) =~= key.raw_bytes() + seq![0u8]);
}

/// An owned key has the bytes of the borrowed key with the same raw bytes.
pub proof fn law_boxed_key<'a, I: Invariant, R: Raw + ?Sized>(
    key: BoxedSlice<I, R>,
    borrowed: Slice<'a, I, R>,
)
    ensures
        key.raw_bytes() == key.boxed().raw_bytes(),
        key.bytes() == (if I::terminates() {
            key.raw_bytes() + seq![0u8]
        } else {
            key.raw_bytes()
        }),
        key.raw_bytes() == borrowed.raw_bytes() ==> key.bytes() == borrowed.bytes(),
{
    key.lemma_boxed();
    assert(key.raw_bytes().push(0) =~= key.raw_bytes() + seq![0u8]);
}

/// Keys without a zero byte are kept apart by their elements, and sort as those
/// do.
pub proof fn law_bytes_order<'a>(a: Slice<'a, NonNull, [u8]>, b: Slice<'a, NonNull, [u8]>)
    requires
        NonNull::holds(a.raw_bytes()),
        NonNull::holds(b.raw_bytes()),
    ensures
        a.bytes() == b.bytes() <==> a.inner()@ == b.inner()@,
        lex_lt(a.bytes(), b.bytes()) <==> lex_lt(a.inner()@, b.inner()@),
{
    lemma_appended_order(a.raw_bytes(), b.raw_bytes());
}

/// Keys of text are kept apart by their characters, and sort as their encodings
/// do.
pub proof fn law_text_order<'a>(a: Slice<'a, NonNull, str>, b: Slice<'a, NonNull, str>)
    requires
        NonNull::holds(a.raw_bytes()),
        NonNull::holds(b.raw_bytes()),
    ensures
        a.bytes() == b.bytes() <==> a.inner()@ == b.inner()@,
        lex_lt(a.bytes(), b.bytes()) <==> lex_lt(
            encode_utf8(a.inner()@),
            encode_utf8(b.inner()@),
        ),
{
    lemma_appended_order(a.raw_bytes(), b.raw_bytes());
    law_raw_text(a.inner(), b.inner(), a.raw_bytes());
}

/// Keys with a terminator are kept apart by their elements, and sort as those
/// do.
pub proof fn law_terminated_order<'a, const BYTE: u8>(
    a: Slice<'a, Terminated<BYTE>, [u8]>,
    b: Slice<'a, Terminated<BYTE>, [u8]>,
)
    ensures
        a.bytes() == b.bytes() <==> a.inner()@ == b.inner()@,
        lex_lt(a.bytes(), b.bytes()) <==> lex_lt(a.inner()@, b.inner()@),
{
}

/// A key that is rejected because of a zero byte is told where the first one is.
pub proof fn law_null_byte(raw: Seq<u8>, error: NullByte)
    requires
        rejected::<NonNull>(raw, error),
    ensures
        error.index < raw.len(),
        raw[error.index as int] == 0,
        forall|i: int| 0 <= i < error.index ==> #[trigger] raw[i] != 0,
{
    let slice = choose|slice: &[u8]|
        slice@ == raw && #[trigger] call_ensures(
            NonNull::validate,
            (slice,),
            Err::<(), NullByte>(error),
        );
    assert forall|i: int| 0 <= i < error.index implies #[trigger] raw[i] != 0 by {
        assert(raw.take(error.index as int)[i] == raw[i]);
        assert(raw.take(error.index as int).contains(raw[i]));
    }
}

/// A key that is rejected because of its terminator is told that there is none,
/// or where the first one is that does not end the key.
pub proof fn law_misplaced<const BYTE: u8>(raw: Seq<u8>, error: Misplaced)
    requires
        rejected::<Terminated<BYTE>>(raw, error),
    ensures
        error is Missing <==> forall|i: int| 0 <= i < raw.len() ==> #[trigger] raw[i] != BYTE,
        error matches Misplaced::Early { index } ==> index < raw.len() - 1 && raw[index as int] == BYTE
            && forall|i: int| 0 <= i < index ==> #[trigger] raw[i] != BYTE,
{
    let slice = choose|slice: &[u8]|
        slice@ == raw && #[trigger] call_ensures(
            <Terminated<BYTE> as Invariant>::validate,
            (slice,),
            Err::<(), Misplaced>(error),
        );
    match error {
        Misplaced::Missing => {
            assert forall|i: int| 0 <= i < raw.len() implies #[trigger] raw[i] != BYTE by {
                assert(raw.contains(raw[i]));
            }
        },
        Misplaced::Early { index } => {
            assert(raw[index as int] == BYTE);
            assert forall|i: int| 0 <= i < index implies #[trigger] raw[i] != BYTE by {
                assert(raw.take(index as int)[i] == raw[i]);
                assert(raw.take(index as int).contains(raw[i]));
            }
        },
    }
}


} // verus!
