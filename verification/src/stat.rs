//! Record internal counters and histograms for performance analysis.
use vstd::multiset::Multiset;
use vstd::prelude::*;
use crate::concurrent::map::ConcurrentMap;
use crate::concurrent::smr::Smr;
use crate::raw::edge::{Edge, Meta};
use crate::raw::key::Key;
use crate::raw::node::{Node, Type};
use crate::raw::shape::laws::{child_bytes, law_occupancy, lemma_holds, lemma_index};
use crate::raw::shape::{at, holds, index, lookup, occupancy, slots_wf, unique, Shape};

verus! {

/// Significant decimal digits that histograms keep.
pub const DIGITS: u8 = 3;

/// Values below this are told apart by a histogram that keeps three
/// significant digits.
pub const EXACT: u64 = 2048;

/// The smallest value that a histogram which keeps three significant digits
/// does not tell apart from `value`.
///
/// From [`EXACT`] on, one more low bit is dropped per doubling.
pub open spec fn lowest(value: u64) -> u64
    decreases value,
{
    if value < EXACT {
        value
    } else {
        (2 * lowest(value / 2)) as u64
    }
}

/// A histogram that keeps three significant digits.
#[verifier::external_body]
pub struct Samples {
    inner: hdrhistogram::Histogram<u64>,
}

/// The recorded values, each at the resolution of the histogram.
pub uninterp spec fn samples(histogram: Samples) -> Multiset<u64>;

/// Calls [`hdrhistogram::Histogram::new`], which makes an auto-resizing
/// histogram. Claims that it is empty; three digits are few enough that the
/// call does not fail.
#[verifier::external_body]
fn new_histogram(digits: u8) -> (histogram: Samples)
    requires
        digits == DIGITS,
    ensures
        samples(histogram) == Multiset::<u64>::empty(),
{
    Samples { inner: hdrhistogram::Histogram::new(digits).unwrap() }
}

/// The recorded values, with one more at the resolution of the histogram.
///
/// The count of a value saturates.
pub open spec fn with_sample(values: Multiset<u64>, value: u64) -> Multiset<u64> {
    if values.count(lowest(value)) < u64::MAX {
        values.insert(lowest(value))
    } else {
        values
    }
}

/// Calls [`hdrhistogram::Histogram::record`] of an auto-resizing histogram,
/// which grows to hold any value. Claims that the value is added at the
/// resolution of the histogram, where the count of a value saturates.
#[verifier::external_body]
fn record_in(histogram: &mut Samples, value: u64)
    ensures
        samples(*final(histogram)) == with_sample(samples(*old(histogram)), value),
{
    histogram.inner.record(value).unwrap()
}

impl View for Samples {
    type V = Multiset<u64>;

    /// The recorded values.
    open spec fn view(&self) -> Multiset<u64> {
        samples(*self)
    }
}

impl Default for Samples {
    fn default() -> (histogram: Self)
        ensures
            histogram@ == Multiset::<u64>::empty(),
    {
        new_histogram(DIGITS)
    }
}

impl Samples {
    /// Record a value.
    pub fn record(&mut self, value: u64)
        ensures
            final(self)@ == with_sample(old(self)@, value),
    {
        record_in(self, value);
    }
}

/// A histogram that was read back.
#[verifier::external_body]
pub struct Archive {
    inner: hdrhistogram::Histogram<u64>,
}

/// The values of a histogram that was read back.
pub uninterp spec fn archived(archive: Archive) -> Multiset<u64>;

/// What [`hdrhistogram::serialization::Deserializer::deserialize`] makes of a
/// text that it reads through [`base64::read::DecoderReader`] of the standard
/// engine: the values of the histogram that the text begins with, `Some(None)`
/// if it begins with none, or `None` if the call panics.
pub uninterp spec fn read_back(text: Seq<char>) -> Option<Option<Multiset<u64>>>;

/// Whether the format has room for each count.
pub open spec fn storable(values: Multiset<u64>) -> bool {
    forall|value: u64| #[trigger] values.count(value) <= i64::MAX
}

/// Calls [`hdrhistogram::serialization::V2DeflateSerializer`], which writes
/// through [`base64::write::EncoderStringWriter`] of the standard engine.
/// Claims that it succeeds exactly where no count is above [`i64::MAX`], the
/// largest that the format has room for, and that what it writes is read back
/// as the same values.
#[verifier::external_body]
fn write_text(histogram: &Samples) -> (text: Option<String>)
    ensures
        text is Some <==> storable(samples(*histogram)),
        text matches Some(text) ==> read_back(text@) == Some(Some(samples(*histogram))),
{
    let engine = &base64::engine::general_purpose::STANDARD;
    let mut writer = base64::write::EncoderStringWriter::new(engine);
    let mut serializer = hdrhistogram::serialization::V2DeflateSerializer::new();
    match hdrhistogram::serialization::Serializer::serialize(
        &mut serializer,
        &histogram.inner,
        &mut writer,
    ) {
        Ok(_) => Some(writer.into_inner()),
        Err(_) => None,
    }
}

/// Calls [`hdrhistogram::serialization::Deserializer::deserialize`], which
/// reads the text through [`base64::read::DecoderReader`] of the standard
/// engine. Claims that what it reads is what the text is named to hold; texts
/// on which the call panics are left out.
#[verifier::external_body]
fn read_text(text: &str) -> (archive: Option<Archive>)
    requires
        read_back(text@) is Some,
    ensures
        read_back(text@) == Some(
            match archive {
                Some(archive) => Some(archived(archive)),
                None => None,
            },
        ),
{
    let engine = &base64::engine::general_purpose::STANDARD;
    let mut reader = base64::read::DecoderReader::new(text.as_bytes(), engine);
    match hdrhistogram::serialization::Deserializer::new().deserialize(&mut reader) {
        Ok(inner) => Some(Archive { inner }),
        Err(_) => None,
    }
}

impl View for Archive {
    type V = Multiset<u64>;

    /// The recorded values.
    open spec fn view(&self) -> Multiset<u64> {
        archived(*self)
    }
}

impl Samples {
    /// Write the histogram as text that can be fed into external tools.
    ///
    /// Returns `None` if a count is too large for the format.
    pub fn serialize(&self) -> (text: Option<String>)
        ensures
            text is Some <==> storable(self@),
            text matches Some(text) ==> read_back(text@) == Some(Some(self@)),
    {
        write_text(self)
    }
}

impl Archive {
    /// Read a histogram back. What follows it in the text is ignored.
    ///
    /// Returns `None` if the text does not begin with a histogram. The text is
    /// to be one that the reader does not panic on, see [`Samples::archive`].
    pub fn deserialize(text: &str) -> (archive: Option<Archive>)
        requires
            read_back(text@) is Some,
        ensures
            read_back(text@) == Some(
                match archive {
                    Some(archive) => Some(archive@),
                    None => None,
                },
            ),
    {
        read_text(text)
    }
}

impl Samples {
    /// Write the histogram as text, and read it back.
    ///
    /// Returns `None` if a count is too large for the format.
    pub fn archive(&self) -> (archive: Option<Archive>)
        ensures
            archive is Some <==> storable(self@),
            archive matches Some(archive) ==> archive@ == self@,
    {
        match self.serialize() {
            Some(text) => Archive::deserialize(text.as_str()),
            None => None,
        }
    }
}

/// What `sample` gives of each edge that has a child.
pub open spec fn tally<V>(shape: Shape<V>, sample: spec_fn(Shape<V>) -> Multiset<u64>) -> Multiset<
    u64,
>
    decreases shape, 0int,
{
    match shape {
        Shape::Null => Multiset::empty(),
        Shape::Value { .. } => sample(shape),
        Shape::Node { slots, .. } => sample(shape).add(
            tally_below(slots, slots.len() as int, sample),
        ),
    }
}

/// What `sample` gives of the first `n` slots.
pub open spec fn tally_below<V>(
    slots: Seq<(u8, Shape<V>)>,
    n: int,
    sample: spec_fn(Shape<V>) -> Multiset<u64>,
) -> Multiset<u64>
    decreases slots, n,
{
    if n <= 0 || n > slots.len() {
        Multiset::empty()
    } else {
        tally_below(slots, n - 1, sample).add(tally(slots[n - 1].1, sample))
    }
}

/// Number of compressed bytes of an edge.
pub open spec fn compressed<V>() -> spec_fn(Shape<V>) -> Multiset<u64> {
    |shape: Shape<V>| Multiset::singleton(lowest(shape.prefix().len() as u64))
}

/// Number of children of a node of the given type.
pub open spec fn children<V>(kind: Type) -> spec_fn(Shape<V>) -> Multiset<u64> {
    |shape: Shape<V>|
        match shape {
            Shape::Node { kind: other, slots, .. } => if other == kind {
                Multiset::singleton(occupancy(slots) as u64)
            } else {
                Multiset::empty()
            },
            _ => Multiset::empty(),
        }
}

/// Sum over the radix bytes less than `n`.
pub open spec fn byte_sum(f: spec_fn(u8) -> nat, n: int) -> nat
    decreases n,
{
    if n <= 0 {
        0
    } else {
        byte_sum(f, n - 1) + f((n - 1) as u8)
    }
}

/// Sums of summands that are the same but for one byte.
proof fn lemma_byte_sum(f: spec_fn(u8) -> nat, g: spec_fn(u8) -> nat, b: u8, n: int)
    requires
        0 <= n <= 256,
        forall|c: u8| c != b ==> #[trigger] f(c) == g(c),
    ensures
        byte_sum(g, n) + (if b < n {
            f(b)
        } else {
            0
        }) == byte_sum(f, n) + (if b < n {
            g(b)
        } else {
            0
        }),
    decreases n,
{
    if n > 0 {
        lemma_byte_sum(f, g, b, n - 1);
        if b != (n - 1) as u8 {
            assert(f((n - 1) as u8) == g((n - 1) as u8));
        }
    }
}

/// The same summands have the same sum.
proof fn lemma_byte_sum_same(f: spec_fn(u8) -> nat, g: spec_fn(u8) -> nat, n: int)
    requires
        0 <= n <= 256,
        forall|c: u8| #[trigger] f(c) == g(c),
    ensures
        byte_sum(f, n) == byte_sum(g, n),
    decreases n,
{
    if n > 0 {
        lemma_byte_sum_same(f, g, n - 1);
        assert(f((n - 1) as u8) == g((n - 1) as u8));
    }
}

/// How often the child under a byte gives `value`, if one of the first `n` slots
/// holds the byte.
spec fn share<V>(
    slots: Seq<(u8, Shape<V>)>,
    n: int,
    sample: spec_fn(Shape<V>) -> Multiset<u64>,
    value: u64,
    b: u8,
) -> nat {
    if exists|i: int| 0 <= i < n && (#[trigger] slots[i]).0 == b {
        tally(lookup(slots, b), sample).count(value)
    } else {
        0
    }
}

proof fn lemma_shares<V>(
    slots: Seq<(u8, Shape<V>)>,
    n: int,
    sample: spec_fn(Shape<V>) -> Multiset<u64>,
    value: u64,
)
    requires
        unique(slots),
        0 <= n <= slots.len(),
    ensures
        tally_below(slots, n, sample).count(value) == byte_sum(
            |b: u8| share(slots, n, sample, value, b),
            256,
        ),
    decreases n,
{
    let now = |b: u8| share(slots, n, sample, value, b);
    if n == 0 {
        let zero = |b: u8| 0nat;
        lemma_byte_sum_same(now, zero, 256);
        lemma_no_sum(256);
    } else {
        let before = |b: u8| share(slots, n - 1, sample, value, b);
        let b = slots[n - 1].0;
        lemma_shares(slots, n - 1, sample, value);
        lemma_index(slots, n - 1, b);
        assert forall|c: u8| c != b implies #[trigger] before(c) == now(c) by {
            if exists|i: int| 0 <= i < n && (#[trigger] slots[i]).0 == c {
                let i = choose|i: int| 0 <= i < n && (#[trigger] slots[i]).0 == c;
                assert(i < n - 1);
            }
        }
        assert(before(b) == 0) by {
            if exists|i: int| 0 <= i < n - 1 && (#[trigger] slots[i]).0 == b {
                let i = choose|i: int| 0 <= i < n - 1 && (#[trigger] slots[i]).0 == b;
                assert(slots[i].0 == slots[n - 1].0);
            }
        }
        assert(now(b) == tally(slots[n - 1].1, sample).count(value));
        lemma_byte_sum(before, now, b, 256);
    }
}

proof fn lemma_no_sum(n: int)
    requires
        0 <= n,
    ensures
        byte_sum(|b: u8| 0nat, n) == 0,
    decreases n,
{
    if n > 0 {
        lemma_no_sum(n - 1);
    }
}

/// Statistics of a tree: an edge that leads to a value is sampled once, and an
/// edge that leads to a node once, together with the children of the node under
/// each radix byte. Nothing else is.
pub proof fn law_tally<V>(
    shape: Shape<V>,
    sample: spec_fn(Shape<V>) -> Multiset<u64>,
    value: u64,
)
    ensures
        shape is Null ==> tally(shape, sample).count(value) == 0,
        shape is Value ==> tally(shape, sample).count(value) == sample(shape).count(value),
        shape matches Shape::Node { slots, .. } ==> unique(slots) ==> tally(shape, sample).count(
            value,
        ) == sample(shape).count(value) + byte_sum(
            |b: u8| tally(lookup(slots, b), sample).count(value),
            256,
        ),
{
    if let Shape::Node { slots, .. } = shape {
        if unique(slots) {
            let n = slots.len() as int;
            lemma_shares(slots, n, sample, value);
            let with = |b: u8| share(slots, n, sample, value, b);
            let all = |b: u8| tally(lookup(slots, b), sample).count(value);
            assert forall|b: u8| #[trigger] with(b) == all(b) by {
                if holds(slots, b) {
                    lemma_holds(slots, b);
                    assert(slots[index(slots, b)].0 == b);
                } else {
                    if exists|i: int| 0 <= i < n && (#[trigger] slots[i]).0 == b {
                        let i = choose|i: int| 0 <= i < n && (#[trigger] slots[i]).0 == b;
                        assert(at(slots, i, b));
                    }
                }
            }
            lemma_byte_sum_same(with, all, 256);
        }
    }
}

/// The sample of a node is the number of its radix bytes that lead to a child,
/// whatever slots it has, and counts for the type of the node alone.
pub proof fn law_children<V>(shape: Shape<V>, kind: Type)
    requires
        shape matches Shape::Node { kind, slots, .. } ==> slots_wf(kind, slots),
    ensures
        children(kind)(shape) == (match shape {
            Shape::Node { kind: own, slots, .. } => if own == kind {
                Multiset::singleton(child_bytes(slots).len() as u64)
            } else {
                Multiset::empty()
            },
            _ => Multiset::empty(),
        }),
        shape matches Shape::Node { slots, .. } ==> child_bytes(slots).len() <= 256,
{
    if let Shape::Node { kind: own, slots, .. } = shape {
        law_occupancy(own, slots);
        lemma_occupancy(slots, slots.len() as int);
    }
}

/// The sample of an edge is the number of bytes on it, which a histogram that
/// keeps three digits tells apart as long as there are fewer than two thousand.
pub proof fn law_compressed<V>(shape: Shape<V>)
    requires
        shape.prefix().len() < EXACT,
    ensures
        compressed()(shape) == Multiset::singleton(shape.prefix().len() as u64),
        shape matches Shape::Value { prefix, .. } ==> shape.prefix() == prefix,
        shape matches Shape::Node { prefix, .. } ==> shape.prefix() == prefix,
{
}

/// A histogram gives a value back with an error of less than a thousandth of it,
/// and small values exactly.
pub proof fn law_resolution(value: u64)
    ensures
        value < 2048 ==> lowest(value) == value,
        lowest(value) <= value,
        value >= 2048 ==> (value - lowest(value) + 1) * 1024 <= value,
    decreases value,
{
    if value >= 2048 {
        law_resolution(value / 2);
    }
}

/// Recording a value adds one to what it is counted under, and to nothing else.
pub proof fn law_recorded(values: Multiset<u64>, value: u64, other: u64)
    requires
        values.count(lowest(value)) < u64::MAX,
    ensures
        with_sample(values, value).count(lowest(value)) == values.count(lowest(value)) + 1,
        other != lowest(value) ==> with_sample(values, value).count(other) == values.count(other),
        with_sample(values, value).len() == values.len() + 1,
{
}

/// Process-level statistics for a [`ConcurrentMap`].
pub struct Process {
    /// Number of compressed bytes of each edge.
    pub compression: Samples,
    /// Number of children of each node with three slots.
    pub node_3: Samples,
    /// Number of children of each node with fifteen slots.
    pub node_15: Samples,
    /// Number of children of each node with forty-seven slots.
    pub node_47: Samples,
    /// Number of children of each node with a slot per byte.
    pub node_256: Samples,
    /// Number of retired allocations that are not known to be dropped.
    pub garbage: u32,
}

/// The statistics `after` are `before` with those of a tree added.
pub open spec fn counted<V>(before: Process, after: Process, shape: Shape<V>) -> bool {
    &&& after.compression@ == before.compression@.add(tally(shape, compressed()))
    &&& after.node_3@ == before.node_3@.add(tally(shape, children(Type::Node3)))
    &&& after.node_15@ == before.node_15@.add(tally(shape, children(Type::Node15)))
    &&& after.node_47@ == before.node_47@.add(tally(shape, children(Type::Node47)))
    &&& after.node_256@ == before.node_256@.add(tally(shape, children(Type::Node256)))
    &&& after.garbage == before.garbage
}

/// There are at most as many samples as edges.
pub open spec fn small<V>(process: Process, shape: Shape<V>) -> bool {
    let edges = tally(shape, compressed()).len();
    &&& process.compression@.len() + edges < u64::MAX
    &&& process.node_3@.len() + edges < u64::MAX
    &&& process.node_15@.len() + edges < u64::MAX
    &&& process.node_47@.len() + edges < u64::MAX
    &&& process.node_256@.len() + edges < u64::MAX
}

/// A node has at most as many samples as it has edges.
proof fn lemma_tally_len<V>(shape: Shape<V>, kind: Type)
    ensures
        tally(shape, children(kind)).len() <= tally(shape, compressed()).len(),
    decreases shape, 0int,
{
    if let Shape::Node { slots, .. } = shape {
        lemma_tally_below_len(slots, slots.len() as int, kind);
    }
}

proof fn lemma_tally_below_len<V>(slots: Seq<(u8, Shape<V>)>, n: int, kind: Type)
    ensures
        tally_below(slots, n, children(kind)).len() <= tally_below(slots, n, compressed()).len(),
    decreases slots, n,
{
    if 0 < n <= slots.len() {
        lemma_tally_below_len(slots, n - 1, kind);
        lemma_tally_len(slots[n - 1].1, kind);
    }
}

/// The first slots have at most as many edges as all of them.
proof fn lemma_tally_below_mono<V>(slots: Seq<(u8, Shape<V>)>, n: int, m: int)
    requires
        0 <= n <= m <= slots.len(),
    ensures
        tally_below(slots, n, compressed()).len() <= tally_below(slots, m, compressed()).len(),
    decreases m - n,
{
    if n < m {
        lemma_tally_below_mono(slots, n, m - 1);
    }
}

/// The statistics `after` are `before` with those of the first slots added.
pub open spec fn counted_below<V>(
    before: Process,
    after: Process,
    slots: Seq<(u8, Shape<V>)>,
    n: int,
) -> bool {
    &&& after.compression@ == before.compression@.add(tally_below(slots, n, compressed()))
    &&& after.node_3@ == before.node_3@.add(tally_below(slots, n, children(Type::Node3)))
    &&& after.node_15@ == before.node_15@.add(tally_below(slots, n, children(Type::Node15)))
    &&& after.node_47@ == before.node_47@.add(tally_below(slots, n, children(Type::Node47)))
    &&& after.node_256@ == before.node_256@.add(tally_below(slots, n, children(Type::Node256)))
    &&& after.garbage == before.garbage
}

/// There is room for the samples of all slots.
pub open spec fn small_below<V>(process: Process, slots: Seq<(u8, Shape<V>)>) -> bool {
    let edges = tally_below(slots, slots.len() as int, compressed()).len();
    &&& process.compression@.len() + edges < u64::MAX
    &&& process.node_3@.len() + edges < u64::MAX
    &&& process.node_15@.len() + edges < u64::MAX
    &&& process.node_47@.len() + edges < u64::MAX
    &&& process.node_256@.len() + edges < u64::MAX
}

/// Multisets can be added in any grouping.
proof fn lemma_add(x: Multiset<u64>, a: Multiset<u64>, b: Multiset<u64>)
    ensures
        x.add(a).add(b) == x.add(a.add(b)),
        x.add(Multiset::empty()) == x,
{
    assert(x.add(a).add(b) =~= x.add(a.add(b)));
    assert(x.add(Multiset::empty()) =~= x);
}

/// Inserting is adding one.
proof fn lemma_insert(x: Multiset<u64>, value: u64)
    ensures
        x.insert(value) == x.add(Multiset::singleton(value)),
{
    assert(x.insert(value) =~= x.add(Multiset::singleton(value)));
}

/// Nothing is added by a tree without edges.
proof fn lemma_add_empty(process: Process)
    ensures
        process.compression@.add(Multiset::empty()) == process.compression@,
        process.node_3@.add(Multiset::empty()) == process.node_3@,
        process.node_15@.add(Multiset::empty()) == process.node_15@,
        process.node_47@.add(Multiset::empty()) == process.node_47@,
        process.node_256@.add(Multiset::empty()) == process.node_256@,
{
    lemma_add(process.compression@, Multiset::empty(), Multiset::empty());
    lemma_add(process.node_3@, Multiset::empty(), Multiset::empty());
    lemma_add(process.node_15@, Multiset::empty(), Multiset::empty());
    lemma_add(process.node_47@, Multiset::empty(), Multiset::empty());
    lemma_add(process.node_256@, Multiset::empty(), Multiset::empty());
}

/// Count one more slot.
proof fn lemma_add_below<V>(
    base: Process,
    mid: Process,
    after: Process,
    slots: Seq<(u8, Shape<V>)>,
    i: int,
)
    requires
        0 <= i < slots.len(),
        counted_below(base, mid, slots, i),
        counted(mid, after, slots[i].1),
    ensures
        counted_below(base, after, slots, i + 1),
{
    lemma_add(
        base.compression@,
        tally_below(slots, i, compressed()),
        tally(slots[i].1, compressed()),
    );
    lemma_add(
        base.node_3@,
        tally_below(slots, i, children(Type::Node3)),
        tally(slots[i].1, children(Type::Node3)),
    );
    lemma_add(
        base.node_15@,
        tally_below(slots, i, children(Type::Node15)),
        tally(slots[i].1, children(Type::Node15)),
    );
    lemma_add(
        base.node_47@,
        tally_below(slots, i, children(Type::Node47)),
        tally(slots[i].1, children(Type::Node47)),
    );
    lemma_add(
        base.node_256@,
        tally_below(slots, i, children(Type::Node256)),
        tally(slots[i].1, children(Type::Node256)),
    );
}

/// A node and its slots make up its statistics.
proof fn lemma_add_node<V>(before: Process, base: Process, after: Process, shape: Shape<V>)
    requires
        shape is Node,
        base.compression@ == before.compression@.add(compressed()(shape)),
        base.node_3@ == before.node_3@.add(children(Type::Node3)(shape)),
        base.node_15@ == before.node_15@.add(children(Type::Node15)(shape)),
        base.node_47@ == before.node_47@.add(children(Type::Node47)(shape)),
        base.node_256@ == before.node_256@.add(children(Type::Node256)(shape)),
        base.garbage == before.garbage,
        counted_below(base, after, shape->slots, shape->slots.len() as int),
    ensures
        counted(before, after, shape),
{
    let slots = shape->slots;
    let n = slots.len() as int;
    lemma_add(before.compression@, compressed()(shape), tally_below(slots, n, compressed()));
    lemma_add(
        before.node_3@,
        children(Type::Node3)(shape),
        tally_below(slots, n, children(Type::Node3)),
    );
    lemma_add(
        before.node_15@,
        children(Type::Node15)(shape),
        tally_below(slots, n, children(Type::Node15)),
    );
    lemma_add(
        before.node_47@,
        children(Type::Node47)(shape),
        tally_below(slots, n, children(Type::Node47)),
    );
    lemma_add(
        before.node_256@,
        children(Type::Node256)(shape),
        tally_below(slots, n, children(Type::Node256)),
    );
}

/// No more slots have a child than there are slots.
proof fn lemma_occupancy<V>(slots: Seq<(u8, Shape<V>)>, n: int)
    requires
        0 <= n <= slots.len(),
    ensures
        crate::raw::shape::live_by_slot(slots, n).len() <= n,
    decreases n,
{
    if n > 0 {
        lemma_occupancy(slots, n - 1);
    }
}

/// Few enough samples leave room for each value.
proof fn lemma_room(process: Process, value: u64)
    requires
        process.compression@.len() < u64::MAX,
        process.node_3@.len() < u64::MAX,
        process.node_15@.len() < u64::MAX,
        process.node_47@.len() < u64::MAX,
        process.node_256@.len() < u64::MAX,
    ensures
        process.compression@.count(value) < u64::MAX,
        process.node_3@.count(value) < u64::MAX,
        process.node_15@.count(value) < u64::MAX,
        process.node_47@.count(value) < u64::MAX,
        process.node_256@.count(value) < u64::MAX,
{
    broadcast use vstd::multiset::axiom_count_le_len;

}

/// Count an edge and everything below it.
#[verifier::rlimit(60)]
fn visit<M: Meta, V>(edge: &Edge<M, V>, process: &mut Process)
    requires
        edge.wf(),
        small(*old(process), edge.shape()),
    ensures
        counted(*old(process), *final(process), edge.shape()),
    decreases edge,
{
    let ghost before = *process;
    let ghost shape = edge.shape();
    match edge {
        Edge::Null => {
            proof {
                lemma_add_empty(before);
            }
        },
        Edge::Value { meta, value: _ } => {
            proof {
                meta.lemma_valid();
                lemma_add_empty(before);
            }
            proof {
                lemma_room(before, lowest(meta.bytes().len() as u64));
            }
            process.compression.record(meta.len() as u64);
            proof {
                lemma_insert(before.compression@, lowest(meta.bytes().len() as u64));
            }
        },
        Edge::Node { meta, node } => {
            proof {
                meta.lemma_valid();
                edge.lemma_shape_wf();
            }
            let ghost slots = shape->slots;
            let ghost kind = shape->kind;
            proof {
                lemma_room(before, lowest(meta.bytes().len() as u64));
            }
            process.compression.record(meta.len() as u64);
            let count: usize = node.len();
            proof {
                assert(node.slots() =~= slots);
                lemma_occupancy(slots, slots.len() as int);
                lemma_room(before, count as u64);
            }
            match node.header.node_type() {
                Type::Node3 => process.node_3.record(count as u64),
                Type::Node15 => process.node_15.record(count as u64),
                Type::Node47 => process.node_47.record(count as u64),
                Type::Node256 => process.node_256.record(count as u64),
            }
            let mut i: usize = 0;
            let ghost base = *process;
            proof {
                lemma_add_empty(base);
                lemma_add_empty(before);
                lemma_insert(before.compression@, lowest(meta.bytes().len() as u64));
                lemma_insert(before.node_3@, count as u64);
                lemma_insert(before.node_15@, count as u64);
                lemma_insert(before.node_47@, count as u64);
                lemma_insert(before.node_256@, count as u64);
            }
            while i < node.edges.len()
                invariant
                    edge.wf(),
                    *edge == (Edge::Node { meta: *meta, node: *node }),
                    slots == edge.shape()->slots,
                    node.edges@.len() == slots.len(),
                    i <= node.edges@.len(),
                    counted_below(base, *process, slots, i as int),
                    small_below(base, slots),
                decreases node.edges@.len() - i,
            {
                proof {
                    assert(slots[i as int].1 == node.edges@[i as int].shape());
                    assert(node.edges@[i as int].wf());
                    lemma_tally_below_mono(slots, i as int + 1, slots.len() as int);
                    lemma_tally_below_len(slots, i as int, Type::Node3);
                    lemma_tally_below_len(slots, i as int, Type::Node15);
                    lemma_tally_below_len(slots, i as int, Type::Node47);
                    lemma_tally_below_len(slots, i as int, Type::Node256);
                    assert(decreases_to!(edge => node.edges@[i as int]));
                }
                let ghost mid = *process;
                visit(&node.edges[i], process);
                proof {
                    lemma_add_below(base, mid, *process, slots, i as int);
                }
                i += 1;
            }
            proof {
                lemma_add_node(before, base, *process, shape);
            }
        },
    }
}

/// Dump process-level statistics for a concurrent map instance.
pub fn process<K: Key, V, S: Smr<V>>(map: &ConcurrentMap<K, V, S>) -> (process: Process)
    requires
        map.wf(),
        tally(map.seq.root.shape(), compressed()).len() < u64::MAX,
    ensures
        process.compression@ == tally(map.seq.root.shape(), compressed()),
        process.node_3@ == tally(map.seq.root.shape(), children(Type::Node3)),
        process.node_15@ == tally(map.seq.root.shape(), children(Type::Node15)),
        process.node_47@ == tally(map.seq.root.shape(), children(Type::Node47)),
        process.node_256@ == tally(map.seq.root.shape(), children(Type::Node256)),
        call_ensures(<S as Smr<V>>::garbage, (&map.smr,), process.garbage),
{
    let garbage: u32 = map.smr.garbage();
    let mut process = Process {
        compression: Samples::default(),
        node_3: Samples::default(),
        node_15: Samples::default(),
        node_47: Samples::default(),
        node_256: Samples::default(),
        garbage,
    };
    let ghost before = process;
    let ghost shape = map.seq.root.shape();
    visit(&map.seq.root, &mut process);
    proof {
        assert(Multiset::empty().add(tally(shape, compressed())) =~= tally(shape, compressed()));
        assert(Multiset::empty().add(tally(shape, children(Type::Node3))) =~= tally(
            shape,
            children(Type::Node3),
        ));
        assert(Multiset::empty().add(tally(shape, children(Type::Node15))) =~= tally(
            shape,
            children(Type::Node15),
        ));
        assert(Multiset::empty().add(tally(shape, children(Type::Node47))) =~= tally(
            shape,
            children(Type::Node47),
        ));
        assert(Multiset::empty().add(tally(shape, children(Type::Node256))) =~= tally(
            shape,
            children(Type::Node256),
        ));
    }
    process
}

/// Events that a thread counts.
#[derive(Copy, Clone, Debug, PartialEq, Eq, Structural)]
pub enum Counter {
    InsertPessimistic,
    UpdatePessimistic,
    Retire,
    FreeConflict,
    FreeRetire,
    FreeReclaim,
    FreeDrop,
    HazardMatch,
    Node47Consistent,
    Node47CasSuccess,
    Node47CasFailure,
    EntriesOne,
    EntriesMany,
}

/// Quantities that a thread keeps the maximum of.
#[derive(Copy, Clone, Debug, PartialEq, Eq, Structural)]
pub enum Max {
    RetireCache,
}

/// Quantities that a thread keeps a histogram of.
#[derive(Copy, Clone, Debug, PartialEq, Eq, Structural)]
pub enum Record {
    Flush,
    FreezePop,
    ReclaimDepth,
    ReclaimAge0,
    ReclaimAge1,
    ReclaimAge2,
    ReclaimAge3,
    RemovePop,
}

/// Thread-level statistics for a [`ConcurrentMap`].
pub struct Thread {
    pub insert_pessimistic: u64,
    pub update_pessimistic: u64,
    pub flush: Samples,
    pub retire: u64,
    pub retire_cache: u64,
    pub free_conflict: u64,
    pub free_retire: u64,
    pub free_reclaim: u64,
    pub free_drop: u64,
    pub hazard_match: u64,
    pub entries_one: u64,
    pub entries_many: u64,
    pub node_47_consistent: u64,
    pub node_47_cas_success: u64,
    pub node_47_cas_failure: u64,
    pub freeze_pop: Samples,
    pub reclaim_depth: Samples,
    pub reclaim_age_0: Samples,
    pub reclaim_age_1: Samples,
    pub reclaim_age_2: Samples,
    pub reclaim_age_3: Samples,
    pub remove_pop: Samples,
}

impl Thread {
    /// How often an event was counted.
    pub open spec fn count(self, counter: Counter) -> u64 {
        match counter {
            Counter::InsertPessimistic => self.insert_pessimistic,
            Counter::UpdatePessimistic => self.update_pessimistic,
            Counter::Retire => self.retire,
            Counter::FreeConflict => self.free_conflict,
            Counter::FreeRetire => self.free_retire,
            Counter::FreeReclaim => self.free_reclaim,
            Counter::FreeDrop => self.free_drop,
            Counter::HazardMatch => self.hazard_match,
            Counter::EntriesOne => self.entries_one,
            Counter::EntriesMany => self.entries_many,
            Counter::Node47Consistent => self.node_47_consistent,
            Counter::Node47CasSuccess => self.node_47_cas_success,
            Counter::Node47CasFailure => self.node_47_cas_failure,
        }
    }

    /// The values that were recorded.
    pub open spec fn recorded(self, record: Record) -> Multiset<u64> {
        match record {
            Record::Flush => self.flush@,
            Record::FreezePop => self.freeze_pop@,
            Record::ReclaimDepth => self.reclaim_depth@,
            Record::ReclaimAge0 => self.reclaim_age_0@,
            Record::ReclaimAge1 => self.reclaim_age_1@,
            Record::ReclaimAge2 => self.reclaim_age_2@,
            Record::ReclaimAge3 => self.reclaim_age_3@,
            Record::RemovePop => self.remove_pop@,
        }
    }

    /// Nothing was counted or recorded.
    pub open spec fn is_reset(self) -> bool {
        &&& forall|counter: Counter| #[trigger] self.count(counter) == 0
        &&& forall|record: Record| #[trigger] self.recorded(record) == Multiset::<u64>::empty()
        &&& self.retire_cache == 0
    }
}

/// Each event has the field of its name, and each quantity too.
pub proof fn law_fields(thread: Thread)
    ensures
        thread.count(Counter::InsertPessimistic) == thread.insert_pessimistic,
        thread.count(Counter::UpdatePessimistic) == thread.update_pessimistic,
        thread.count(Counter::Retire) == thread.retire,
        thread.count(Counter::FreeConflict) == thread.free_conflict,
        thread.count(Counter::FreeRetire) == thread.free_retire,
        thread.count(Counter::FreeReclaim) == thread.free_reclaim,
        thread.count(Counter::FreeDrop) == thread.free_drop,
        thread.count(Counter::HazardMatch) == thread.hazard_match,
        thread.count(Counter::EntriesOne) == thread.entries_one,
        thread.count(Counter::EntriesMany) == thread.entries_many,
        thread.count(Counter::Node47Consistent) == thread.node_47_consistent,
        thread.count(Counter::Node47CasSuccess) == thread.node_47_cas_success,
        thread.count(Counter::Node47CasFailure) == thread.node_47_cas_failure,
        thread.recorded(Record::Flush) == thread.flush@,
        thread.recorded(Record::FreezePop) == thread.freeze_pop@,
        thread.recorded(Record::ReclaimDepth) == thread.reclaim_depth@,
        thread.recorded(Record::ReclaimAge0) == thread.reclaim_age_0@,
        thread.recorded(Record::ReclaimAge1) == thread.reclaim_age_1@,
        thread.recorded(Record::ReclaimAge2) == thread.reclaim_age_2@,
        thread.recorded(Record::ReclaimAge3) == thread.reclaim_age_3@,
        thread.recorded(Record::RemovePop) == thread.remove_pop@,
        thread.is_reset() ==> thread.retire_cache == 0 && thread.retire == 0 && thread.free_conflict
            == 0 && thread.entries_one == 0 && thread.entries_many == 0 && thread.hazard_match == 0
            && thread.insert_pessimistic == 0 && thread.update_pessimistic == 0 && thread.free_retire
            == 0 && thread.free_reclaim == 0 && thread.free_drop == 0 && thread.node_47_consistent
            == 0 && thread.node_47_cas_success == 0 && thread.node_47_cas_failure == 0,
        thread.is_reset() ==> thread.flush@.len() == 0 && thread.freeze_pop@.len() == 0
            && thread.reclaim_depth@.len() == 0 && thread.reclaim_age_0@.len() == 0
            && thread.reclaim_age_1@.len() == 0 && thread.reclaim_age_2@.len() == 0
            && thread.reclaim_age_3@.len() == 0 && thread.remove_pop@.len() == 0,
{
    if thread.is_reset() {
        assert(thread.count(Counter::InsertPessimistic) == 0);
        assert(thread.count(Counter::UpdatePessimistic) == 0);
        assert(thread.count(Counter::Retire) == 0);
        assert(thread.count(Counter::FreeConflict) == 0);
        assert(thread.count(Counter::FreeRetire) == 0);
        assert(thread.count(Counter::FreeReclaim) == 0);
        assert(thread.count(Counter::FreeDrop) == 0);
        assert(thread.count(Counter::HazardMatch) == 0);
        assert(thread.count(Counter::EntriesOne) == 0);
        assert(thread.count(Counter::EntriesMany) == 0);
        assert(thread.count(Counter::Node47Consistent) == 0);
        assert(thread.count(Counter::Node47CasSuccess) == 0);
        assert(thread.count(Counter::Node47CasFailure) == 0);
        assert(thread.recorded(Record::Flush) == Multiset::<u64>::empty());
        assert(thread.recorded(Record::FreezePop) == Multiset::<u64>::empty());
        assert(thread.recorded(Record::ReclaimDepth) == Multiset::<u64>::empty());
        assert(thread.recorded(Record::ReclaimAge0) == Multiset::<u64>::empty());
        assert(thread.recorded(Record::ReclaimAge1) == Multiset::<u64>::empty());
        assert(thread.recorded(Record::ReclaimAge2) == Multiset::<u64>::empty());
        assert(thread.recorded(Record::ReclaimAge3) == Multiset::<u64>::empty());
        assert(thread.recorded(Record::RemovePop) == Multiset::<u64>::empty());
    }
}

impl Default for Thread {
    fn default() -> (thread: Self)
        ensures
            thread.is_reset(),
    {
        Thread {
            insert_pessimistic: 0,
            update_pessimistic: 0,
            flush: Samples::default(),
            retire: 0,
            retire_cache: 0,
            free_conflict: 0,
            free_retire: 0,
            free_reclaim: 0,
            free_drop: 0,
            hazard_match: 0,
            entries_one: 0,
            entries_many: 0,
            node_47_consistent: 0,
            node_47_cas_success: 0,
            node_47_cas_failure: 0,
            freeze_pop: Samples::default(),
            reclaim_depth: Samples::default(),
            reclaim_age_0: Samples::default(),
            reclaim_age_1: Samples::default(),
            reclaim_age_2: Samples::default(),
            reclaim_age_3: Samples::default(),
            remove_pop: Samples::default(),
        }
    }
}

/// Thread-level statistics of one thread.
pub struct Recorder {
    pub thread: Thread,
}

impl Default for Recorder {
    fn default() -> (recorder: Self)
        ensures
            recorder.thread.is_reset(),
    {
        Recorder { thread: Thread::default() }
    }
}

/// Dump thread-level statistics.
pub fn thread(recorder: &Recorder) -> (thread: &Thread)
    ensures
        *thread == recorder.thread,
{
    &recorder.thread
}

/// Start recording thread-level statistics, in all threads of the process that
/// share the flag.
pub fn start(recording: &mut bool)
    ensures
        *final(recording),
{
    *recording = true;
}

/// Stop recording thread-level statistics, in all threads of the process that
/// share the flag.
pub fn stop(recording: &mut bool)
    ensures
        !*final(recording),
{
    *recording = false;
}

/// Reset thread-level statistics.
pub fn reset(recorder: &mut Recorder)
    ensures
        final(recorder).thread.is_reset(),
{
    recorder.thread = Thread::default();
}

/// Count an event, if statistics are recorded.
#[verifier::rlimit(80)]
#[verifier::spinoff_prover]
pub fn increment(recorder: &mut Recorder, recording: bool, counter: Counter)
    ensures
        !recording ==> *final(recorder) == *old(recorder),
        forall|other: Counter| #[trigger]
            final(recorder).thread.count(other) == (if recording && other == counter {
                old(recorder).thread.count(other).wrapping_add(1)
            } else {
                old(recorder).thread.count(other)
            }),
        forall|record: Record| #[trigger]
            final(recorder).thread.recorded(record) == old(recorder).thread.recorded(record),
        final(recorder).thread.retire_cache == old(recorder).thread.retire_cache,
{
    if !recording {
        return ;
    }
    let thread = &mut recorder.thread;
    match counter {
        Counter::InsertPessimistic => thread.insert_pessimistic = thread.insert_pessimistic.wrapping_add(1),
        Counter::UpdatePessimistic => thread.update_pessimistic = thread.update_pessimistic.wrapping_add(1),
        Counter::Retire => thread.retire = thread.retire.wrapping_add(1),
        Counter::FreeConflict => thread.free_conflict = thread.free_conflict.wrapping_add(1),
        Counter::FreeRetire => thread.free_retire = thread.free_retire.wrapping_add(1),
        Counter::FreeReclaim => thread.free_reclaim = thread.free_reclaim.wrapping_add(1),
        Counter::FreeDrop => thread.free_drop = thread.free_drop.wrapping_add(1),
        Counter::HazardMatch => thread.hazard_match = thread.hazard_match.wrapping_add(1),
        Counter::EntriesOne => thread.entries_one = thread.entries_one.wrapping_add(1),
        Counter::EntriesMany => thread.entries_many = thread.entries_many.wrapping_add(1),
        Counter::Node47Consistent => thread.node_47_consistent = thread.node_47_consistent.wrapping_add(1),
        Counter::Node47CasSuccess => thread.node_47_cas_success = thread.node_47_cas_success.wrapping_add(1),
        Counter::Node47CasFailure => thread.node_47_cas_failure = thread.node_47_cas_failure.wrapping_add(1),
    }
}

/// Keep the maximum of a quantity, if statistics are recorded.
pub fn max(recorder: &mut Recorder, recording: bool, max: Max, value: u64)
    ensures
        final(recorder).thread == (Thread {
            retire_cache: if recording && value > old(recorder).thread.retire_cache {
                value
            } else {
                old(recorder).thread.retire_cache
            },
            ..old(recorder).thread
        }),
{
    if !recording {
        return ;
    }
    match max {
        Max::RetireCache => {
            if value > recorder.thread.retire_cache {
                recorder.thread.retire_cache = value;
            }
        },
    }
}

/// Record a quantity, if statistics are recorded.
#[verifier::rlimit(80)]
#[verifier::spinoff_prover]
pub fn record(recorder: &mut Recorder, recording: bool, record: Record, value: u64)
    ensures
        !recording ==> *final(recorder) == *old(recorder),
        forall|other: Record| #[trigger]
            final(recorder).thread.recorded(other) == (if recording && other == record {
                with_sample(old(recorder).thread.recorded(other), value)
            } else {
                old(recorder).thread.recorded(other)
            }),
        forall|counter: Counter| #[trigger]
            final(recorder).thread.count(counter) == old(recorder).thread.count(counter),
        final(recorder).thread.retire_cache == old(recorder).thread.retire_cache,
{
    if !recording {
        return ;
    }
    let thread = &mut recorder.thread;
    match record {
        Record::Flush => thread.flush.record(value),
        Record::FreezePop => thread.freeze_pop.record(value),
        Record::ReclaimDepth => thread.reclaim_depth.record(value),
        Record::ReclaimAge0 => thread.reclaim_age_0.record(value),
        Record::ReclaimAge1 => thread.reclaim_age_1.record(value),
        Record::ReclaimAge2 => thread.reclaim_age_2.record(value),
        Record::ReclaimAge3 => thread.reclaim_age_3.record(value),
        Record::RemovePop => thread.remove_pop.record(value),
    }
}

/// What an operation has to report for statistics.
#[derive(Copy, Clone, Debug, PartialEq, Eq, Structural)]
pub enum Event {
    /// Something happened.
    Count(Counter),
    /// A quantity that the maximum of is kept.
    Most(Max, u64),
    /// A quantity that a histogram of is kept.
    Sample(Record, u64),
}

/// The statistics `after` are `before` with an event added.
pub open spec fn observed(before: Thread, after: Thread, event: Event) -> bool {
    &&& forall|counter: Counter| #[trigger]
        after.count(counter) == (if event == Event::Count(counter) {
            before.count(counter).wrapping_add(1)
        } else {
            before.count(counter)
        })
    &&& forall|record: Record| #[trigger]
        after.recorded(record) == (match event {
            Event::Sample(other, value) => if other == record {
                with_sample(before.recorded(record), value)
            } else {
                before.recorded(record)
            },
            _ => before.recorded(record),
        })
    &&& after.retire_cache == (match event {
        Event::Most(Max::RetireCache, value) => if value > before.retire_cache {
            value
        } else {
            before.retire_cache
        },
        _ => before.retire_cache,
    })
}

/// Take an event into account, if statistics are recorded.
pub fn observe(recorder: &mut Recorder, recording: bool, event: Event)
    ensures
        if recording {
            observed(old(recorder).thread, final(recorder).thread, event)
        } else {
            *final(recorder) == *old(recorder)
        },
{
    match event {
        Event::Count(counter) => increment(recorder, recording, counter),
        Event::Most(most, value) => max(recorder, recording, most, value),
        Event::Sample(kind, value) => record(recorder, recording, kind, value),
    }
}

/// Taking an event into account adds one to the counter it names, keeps the
/// larger of two quantities, or records a value, and changes nothing else.
pub proof fn law_observed(
    before: Thread,
    after: Thread,
    counter: Counter,
    record: Record,
    other: Counter,
    another: Record,
    value: u64,
)
    ensures
        observed(before, after, Event::Count(counter)) ==> {
            &&& after.count(counter) == before.count(counter).wrapping_add(1)
            &&& other != counter ==> after.count(other) == before.count(other)
            &&& after.recorded(another) == before.recorded(another)
            &&& after.retire_cache == before.retire_cache
        },
        observed(before, after, Event::Sample(record, value)) ==> {
            &&& after.recorded(record) == with_sample(before.recorded(record), value)
            &&& another != record ==> after.recorded(another) == before.recorded(another)
            &&& after.count(other) == before.count(other)
            &&& after.retire_cache == before.retire_cache
        },
        observed(before, after, Event::Most(Max::RetireCache, value)) ==> {
            &&& after.retire_cache >= value && after.retire_cache >= before.retire_cache
            &&& after.retire_cache == value || after.retire_cache == before.retire_cache
            &&& after.count(other) == before.count(other)
            &&& after.recorded(another) == before.recorded(another)
        },
{
}


/// A histogram can be written as long as no value occurs more often than the format
/// can say.
pub proof fn law_storable(values: Multiset<u64>, value: u64)
    ensures
        storable(values) && values.contains(value) ==> values.count(value) <= 0x7fff_ffff_ffff_ffff,
        values.count(value) > 0x7fff_ffff_ffff_ffff ==> !storable(values),
        values.len() <= 0x7fff_ffff_ffff_ffff ==> storable(values),
{
    broadcast use vstd::multiset::axiom_count_le_len;

    if storable(values) {
        assert(values.count(value) <= i64::MAX);
    }
}


} // verus!
