//! Lexicographically ordered range scans.
use core::marker::PhantomData;
use vstd::prelude::*;
use crate::bytes::{
    common_len, lemma_common_len, lemma_common_len_is, lemma_common_len_symmetric, lemma_lex_total,
    lex_le, lex_lt,
};
use crate::raw::edge::{Edge, Meta};
use crate::raw::iter::Order;
use crate::raw::key::{Read, Write};
use crate::raw::node::iter::{in_key_order, lemma_in_key_order, slot_of, KeyIndex, KeyIter};
use crate::raw::node::Node;
use crate::raw::shape::entries::{
    extend, in_range, lemma_entries, lemma_entries_below, lemma_lex_at, lemma_lex_extend, lists,
    select,
};
use crate::raw::shape::laws::{lemma_descends, lemma_holds};
use crate::raw::shape::{at, descends, holds, index, rest, unique, Shape};

verus! {

/// Inclusive bound of a range.
#[derive(Debug)]
pub struct Include<R>(pub R);

impl<R: Copy> Copy for Include<R> {

}

impl<R: Copy> Clone for Include<R> {
    fn clone(&self) -> (bound: Self)
        ensures
            bound == *self,
    {
        *self
    }
}

/// Missing bound of a range.
#[derive(Debug)]
pub struct Unbound<R>(pub PhantomData<R>);

/// Bytes of a bound.
pub open spec fn limit<R: Read>(bound: Option<Include<R>>) -> Option<Seq<u8>> {
    match bound {
        Some(bound) => Some(bound.0.bytes()),
        None => None,
    }
}

/// Whether the representation of a bound is canonical.
pub open spec fn limit_valid<R: Read>(bound: Option<Include<R>>) -> bool {
    bound matches Some(bound) ==> bound.0.valid()
}

/// Pairs of bounds that can be passed to range scans.
///
/// Either side of a pair is an [`Include`] or an [`Unbound`].
pub trait Range<R: Read> {
    /// Whether the representation is canonical.
    spec fn valid(&self) -> bool;

    /// Smallest key in the range.
    spec fn lower_limit(&self) -> Option<Seq<u8>>;

    /// Largest key in the range.
    spec fn upper_limit(&self) -> Option<Seq<u8>>;

    /// Lower bound.
    fn lower(&self) -> (bound: Option<Include<R>>)
        requires
            self.valid(),
        ensures
            limit_valid(bound),
            limit(bound) == self.lower_limit(),
    ;

    /// Upper bound.
    fn upper(&self) -> (bound: Option<Include<R>>)
        requires
            self.valid(),
        ensures
            limit_valid(bound),
            limit(bound) == self.upper_limit(),
    ;
}

impl<R: Read> Range<R> for (Include<R>, Include<R>) {
    open spec fn valid(&self) -> bool {
        self.0.0.valid() && self.1.0.valid()
    }

    open spec fn lower_limit(&self) -> Option<Seq<u8>> {
        Some(self.0.0.bytes())
    }

    open spec fn upper_limit(&self) -> Option<Seq<u8>> {
        Some(self.1.0.bytes())
    }

    fn lower(&self) -> (bound: Option<Include<R>>) {
        Some(Include(self.0.0))
    }

    fn upper(&self) -> (bound: Option<Include<R>>) {
        Some(Include(self.1.0))
    }
}

impl<R: Read> Range<R> for (Include<R>, Unbound<R>) {
    open spec fn valid(&self) -> bool {
        self.0.0.valid()
    }

    open spec fn lower_limit(&self) -> Option<Seq<u8>> {
        Some(self.0.0.bytes())
    }

    open spec fn upper_limit(&self) -> Option<Seq<u8>> {
        None
    }

    fn lower(&self) -> (bound: Option<Include<R>>) {
        Some(Include(self.0.0))
    }

    fn upper(&self) -> (bound: Option<Include<R>>) {
        None
    }
}

impl<R: Read> Range<R> for (Unbound<R>, Include<R>) {
    open spec fn valid(&self) -> bool {
        self.1.0.valid()
    }

    open spec fn lower_limit(&self) -> Option<Seq<u8>> {
        None
    }

    open spec fn upper_limit(&self) -> Option<Seq<u8>> {
        Some(self.1.0.bytes())
    }

    fn lower(&self) -> (bound: Option<Include<R>>) {
        None
    }

    fn upper(&self) -> (bound: Option<Include<R>>) {
        Some(Include(self.1.0))
    }
}

impl<R: Read> Range<R> for (Unbound<R>, Unbound<R>) {
    open spec fn valid(&self) -> bool {
        true
    }

    open spec fn lower_limit(&self) -> Option<Seq<u8>> {
        None
    }

    open spec fn upper_limit(&self) -> Option<Seq<u8>> {
        None
    }

    fn lower(&self) -> (bound: Option<Include<R>>) {
        None
    }

    fn upper(&self) -> (bound: Option<Include<R>>) {
        None
    }
}

/// Entries of `map` hold a key exactly if the map has it and `pred` asks for it.
proof fn lemma_listed<V>(
    entries: Seq<(Seq<u8>, V)>,
    map: Map<Seq<u8>, V>,
    pred: spec_fn(Seq<u8>) -> bool,
    key: Seq<u8>,
)
    requires
        lists(entries, map, pred),
    ensures
        entries.contains((key, map[key])) <==> map.contains_key(key) && pred(key),
{
    if entries.contains((key, map[key])) {
        let i = entries.index_of((key, map[key]));
        assert(entries[i].0 == key);
    }
}

/// A pair of inclusive bounds admits the keys that are neither below the first
/// nor above the second, and a scan gives those of them that the map has.
pub proof fn law_between<R: Read, V>(
    range: (Include<R>, Include<R>),
    map: Map<Seq<u8>, V>,
    entries: Seq<(Seq<u8>, V)>,
    key: Seq<u8>,
)
    requires
        lists(
            entries,
            map,
            |k: Seq<u8>| in_range(range.lower_limit(), range.upper_limit(), k),
        ),
    ensures
        entries.contains((key, map[key])) <==> map.contains_key(key) && !lex_lt(
            key,
            range.0.0.bytes(),
        ) && !lex_lt(range.1.0.bytes(), key),
        range.lower_limit() == Some(range.0.0.bytes()),
        range.upper_limit() == Some(range.1.0.bytes()),
        range.valid() <==> range.0.0.valid() && range.1.0.valid(),
{
    lemma_listed(
        entries,
        map,
        |k: Seq<u8>| in_range(range.lower_limit(), range.upper_limit(), k),
        key,
    );
    lemma_lex_total(range.0.0.bytes(), key);
    lemma_lex_total(key, range.1.0.bytes());
}

/// A lower bound alone admits every key that is not below it, however large,
/// and a scan gives those of them that the map has.
pub proof fn law_onward<R: Read, V>(
    range: (Include<R>, Unbound<R>),
    map: Map<Seq<u8>, V>,
    entries: Seq<(Seq<u8>, V)>,
    key: Seq<u8>,
)
    requires
        lists(
            entries,
            map,
            |k: Seq<u8>| in_range(range.lower_limit(), range.upper_limit(), k),
        ),
    ensures
        entries.contains((key, map[key])) <==> map.contains_key(key) && !lex_lt(
            key,
            range.0.0.bytes(),
        ),
        range.lower_limit() == Some(range.0.0.bytes()),
        range.upper_limit() is None,
        range.valid() <==> range.0.0.valid(),
{
    lemma_listed(
        entries,
        map,
        |k: Seq<u8>| in_range(range.lower_limit(), range.upper_limit(), k),
        key,
    );
    lemma_lex_total(range.0.0.bytes(), key);
}

/// An upper bound alone admits every key that is not above it, however small,
/// and a scan gives those of them that the map has.
pub proof fn law_up_to<R: Read, V>(
    range: (Unbound<R>, Include<R>),
    map: Map<Seq<u8>, V>,
    entries: Seq<(Seq<u8>, V)>,
    key: Seq<u8>,
)
    requires
        lists(
            entries,
            map,
            |k: Seq<u8>| in_range(range.lower_limit(), range.upper_limit(), k),
        ),
    ensures
        entries.contains((key, map[key])) <==> map.contains_key(key) && !lex_lt(
            range.1.0.bytes(),
            key,
        ),
        range.lower_limit() is None,
        range.upper_limit() == Some(range.1.0.bytes()),
        range.valid() <==> range.1.0.valid(),
{
    lemma_listed(
        entries,
        map,
        |k: Seq<u8>| in_range(range.lower_limit(), range.upper_limit(), k),
        key,
    );
    lemma_lex_total(key, range.1.0.bytes());
}

/// A pair without bounds admits every key, and a scan gives all that the map
/// has.
pub proof fn law_unbounded<R: Read, V>(
    range: (Unbound<R>, Unbound<R>),
    map: Map<Seq<u8>, V>,
    entries: Seq<(Seq<u8>, V)>,
    key: Seq<u8>,
)
    requires
        lists(
            entries,
            map,
            |k: Seq<u8>| in_range(range.lower_limit(), range.upper_limit(), k),
        ),
    ensures
        entries.contains((key, map[key])) <==> map.contains_key(key),
        range.lower_limit() is None,
        range.upper_limit() is None,
        range.valid(),
{
    lemma_listed(
        entries,
        map,
        |k: Seq<u8>| in_range(range.lower_limit(), range.upper_limit(), k),
        key,
    );
}

/// Whether the lower bound is strictly greater than the upper bound, so that
/// the range contains no keys.
pub fn is_inverted<R: Read>(lower: Option<Include<R>>, upper: Option<Include<R>>) -> (inverted: bool)
    requires
        limit_valid(lower),
        limit_valid(upper),
    ensures
        inverted == (match (limit(lower), limit(upper)) {
            (Some(lower), Some(upper)) => lex_lt(upper, lower),
            _ => false,
        }),
{
    match (lower, upper) {
        (Some(Include(lower)), Some(Include(upper))) => {
            // Compare the first byte past the common prefix.
            let common: usize = lower.common_prefix(upper).len();
            proof {
                lemma_common_len(lower.bytes(), upper.bytes());
                lemma_common_len_symmetric(lower.bytes(), upper.bytes());
            }
            match (lower.get_byte(common), upper.get_byte(common)) {
                (Some(lower), Some(upper)) => lower > upper,
                (Some(_), None) => true,
                (None, _) => false,
            }
        },
        _ => false,
    }
}

/// What the bound says of keys that begin with `path`.
///
/// A bound is followed along its own bytes; when `path` has left it, all keys
/// that begin with `path` are on the right side of it.
pub open spec fn lower_at(path: Seq<u8>, bound: Option<Seq<u8>>, whole: Option<Seq<u8>>) -> bool {
    match bound {
        Some(bound) => whole == Some(path + bound),
        None => forall|k: Seq<u8>| in_range(whole, None, #[trigger] (path + k)),
    }
}

/// See [`lower_at`].
pub open spec fn upper_at(path: Seq<u8>, bound: Option<Seq<u8>>, whole: Option<Seq<u8>>) -> bool {
    match bound {
        Some(bound) => whole == Some(path + bound),
        None => forall|k: Seq<u8>| in_range(None, whole, #[trigger] (path + k)),
    }
}

/// Concatenation is associative.
proof fn lemma_concat(a: Seq<u8>, b: Seq<u8>, c: Seq<u8>)
    ensures
        (a + b) + c == a + (b + c),
{
    assert((a + b) + c =~= a + (b + c));
}

/// A bound compared with the bytes of an edge.
proof fn lemma_bound(path: Seq<u8>, meta: Seq<u8>, bound: Seq<u8>)
    ensures
        ({
            let n = common_len(meta, bound);
            &&& n == meta.len() ==> path + bound == (path + meta) + bound.skip(n as int)
            &&& n < meta.len() && (n == bound.len() || meta[n as int] > bound[n as int]) ==> (
            forall|k: Seq<u8>| lex_lt(path + bound, #[trigger] ((path + meta) + k)))
            &&& n < meta.len() && n < bound.len() && meta[n as int] < bound[n as int] ==> (
            forall|k: Seq<u8>| lex_lt(#[trigger] ((path + meta) + k), path + bound))
        }),
{
    let n = common_len(meta, bound);
    lemma_common_len(meta, bound);
    if n == meta.len() {
        assert(path + bound =~= (path + meta) + bound.skip(n as int));
    }
    assert forall|k: Seq<u8>|
        n < meta.len() && (n == bound.len() || meta[n as int] > bound[n as int]) implies lex_lt(
        path + bound,
        #[trigger] ((path + meta) + k),
    ) by {
        lemma_concat(path, meta, k);
        lemma_lex_extend(path, bound, meta + k);
        lemma_common_len_is(bound, meta + k, n);
    }
    assert forall|k: Seq<u8>|
        n < meta.len() && n < bound.len() && meta[n as int] < bound[n as int] implies lex_lt(
        #[trigger] ((path + meta) + k),
        path + bound,
    ) by {
        lemma_concat(path, meta, k);
        lemma_lex_extend(path, meta + k, bound);
        lemma_common_len_is(meta + k, bound, n);
    }
}

impl<R: Read> Include<R> {
    /// Follow a lower bound along an edge.
    ///
    /// Returns `None` if all keys through the edge are below the bound, and
    /// `Some(None)` if all of them are above it.
    fn check_lower(self, meta: &R::Edge, Ghost(path): Ghost<Seq<u8>>) -> (check: Option<
        Option<Include<R>>,
    >)
        requires
            self.0.valid(),
            meta.valid(),
        ensures
            match check {
                Some(next) => limit_valid(next) && lower_at(
                    path + meta.bytes(),
                    limit(next),
                    Some(path + self.0.bytes()),
                ),
                None => forall|k: Seq<u8>|
                    lex_lt(#[trigger] ((path + meta.bytes()) + k), path + self.0.bytes()),
            },
    {
        let len: usize = self.0.match_prefix(meta);
        proof {
            lemma_common_len(meta.bytes(), self.0.bytes());
            lemma_bound(path, meta.bytes(), self.0.bytes());
        }
        if len == meta.len() {
            return Some(Some(Include(self.0.suffix(len))));
        }
        match self.0.get_byte(len) {
            None => Some(None),
            Some(byte) => if meta.get(len) < byte {
                None
            } else {
                Some(None)
            },
        }
    }

    /// Follow an upper bound along an edge.
    ///
    /// Returns `None` if all keys through the edge are above the bound, and
    /// `Some(None)` if all of them are below it.
    fn check_upper(self, meta: &R::Edge, Ghost(path): Ghost<Seq<u8>>) -> (check: Option<
        Option<Include<R>>,
    >)
        requires
            self.0.valid(),
            meta.valid(),
        ensures
            match check {
                Some(next) => limit_valid(next) && upper_at(
                    path + meta.bytes(),
                    limit(next),
                    Some(path + self.0.bytes()),
                ),
                None => forall|k: Seq<u8>|
                    lex_lt(path + self.0.bytes(), #[trigger] ((path + meta.bytes()) + k)),
            },
    {
        let len: usize = self.0.match_prefix(meta);
        proof {
            lemma_common_len(meta.bytes(), self.0.bytes());
            lemma_bound(path, meta.bytes(), self.0.bytes());
        }
        if len == meta.len() {
            return Some(Some(Include(self.0.suffix(len))));
        }
        match self.0.get_byte(len) {
            None => None,
            Some(byte) => if meta.get(len) < byte {
                Some(None)
            } else {
                None
            },
        }
    }

    /// Follow a bound through a node: what is left of it below `byte`.
    pub(crate) fn below(self, byte: u8) -> (next: Option<Include<R>>)
        requires
            self.0.valid(),
        ensures
            limit_valid(next),
            limit(next) == (if self.0.bytes().len() > 0 && self.0.bytes()[0] == byte {
                Some(self.0.bytes().skip(1))
            } else {
                None
            }),
    {
        match self.0.get_byte(0) {
            Some(first) => if first == byte {
                Some(Include(self.0.suffix(1)))
            } else {
                None
            },
            None => None,
        }
    }
}

/// Entries in range through one slot of a node at `path`.
pub open spec fn slot_entries<V>(
    path: Seq<u8>,
    slots: Seq<(u8, Shape<V>)>,
    entry: KeyIndex,
    lower: Option<Seq<u8>>,
    upper: Option<Seq<u8>>,
) -> Seq<(Seq<u8>, V)> {
    select(extend(path.push(entry.key), slots[entry.index as int].1.entries()), lower, upper)
}

/// Entries in range through several slots of a node at `path`.
pub open spec fn slots_entries<V>(
    path: Seq<u8>,
    slots: Seq<(u8, Shape<V>)>,
    keys: Seq<KeyIndex>,
    lower: Option<Seq<u8>>,
    upper: Option<Seq<u8>>,
) -> Seq<(Seq<u8>, V)>
    decreases keys.len(),
{
    if keys.len() == 0 {
        Seq::empty()
    } else {
        slots_entries(path, slots, keys.drop_last(), lower, upper) + slot_entries(
            path,
            slots,
            keys.last(),
            lower,
            upper,
        )
    }
}

/// The first slot can be split off as the last one can.
proof fn lemma_slots_entries_first<V>(
    path: Seq<u8>,
    slots: Seq<(u8, Shape<V>)>,
    keys: Seq<KeyIndex>,
    lower: Option<Seq<u8>>,
    upper: Option<Seq<u8>>,
)
    requires
        keys.len() > 0,
    ensures
        slots_entries(path, slots, keys, lower, upper) == slot_entries(
            path,
            slots,
            keys.first(),
            lower,
            upper,
        ) + slots_entries(path, slots, keys.drop_first(), lower, upper),
    decreases keys.len(),
{
    let first = slot_entries(path, slots, keys.first(), lower, upper);
    if keys.len() == 1 {
        assert(keys.drop_last() =~= Seq::<KeyIndex>::empty());
        assert(keys.drop_first() =~= Seq::<KeyIndex>::empty());
        assert(slots_entries(path, slots, keys.drop_last(), lower, upper).len() == 0);
        assert(slots_entries(path, slots, keys, lower, upper) =~= first);
    } else {
        lemma_slots_entries_first(path, slots, keys.drop_last(), lower, upper);
        assert(keys.drop_last().drop_first() =~= keys.drop_first().drop_last());
        assert(keys.drop_first().last() == keys.last());
        assert(slots_entries(path, slots, keys, lower, upper) =~= first + slots_entries(
            path,
            slots,
            keys.drop_first(),
            lower,
            upper,
        ));
    }
}

/// Size of a subtree, counted in slots and nodes.
pub open spec fn weight<V>(shape: Shape<V>) -> nat
    decreases shape, 257int,
{
    if shape is Node {
        1 + weight_below(shape, 256)
    } else {
        0
    }
}

/// Size of what is below a node through the bytes less than `n`.
pub open spec fn weight_below<V>(shape: Shape<V>, n: int) -> nat
    decreases shape, n,
{
    match shape {
        Shape::Node { slots, .. } => if n <= 0 {
            0
        } else {
            let b = (n - 1) as u8;
            weight_below(shape, n - 1) + (if holds(slots, b) {
                1 + weight(slots[index(slots, b)].1)
            } else {
                0
            })
        },
        _ => 0,
    }
}

/// Size of what is below several slots.
pub open spec fn slots_weight<V>(slots: Seq<(u8, Shape<V>)>, keys: Seq<KeyIndex>) -> nat
    decreases keys.len(),
{
    if keys.len() == 0 {
        0
    } else {
        slots_weight(slots, keys.drop_last()) + 1 + weight(slots[keys.last().index as int].1)
    }
}

/// The first slot can be split off as the last one can.
proof fn lemma_slots_weight_first<V>(slots: Seq<(u8, Shape<V>)>, keys: Seq<KeyIndex>)
    requires
        keys.len() > 0,
    ensures
        slots_weight(slots, keys) == 1 + weight(slots[keys.first().index as int].1) + slots_weight(
            slots,
            keys.drop_first(),
        ),
    decreases keys.len(),
{
    if keys.len() > 1 {
        lemma_slots_weight_first(slots, keys.drop_last());
        assert(keys.drop_last().drop_first() =~= keys.drop_first().drop_last());
        assert(keys.drop_first().last() == keys.last());
    } else {
        assert(keys.drop_last() =~= keys.drop_first());
    }
}

/// Keys that leave `path` through `byte` are out of range if `byte` is.
proof fn lemma_byte_bounds(
    path: Seq<u8>,
    byte: u8,
    below: Option<Seq<u8>>,
    above: Option<Seq<u8>>,
    lower: Option<Seq<u8>>,
    upper: Option<Seq<u8>>,
    k: Seq<u8>,
)
    requires
        lower_at(path, below, lower),
        upper_at(path, above, upper),
        ({
            ||| below matches Some(below) && below.len() > 0 && byte < below[0]
            ||| above matches Some(above) && (above.len() == 0 || byte > above[0])
        }),
    ensures
        !in_range(lower, upper, path.push(byte) + k),
{
    let key = path.push(byte) + k;
    let tail = seq![byte] + k;
    assert(key =~= path + tail);
    if let Some(below) = below {
        if below.len() > 0 && byte < below[0] {
            lemma_lex_at(key, path + below, path.len() as int);
            lemma_lex_total(key, path + below);
        }
    }
    if let Some(above) = above {
        if above.len() == 0 {
            lemma_lex_extend(path, above, tail);
            lemma_common_len_is(above, tail, 0);
            lemma_lex_total(key, path + above);
        } else if byte > above[0] {
            lemma_lex_at(path + above, key, path.len() as int);
            lemma_lex_total(key, path + above);
        }
    }
}

/// Entries of which none is in range.
proof fn lemma_select_none<V>(
    entries: Seq<(Seq<u8>, V)>,
    lower: Option<Seq<u8>>,
    upper: Option<Seq<u8>>,
)
    requires
        forall|i: int|
            0 <= i < entries.len() ==> !in_range(lower, upper, (#[trigger] entries[i]).0),
    ensures
        select(entries, lower, upper) == Seq::<(Seq<u8>, V)>::empty(),
    decreases entries.len(),
{
    reveal(Seq::filter);
    if entries.len() > 0 {
        assert forall|i: int| 0 <= i < entries.drop_last().len() implies !in_range(
            lower,
            upper,
            (#[trigger] entries.drop_last()[i]).0,
        ) by {
            assert(entries.drop_last()[i] == entries[i]);
        }
        lemma_select_none(entries.drop_last(), lower, upper);
        assert(!in_range(lower, upper, entries[entries.len() - 1].0));
    }
}

/// Entries of which all are in range.
pub proof fn lemma_select_all<V>(
    entries: Seq<(Seq<u8>, V)>,
    lower: Option<Seq<u8>>,
    upper: Option<Seq<u8>>,
)
    requires
        forall|i: int|
            0 <= i < entries.len() ==> in_range(lower, upper, (#[trigger] entries[i]).0),
    ensures
        select(entries, lower, upper) == entries,
    decreases entries.len(),
{
    reveal(Seq::filter);
    if entries.len() > 0 {
        assert forall|i: int| 0 <= i < entries.drop_last().len() implies in_range(
            lower,
            upper,
            (#[trigger] entries.drop_last()[i]).0,
        ) by {
            assert(entries.drop_last()[i] == entries[i]);
        }
        lemma_select_all(entries.drop_last(), lower, upper);
        assert(in_range(lower, upper, entries[entries.len() - 1].0));
        assert(entries =~= entries.drop_last().push(entries.last()));
    }
}

/// Selection works on parts.
pub proof fn lemma_select_concat<V>(
    a: Seq<(Seq<u8>, V)>,
    b: Seq<(Seq<u8>, V)>,
    lower: Option<Seq<u8>>,
    upper: Option<Seq<u8>>,
)
    ensures
        select(a + b, lower, upper) == select(a, lower, upper) + select(b, lower, upper),
{
    Seq::filter_distributes_over_add(
        a,
        b,
        |entry: (Seq<u8>, V)| in_range(lower, upper, entry.0),
    );
}

/// The slots that a node iterator visits hold all entries in range.
proof fn lemma_node_entries<V>(
    shape: Shape<V>,
    base: Seq<u8>,
    keys: Seq<u8>,
    low: u8,
    high: u8,
    lower: Option<Seq<u8>>,
    upper: Option<Seq<u8>>,
    n: int,
)
    requires
        shape is Node,
        0 <= n <= 256,
        keys.len() <= 256,
        keys.no_duplicates(),
        keys.len() == shape->slots.len(),
        unique(shape->slots),
        forall|i: int| 0 <= i < keys.len() ==> (#[trigger] shape->slots[i]).0 == keys[i],
        forall|b: u8, k: Seq<u8>|
            b < low || b > high ==> !in_range(
                lower,
                upper,
                #[trigger] ((base + shape.prefix()).push(b) + k),
            ),
    ensures
        select(extend(base, shape.entries_below(n)), lower, upper) == slots_entries(
            base + shape.prefix(),
            shape->slots,
            in_key_order(keys, low, high, n),
            lower,
            upper,
        ),
        slots_weight(shape->slots, in_key_order(keys, low, high, n)) <= weight_below(shape, n),
    decreases n,
{
    let prefix = shape.prefix();
    let path = base + prefix;
    let slots = shape->slots;
    if n <= 0 {
        lemma_select_none(extend(base, shape.entries_below(n)), lower, upper);
    } else {
        lemma_node_entries(shape, base, keys, low, high, lower, upper, n - 1);
        let b = (n - 1) as u8;
        let before = shape.entries_below(n - 1);
        let visited = in_key_order(keys, low, high, n - 1);
        let all = in_key_order(keys, low, high, n);
        if holds(slots, b) {
            lemma_holds(slots, b);
            let i = index(slots, b);
            assert(keys[i] == b);
            let child = slots[i].1.entries();
            let new = extend(prefix.push(b), child);
            assert(extend(base, before + new) =~= extend(base, before) + extend(base, new));
            assert(extend(base, new) =~= extend(path.push(b), child)) by {
                assert forall|j: int| 0 <= j < child.len() implies base + (prefix.push(b)
                    + child[j].0) == path.push(b) + child[j].0 by {
                    assert(base + (prefix.push(b) + child[j].0) =~= path.push(b) + child[j].0);
                }
            }
            lemma_select_concat(extend(base, before), extend(base, new), lower, upper);
            if low <= b <= high {
                let s = slot_of(keys, b);
                assert(keys[s] == b);
                assert(s == i);
                let entry = KeyIndex { key: b, index: i as u8 };
                assert(all == visited.push(entry));
                assert(all.drop_last() =~= visited);
            } else {
                assert forall|j: int| 0 <= j < extend(path.push(b), child).len() implies !in_range(
                    lower,
                    upper,
                    (#[trigger] extend(path.push(b), child)[j]).0,
                ) by {
                    assert(!in_range(lower, upper, path.push(b) + child[j].0));
                }
                lemma_select_none(extend(path.push(b), child), lower, upper);
                assert(all == visited);
                assert(select(extend(base, shape.entries_below(n)), lower, upper) =~= select(
                    extend(base, before),
                    lower,
                    upper,
                ));
            }
        } else {
            if keys.contains(b) {
                let i = keys.index_of(b);
                assert(keys[i] == b);
                assert(slots[i].0 == b);
                assert(at(slots, i, b));
            }
            assert(all == visited);
            assert(before + Seq::<(Seq<u8>, V)>::empty() =~= before);
        }
    }
}

/// A node of which some slots are still to be visited.
pub struct Frame<'g, R: Read, V> {
    /// Number of key bytes up to the node.
    len: usize,
    lower: Option<Include<R>>,
    upper: Option<Include<R>>,
    keys: KeyIter,
    node: &'g Node<R::Edge, V>,
    path: Ghost<Seq<u8>>,
}

/// Iterator over the entries of a subtree that are in range.
///
/// The bounds define a triangular part of the tree. They are only compared
/// with the edges on its exterior: everything in the interior is in range.
pub struct RangeIter<'g, R: Read, W: Write<Edge = R::Edge>, V> {
    order: Order,
    writer: W,
    root: Option<&'g V>,
    stack: Vec<Frame<'g, R, V>>,
    lower: Ghost<Option<Seq<u8>>>,
    upper: Ghost<Option<Seq<u8>>>,
}

impl<'g, R: Read, V> Frame<'g, R, V> {
    closed spec fn wf(self, lower: Option<Seq<u8>>, upper: Option<Seq<u8>>) -> bool {
        &&& self.node.wf()
        &&& self.keys.wf()
        &&& self.len == self.path@.len()
        &&& limit_valid(self.lower)
        &&& limit_valid(self.upper)
        &&& lower_at(self.path@, limit(self.lower), lower)
        &&& upper_at(self.path@, limit(self.upper), upper)
        &&& forall|i: int|
            0 <= i < self.keys.remaining().len() ==> {
                let entry = #[trigger] self.keys.remaining()[i];
                &&& entry.index < self.node.edges@.len()
                &&& limit(self.lower) matches Some(bound) ==> bound.len() > 0 ==> bound[0]
                    <= entry.key
                &&& limit(self.upper) matches Some(bound) ==> bound.len() > 0 && entry.key
                    <= bound[0]
            }
    }

    /// Entries in range that are still to come.
    closed spec fn entries(self, lower: Option<Seq<u8>>, upper: Option<Seq<u8>>) -> Seq<
        (Seq<u8>, V),
    > {
        slots_entries(self.path@, self.node.slots(), self.keys.remaining(), lower, upper)
    }

    closed spec fn weight(self) -> nat {
        slots_weight(self.node.slots(), self.keys.remaining())
    }
}

/// Entries still to come from a stack, with the top frame first.
spec fn from_top<'g, R: Read, V>(
    stack: Seq<Frame<'g, R, V>>,
    lower: Option<Seq<u8>>,
    upper: Option<Seq<u8>>,
) -> Seq<(Seq<u8>, V)>
    decreases stack.len(),
{
    if stack.len() == 0 {
        Seq::empty()
    } else {
        stack.last().entries(lower, upper) + from_top(stack.drop_last(), lower, upper)
    }
}

/// Entries still to come from a stack, with the top frame last.
spec fn from_bottom<'g, R: Read, V>(
    stack: Seq<Frame<'g, R, V>>,
    lower: Option<Seq<u8>>,
    upper: Option<Seq<u8>>,
) -> Seq<(Seq<u8>, V)>
    decreases stack.len(),
{
    if stack.len() == 0 {
        Seq::empty()
    } else {
        from_bottom(stack.drop_last(), lower, upper) + stack.last().entries(lower, upper)
    }
}

/// Size of what is below a stack.
spec fn stack_weight<'g, R: Read, V>(stack: Seq<Frame<'g, R, V>>) -> nat
    decreases stack.len(),
{
    if stack.len() == 0 {
        0
    } else {
        stack_weight(stack.drop_last()) + 1 + stack.last().weight()
    }
}

impl<'g, R: Read, W: Write<Edge = R::Edge>, V> RangeIter<'g, R, W, V> {
    pub closed spec fn wf(self) -> bool {
        &&& self.writer.valid()
        &&& forall|i: int|
            0 <= i < self.stack@.len() ==> (#[trigger] self.stack@[i]).wf(self.lower@, self.upper@)
                && self.stack@[i].len <= self.writer.bytes().len() && self.writer.bytes().take(
                self.stack@[i].len as int,
            ) == self.stack@[i].path@
        &&& forall|i: int, j: int|
            0 <= i <= j < self.stack@.len() ==> (#[trigger] self.stack@[i]).len <= (
            #[trigger] self.stack@[j]).len
        &&& match (self.lower@, self.upper@) {
            (Some(lower), Some(upper)) => lex_le(lower, upper),
            _ => true,
        }
        &&& self.root is Some ==> self.stack@.len() == 0
        &&& forall|i: int|
            0 <= i < self.pending().len() ==> (#[trigger] self.pending()[i]).0.len() <= W::max()
    }

    /// Direction of the scan.
    pub closed spec fn direction(self) -> Order {
        self.order
    }

    /// Entries that are still to come, in ascending order.
    pub closed spec fn pending(self) -> Seq<(Seq<u8>, V)> {
        match self.root {
            Some(value) => seq![(self.writer.bytes(), *value)],
            None => match self.order {
                Order::Ascend => from_top(self.stack@, self.lower@, self.upper@),
                Order::Descend => from_bottom(self.stack@, self.lower@, self.upper@),
            },
        }
    }

    /// Bytes of the key that was visited last.
    pub closed spec fn key(self) -> Seq<u8> {
        self.writer.bytes()
    }

    /// Holds the key that was visited last.
    pub fn writer(&self) -> (writer: &W)
        requires
            self.wf(),
        ensures
            writer.valid(),
            writer.bytes() == self.key(),
    {
        &self.writer
    }
}

/// What is found at the end of an edge.
enum Visit<'g, R: Read, V> {
    /// Nothing in range.
    Nothing,
    /// A value in range.
    Value(&'g V),
    /// A node that may hold entries in range.
    Node(Frame<'g, R, V>),
}

/// Entries through an edge at `path`.
spec fn edge_entries<V>(
    path: Seq<u8>,
    shape: Shape<V>,
    lower: Option<Seq<u8>>,
    upper: Option<Seq<u8>>,
) -> Seq<(Seq<u8>, V)> {
    select(extend(path, shape.entries()), lower, upper)
}

/// Keys through an edge begin with its bytes.
proof fn lemma_edge_keys<V>(path: Seq<u8>, shape: Shape<V>, i: int)
    requires
        0 <= i < shape.entries().len(),
    ensures
        exists|k: Seq<u8>|
            extend(path, shape.entries())[i].0 == #[trigger] ((path + shape.prefix()) + k),
{
    lemma_entries(shape);
    let key = shape.entries()[i].0;
    assert(shape.get(key) is Some);
    crate::raw::shape::laws::lemma_get_accepts(shape, key);
    let k = key.skip(shape.prefix().len() as int);
    assert(key =~= shape.prefix() + k);
    lemma_concat(path, shape.prefix(), k);
}

/// Nothing is in range through an edge whose bytes are out of range.
proof fn lemma_edge_out<V>(
    path: Seq<u8>,
    shape: Shape<V>,
    lower: Option<Seq<u8>>,
    upper: Option<Seq<u8>>,
)
    requires
        forall|k: Seq<u8>|
            !in_range(lower, upper, #[trigger] ((path + shape.prefix()) + k)),
    ensures
        edge_entries(path, shape, lower, upper).len() == 0,
{
    let all = extend(path, shape.entries());
    assert forall|i: int| 0 <= i < all.len() implies !in_range(
        lower,
        upper,
        (#[trigger] all[i]).0,
    ) by {
        lemma_edge_keys(path, shape, i);
    }
    lemma_select_none(all, lower, upper);
}

/// A lower bound below a node.
pub proof fn lemma_lower_below(
    path: Seq<u8>,
    bound: Option<Seq<u8>>,
    whole: Option<Seq<u8>>,
    byte: u8,
)
    requires
        lower_at(path, bound, whole),
        bound matches Some(bound) ==> bound.len() > 0 ==> bound[0] <= byte,
    ensures
        lower_at(
            path.push(byte),
            (match bound {
                Some(bound) => if bound.len() > 0 && bound[0] == byte {
                    Some(bound.skip(1))
                } else {
                    None
                },
                None => None,
            }),
            whole,
        ),
{
    if let Some(bound) = bound {
        if bound.len() > 0 && bound[0] == byte {
            assert(path + bound =~= path.push(byte) + bound.skip(1));
            return ;
        }
    }
    assert forall|k: Seq<u8>| in_range(whole, None, #[trigger] (path.push(byte) + k)) by {
        let tail = seq![byte] + k;
        assert(path.push(byte) + k =~= path + tail);
        if let Some(bound) = bound {
            lemma_lex_extend(path, bound, tail);
            lemma_common_len_is(bound, tail, 0);
        } else {
            assert(in_range(whole, None, path + tail));
        }
    }
}

/// An upper bound below a node.
pub proof fn lemma_upper_below(
    path: Seq<u8>,
    bound: Option<Seq<u8>>,
    whole: Option<Seq<u8>>,
    byte: u8,
)
    requires
        upper_at(path, bound, whole),
        bound matches Some(bound) ==> bound.len() > 0 && byte <= bound[0],
    ensures
        upper_at(
            path.push(byte),
            (match bound {
                Some(bound) => if bound.len() > 0 && bound[0] == byte {
                    Some(bound.skip(1))
                } else {
                    None
                },
                None => None,
            }),
            whole,
        ),
{
    if let Some(bound) = bound {
        if bound[0] == byte {
            assert(path + bound =~= path.push(byte) + bound.skip(1));
            return ;
        }
    }
    assert forall|k: Seq<u8>| in_range(None, whole, #[trigger] (path.push(byte) + k)) by {
        let tail = seq![byte] + k;
        assert(path.push(byte) + k =~= path + tail);
        if let Some(bound) = bound {
            lemma_lex_extend(path, tail, bound);
            lemma_common_len_is(tail, bound, 0);
        } else {
            assert(in_range(None, whole, path + tail));
        }
    }
}

/// Follow both bounds along an edge.
///
/// Returns `None` if nothing behind the edge is in range.
pub(crate) fn follow<R: Read>(
    lower: Option<Include<R>>,
    upper: Option<Include<R>>,
    meta: &R::Edge,
    Ghost(path): Ghost<Seq<u8>>,
    Ghost(low): Ghost<Option<Seq<u8>>>,
    Ghost(high): Ghost<Option<Seq<u8>>>,
) -> (bounds: Option<(Option<Include<R>>, Option<Include<R>>)>)
    requires
        limit_valid(lower),
        limit_valid(upper),
        meta.valid(),
        lower_at(path, limit(lower), low),
        upper_at(path, limit(upper), high),
    ensures
        match bounds {
            Some((lower, upper)) => {
                &&& limit_valid(lower)
                &&& limit_valid(upper)
                &&& lower_at(path + meta.bytes(), limit(lower), low)
                &&& upper_at(path + meta.bytes(), limit(upper), high)
            },
            None => forall|k: Seq<u8>|
                !in_range(low, high, #[trigger] ((path + meta.bytes()) + k)),
        },
{
    let ghost bytes = meta.bytes();
    let lower = match lower {
        Some(bound) => match bound.check_lower(meta, Ghost(path)) {
            Some(next) => next,
            None => {
                assert forall|k: Seq<u8>| !in_range(low, high, #[trigger] ((path + bytes) + k)) by {
                    lemma_lex_total((path + bytes) + k, path + bound.0.bytes());
                }
                return None;
            },
        },
        None => {
            assert forall|k: Seq<u8>| in_range(low, None, #[trigger] ((path + bytes) + k)) by {
                lemma_concat(path, bytes, k);
                assert(in_range(low, None, path + (bytes + k)));
            }
            None
        },
    };
    let upper = match upper {
        Some(bound) => match bound.check_upper(meta, Ghost(path)) {
            Some(next) => next,
            None => {
                assert forall|k: Seq<u8>| !in_range(low, high, #[trigger] ((path + bytes) + k)) by {
                    lemma_lex_total((path + bytes) + k, path + bound.0.bytes());
                }
                return None;
            },
        },
        None => {
            assert forall|k: Seq<u8>| in_range(None, high, #[trigger] ((path + bytes) + k)) by {
                lemma_concat(path, bytes, k);
                assert(in_range(None, high, path + (bytes + k)));
            }
            None
        },
    };
    Some((lower, upper))
}

/// First bytes of the bounds at a node, if any byte is in range.
pub(crate) fn byte_bounds<R: Read>(
    lower: Option<Include<R>>,
    upper: Option<Include<R>>,
    Ghost(path): Ghost<Seq<u8>>,
    Ghost(low): Ghost<Option<Seq<u8>>>,
    Ghost(high): Ghost<Option<Seq<u8>>>,
) -> (bytes: Option<(u8, u8)>)
    requires
        limit_valid(lower),
        limit_valid(upper),
        lower_at(path, limit(lower), low),
        upper_at(path, limit(upper), high),
        match (low, high) {
            (Some(low), Some(high)) => lex_le(low, high),
            _ => true,
        },
    ensures
        match bytes {
            Some((first, last)) => {
                &&& first <= last
                &&& limit(lower) matches Some(bound) ==> bound.len() > 0 ==> first == bound[0]
                &&& limit(upper) matches Some(bound) ==> bound.len() > 0 && last == bound[0]
                &&& forall|b: u8, k: Seq<u8>|
                    b < first || b > last ==> !in_range(low, high, #[trigger] (path.push(b) + k))
            },
            None => forall|b: u8, k: Seq<u8>|
                !in_range(low, high, #[trigger] (path.push(b) + k)),
        },
{
    let first: u8 = match lower {
        Some(Include(bound)) => match bound.get_byte(0) {
            Some(byte) => byte,
            None => 0,
        },
        None => 0,
    };
    let last: u8 = match upper {
        Some(Include(bound)) => match bound.get_byte(0) {
            Some(byte) => byte,
            None => {
                assert forall|b: u8, k: Seq<u8>|
                    !in_range(low, high, #[trigger] (path.push(b) + k)) by {
                    lemma_byte_bounds(path, b, limit(lower), limit(upper), low, high, k);
                }
                return None;
            },
        },
        None => 255,
    };
    proof {
        assert forall|b: u8, k: Seq<u8>| b < first || b > last implies !in_range(
            low,
            high,
            #[trigger] (path.push(b) + k),
        ) by {
            lemma_byte_bounds(path, b, limit(lower), limit(upper), low, high, k);
        }
        if let (Some(x), Some(y)) = (limit(lower), limit(upper)) {
            lemma_lex_extend(path, x, y);
            if x.len() > 0 {
                if y[0] < x[0] {
                    lemma_lex_at(y, x, 0);
                }
            }
        }
    }
    Some((first, last))
}

/// Follow an edge to what it holds in range, through nodes with one entry.
///
/// The writer holds the key bytes up to the edge.
fn visit<'g, R: Read, W: Write<Edge = R::Edge>, V>(
    writer: &mut W,
    edge: &'g Edge<R::Edge, V>,
    lower: Option<Include<R>>,
    upper: Option<Include<R>>,
    Ghost(low): Ghost<Option<Seq<u8>>>,
    Ghost(high): Ghost<Option<Seq<u8>>>,
) -> (visit: Visit<'g, R, V>)
    requires
        old(writer).valid(),
        edge.wf(),
        limit_valid(lower),
        limit_valid(upper),
        lower_at(old(writer).bytes(), limit(lower), low),
        upper_at(old(writer).bytes(), limit(upper), high),
        match (low, high) {
            (Some(low), Some(high)) => lex_le(low, high),
            _ => true,
        },
        forall|i: int|
            0 <= i < edge_entries(old(writer).bytes(), edge.shape(), low, high).len() ==> (
            #[trigger] edge_entries(old(writer).bytes(), edge.shape(), low, high)[i]).0.len()
                <= W::max(),
    ensures
        final(writer).valid(),
        final(writer).bytes().len() >= old(writer).bytes().len(),
        final(writer).bytes().take(old(writer).bytes().len() as int) == old(writer).bytes(),
        ({
            let entries = edge_entries(old(writer).bytes(), edge.shape(), low, high);
            match visit {
                Visit::Nothing => entries.len() == 0,
                Visit::Value(value) => entries == seq![(final(writer).bytes(), *value)],
                Visit::Node(frame) => {
                    &&& frame.wf(low, high)
                    &&& frame.path@ == final(writer).bytes()
                    &&& frame.entries(low, high) == entries
                    &&& frame.weight() < weight(edge.shape())
                },
            }
        }),
{
    broadcast use crate::raw::cursor::lemma_node_shape;

    let ghost start = writer.bytes();
    let ghost entries = edge_entries(start, edge.shape(), low, high);
    let ghost heavy = weight(edge.shape());
    let mut at = edge;
    let mut low_bound = lower;
    let mut high_bound = upper;
    assert(start.take(start.len() as int) =~= start);
    loop
        invariant
            writer.valid(),
            writer.bytes().len() >= start.len(),
            writer.bytes().take(start.len() as int) == start,
            at.wf(),
            limit_valid(low_bound),
            limit_valid(high_bound),
            lower_at(writer.bytes(), limit(low_bound), low),
            upper_at(writer.bytes(), limit(high_bound), high),
            match (low, high) {
                (Some(low), Some(high)) => lex_le(low, high),
                _ => true,
            },
            entries == edge_entries(writer.bytes(), at.shape(), low, high),
            start == old(writer).bytes(),
            entries == edge_entries(start, edge.shape(), low, high),
            heavy == weight(edge.shape()),
            forall|i: int| 0 <= i < entries.len() ==> (#[trigger] entries[i]).0.len() <= W::max(),
            weight(at.shape()) <= heavy,
        decreases weight(at.shape()),
    {
        broadcast use crate::raw::cursor::lemma_node_shape;

        let ghost path = writer.bytes();
        proof {
            writer.lemma_len();
        }
        match at {
            Edge::Null => {
                proof {
                    lemma_select_none(extend(path, at.shape().entries()), low, high);
                }
                return Visit::Nothing;
            },
            Edge::Value { meta, value } => {
                let (below, above) = match follow(
                    low_bound,
                    high_bound,
                    meta,
                    Ghost(path),
                    Ghost(low),
                    Ghost(high),
                ) {
                    Some(bounds) => bounds,
                    None => {
                        proof {
                            lemma_edge_out(path, at.shape(), low, high);
                        }
                        return Visit::Nothing;
                    },
                };
                proof {
                    lemma_value_entries(
                        path,
                        meta.bytes(),
                        *value,
                        limit(below),
                        limit(above),
                        low,
                        high,
                    );
                }
                if let Some(Include(bound)) = below {
                    if bound.len() > 0 {
                        return Visit::Nothing;
                    }
                }
                if meta.len() > W::capacity() - writer.len() {
                    // No key is that long.
                    assert(entries[0].0.len() > W::max());
                    return Visit::Nothing;
                }
                writer.extend(meta);
                assert(writer.bytes().take(start.len() as int) =~= path.take(start.len() as int));
                return Visit::Value(value);
            },
            Edge::Node { meta, node } => {
                let (below, above) = match follow(
                    low_bound,
                    high_bound,
                    meta,
                    Ghost(path),
                    Ghost(low),
                    Ghost(high),
                ) {
                    Some(bounds) => bounds,
                    None => {
                        proof {
                            lemma_edge_out(path, at.shape(), low, high);
                        }
                        return Visit::Nothing;
                    },
                };
                let ghost here = path + meta.bytes();
                let ghost slots = node.slots();
                let (first, last) = match byte_bounds(
                    below,
                    above,
                    Ghost(here),
                    Ghost(low),
                    Ghost(high),
                ) {
                    Some(bytes) => bytes,
                    None => {
                        proof {
                            lemma_node_out(path, at.shape(), low, high);
                        }
                        return Visit::Nothing;
                    },
                };
                if meta.len() >= W::capacity() - writer.len() {
                    // No key is that long.
                    proof {
                        lemma_node_long(path, at.shape(), low, high, W::max());
                    }
                    return Visit::Nothing;
                }
                writer.extend(meta);
                assert(writer.bytes().take(start.len() as int) =~= path.take(start.len() as int));
                proof {
                    at.lemma_shape_wf();
                    node.header.lemma_wf();
                    lemma_in_key_order(node.header@, first, last, 256);
                    lemma_node_entries(
                        at.shape(),
                        path,
                        node.header@,
                        first,
                        last,
                        low,
                        high,
                        256,
                    );
                }
                let ghost visited = in_key_order(node.header@, first, last, 256);
                assert forall|i: int| 0 <= i < visited.len() implies (#[trigger] visited[i]).index
                    < node.edges@.len() && first <= visited[i].key <= last by {
                    assert(visited.contains(visited[i]));
                }
                // Avoid pushing node iterators with only one entry.
                match node.entry_or_entries(first, last) {
                    Ok(entry) => {
                        assert(visited[0] == entry);
                        proof {
                            lemma_lower_below(here, limit(below), low, entry.key);
                            lemma_upper_below(here, limit(above), high, entry.key);
                            assert(visited.drop_last() =~= Seq::<KeyIndex>::empty());
                            assert(slots_entries(here, slots, visited.drop_last(), low, high).len()
                                == 0);
                            assert(slots_entries(here, slots, visited, low, high) =~= slot_entries(
                                here,
                                slots,
                                entry,
                                low,
                                high,
                            ));
                            assert(slots_weight(slots, visited.drop_last()) == 0);
                        }
                        low_bound =
                        match below {
                            Some(bound) => bound.below(entry.key),
                            None => None,
                        };
                        high_bound =
                        match above {
                            Some(bound) => bound.below(entry.key),
                            None => None,
                        };
                        writer.push(entry.key);
                        assert(writer.bytes().take(start.len() as int) =~= path.take(
                            start.len() as int,
                        ));
                        at = &node.edges[entry.index as usize];
                    },
                    Err(keys) => {
                        return Visit::Node(
                            Frame {
                                len: writer.len(),
                                lower: below,
                                upper: above,
                                keys,
                                node,
                                path: Ghost(here),
                            },
                        );
                    },
                }
            },
        }
    }
}

/// The end of a path is in range unless it is below the lower bound.
pub proof fn lemma_end_in_range(
    key: Seq<u8>,
    below: Option<Seq<u8>>,
    above: Option<Seq<u8>>,
    low: Option<Seq<u8>>,
    high: Option<Seq<u8>>,
)
    requires
        lower_at(key, below, low),
        upper_at(key, above, high),
    ensures
        in_range(low, high, key) <==> !(below matches Some(bound) && bound.len() > 0),
{
    assert(key + Seq::<u8>::empty() =~= key);
    if let Some(bound) = above {
        lemma_lex_extend(key, Seq::<u8>::empty(), bound);
        if bound.len() == 0 {
            assert(bound =~= Seq::<u8>::empty());
        } else {
            lemma_common_len_is(Seq::<u8>::empty(), bound, 0);
        }
    } else {
        assert(in_range(None, high, key + Seq::<u8>::empty()));
    }
    if let Some(bound) = below {
        lemma_lex_extend(key, bound, Seq::<u8>::empty());
        if bound.len() == 0 {
            assert(bound =~= Seq::<u8>::empty());
        } else {
            lemma_common_len_is(bound, Seq::<u8>::empty(), 0);
            assert(!lex_le(key + bound, key));
        }
    } else {
        assert(in_range(low, None, key + Seq::<u8>::empty()));
    }
}

/// A value behind an edge is in range unless it is below the lower bound.
proof fn lemma_value_entries<V>(
    path: Seq<u8>,
    bytes: Seq<u8>,
    value: V,
    below: Option<Seq<u8>>,
    above: Option<Seq<u8>>,
    low: Option<Seq<u8>>,
    high: Option<Seq<u8>>,
)
    requires
        lower_at(path + bytes, below, low),
        upper_at(path + bytes, above, high),
    ensures
        edge_entries(path, Shape::Value { prefix: bytes, value }, low, high) == (if below matches Some(
            bound,
        ) && bound.len() > 0 {
            Seq::<(Seq<u8>, V)>::empty()
        } else {
            seq![(path + bytes, value)]
        }),
{
    let key = path + bytes;
    let shape = Shape::Value { prefix: bytes, value };
    let all = extend(path, shape.entries());
    assert(all =~= seq![(key, value)]);
    lemma_end_in_range(key, below, above, low, high);
    if in_range(low, high, key) {
        lemma_select_all(all, low, high);
    } else {
        lemma_select_none(all, low, high);
    }
}

/// Nothing is in range below a node of which no byte is in range.
proof fn lemma_node_out<V>(
    path: Seq<u8>,
    shape: Shape<V>,
    low: Option<Seq<u8>>,
    high: Option<Seq<u8>>,
)
    requires
        shape is Node,
        forall|b: u8, k: Seq<u8>|
            !in_range(low, high, #[trigger] ((path + shape.prefix()).push(b) + k)),
    ensures
        edge_entries(path, shape, low, high).len() == 0,
{
    let all = extend(path, shape.entries());
    lemma_entries_below(shape, 256);
    let prefix = shape.prefix();
    assert forall|i: int| 0 <= i < all.len() implies !in_range(low, high, (#[trigger] all[i]).0) by {
        let key = shape.entries_below(256)[i].0;
        lemma_descends(prefix, key);
        let b = key[prefix.len() as int];
        let k = rest(prefix, key);
        assert(path + key =~= (path + prefix).push(b) + k);
        assert(!in_range(low, high, (path + prefix).push(b) + k));
    }
    lemma_select_none(all, low, high);
}

/// Keys below a node are longer than the path to it.
proof fn lemma_node_long<V>(
    path: Seq<u8>,
    shape: Shape<V>,
    low: Option<Seq<u8>>,
    high: Option<Seq<u8>>,
    max: nat,
)
    requires
        shape is Node,
        path.len() + shape.prefix().len() >= max,
        forall|i: int|
            0 <= i < edge_entries(path, shape, low, high).len() ==> (#[trigger] edge_entries(
                path,
                shape,
                low,
                high,
            )[i]).0.len() <= max,
    ensures
        edge_entries(path, shape, low, high).len() == 0,
{
    let all = extend(path, shape.entries());
    let pred = |entry: (Seq<u8>, V)| in_range(low, high, entry.0);
    let out = edge_entries(path, shape, low, high);
    lemma_entries_below(shape, 256);
    if out.len() > 0 {
        assert(all.filter(pred)[0] == out[0]);
        all.lemma_filter_contains_rev(pred, out[0]);
        let i = all.index_of(out[0]);
        assert(all[i] == out[0]);
        assert(descends(shape.prefix(), shape.entries_below(256)[i].0));
    }
}

/// Entries through a slot are longer than the path to it.
proof fn lemma_slot_long<V>(
    path: Seq<u8>,
    slots: Seq<(u8, Shape<V>)>,
    entry: KeyIndex,
    low: Option<Seq<u8>>,
    high: Option<Seq<u8>>,
    i: int,
)
    requires
        0 <= i < slot_entries(path, slots, entry, low, high).len(),
    ensures
        slot_entries(path, slots, entry, low, high)[i].0.len() > path.len(),
{
    let all = extend(path.push(entry.key), slots[entry.index as int].1.entries());
    let pred = |e: (Seq<u8>, V)| in_range(low, high, e.0);
    let out = slot_entries(path, slots, entry, low, high);
    assert(all.filter(pred)[i] == out[i]);
    all.lemma_filter_contains_rev(pred, out[i]);
    let j = all.index_of(out[i]);
    assert(all[j] == out[i]);
}

impl<'g, R: Read, W: Write<Edge = R::Edge>, V> RangeIter<'g, R, W, V> {
    /// Iterator without entries.
    pub fn empty(order: Order) -> (iter: Self)
        ensures
            iter.wf(),
            iter.direction() == order,
            iter.pending() == Seq::<(Seq<u8>, V)>::empty(),
    {
        RangeIter {
            order,
            writer: W::new(),
            root: None,
            stack: Vec::new(),
            lower: Ghost(None),
            upper: Ghost(None),
        }
    }

    /// Iterator over the entries of a subtree that are in range.
    ///
    /// The bytes of `prefix` lead to `edge`; the bounds continue them.
    pub fn new_unchecked(
        edge: &'g Edge<R::Edge, V>,
        prefix: R,
        order: Order,
        lower: Option<Include<R>>,
        upper: Option<Include<R>>,
    ) -> (iter: Self)
        requires
            edge.wf(),
            prefix.valid(),
            limit_valid(lower),
            limit_valid(upper),
            match (limit(lower), limit(upper)) {
                (Some(lower), Some(upper)) => lex_le(lower, upper),
                _ => true,
            },
            forall|i: int|
                0 <= i < edge.shape().entries().len() ==> prefix.bytes().len() + (
                #[trigger] edge.shape().entries()[i]).0.len() <= W::max(),
        ensures
            iter.wf(),
            iter.direction() == order,
            iter.pending() == select(
                extend(prefix.bytes(), edge.shape().entries()),
                continued(prefix.bytes(), limit(lower)),
                continued(prefix.bytes(), limit(upper)),
            ),
    {
        let ghost base = prefix.bytes();
        let ghost low = continued(base, limit(lower));
        let ghost high = continued(base, limit(upper));
        let ghost all = extend(base, edge.shape().entries());
        let ghost entries = edge_entries(base, edge.shape(), low, high);
        proof {
            let pred = |e: (Seq<u8>, V)| in_range(low, high, e.0);
            assert forall|i: int| 0 <= i < entries.len() implies base.len() <= (
            #[trigger] entries[i]).0.len() <= W::max() by {
                assert(all.filter(pred)[i] == entries[i]);
                all.lemma_filter_contains_rev(pred, entries[i]);
                let j = all.index_of(entries[i]);
                assert(all[j] == entries[i]);
                assert(edge.shape().entries()[j].0.len() + base.len() <= W::max());
            }
            if let (Some(x), Some(y)) = (limit(lower), limit(upper)) {
                lemma_lex_extend(base, x, y);
            }
        }
        let len: usize = prefix.len();
        if len > W::capacity() {
            // No key is that long.
            assert(entries.len() > 0 ==> entries[0].0.len() > W::max());
            assert(entries =~= Seq::<(Seq<u8>, V)>::empty());
            return Self::empty(order);
        }
        let mut writer = W::new();
        let mut i: usize = 0;
        while i < len
            invariant
                i <= len,
                len == base.len(),
                base == prefix.bytes(),
                prefix.valid(),
                len <= W::max(),
                writer.valid(),
                writer.bytes() == base.take(i as int),
            decreases len - i,
        {
            if let Some(byte) = prefix.get_byte(i) {
                writer.push(byte);
            }
            assert(writer.bytes() =~= base.take(i as int + 1));
            i += 1;
        }
        assert(writer.bytes() =~= base);
        let mut iter = RangeIter {
            order,
            writer,
            root: None,
            stack: Vec::new(),
            lower: Ghost(low),
            upper: Ghost(high),
        };
        match visit(&mut iter.writer, edge, lower, upper, Ghost(low), Ghost(high)) {
            Visit::Nothing => {
                assert(entries =~= Seq::<(Seq<u8>, V)>::empty());
            },
            Visit::Value(value) => {
                iter.root = Some(value);
            },
            Visit::Node(frame) => {
                iter.stack.push(frame);
                proof {
                    let stack = iter.stack@;
                    assert(stack.drop_last() =~= Seq::<Frame<'g, R, V>>::empty());
                    assert(from_top(stack.drop_last(), low, high).len() == 0);
                    assert(from_bottom(stack.drop_last(), low, high).len() == 0);
                    assert(from_top(stack, low, high) =~= entries);
                    assert(from_bottom(stack, low, high) =~= entries);
                    assert(iter.writer.bytes().take(frame.len as int) =~= frame.path@);
                    assert(iter.pending() == entries);
                }
            },
        }
        iter
    }

    /// Entries through a slot of the node on top of the stack.
    closed spec fn through(self, entry: KeyIndex) -> Seq<(Seq<u8>, V)> {
        slot_entries(
            self.stack@.last().path@,
            self.stack@.last().node.slots(),
            entry,
            self.lower@,
            self.upper@,
        )
    }

    /// Take the next slot of the node on top of the stack, and drop the node
    /// if there is none.
    fn take(&mut self) -> (entry: Option<KeyIndex>)
        requires
            old(self).wf(),
            old(self).root is None,
            old(self).stack@.len() > 0,
        ensures
            final(self).wf(),
            final(self).root is None,
            final(self).order == old(self).order,
            final(self).lower == old(self).lower,
            final(self).upper == old(self).upper,
            match entry {
                None => {
                    &&& final(self).pending() == old(self).pending()
                    &&& stack_weight(final(self).stack@) < stack_weight(old(self).stack@)
                },
                Some(entry) => {
                    let term = old(self).through(entry);
                    let top = final(self).stack@.last();
                    &&& final(self).stack@.len() == old(self).stack@.len()
                    &&& final(self).through(entry) == term
                    &&& entry.index < top.node.edges@.len()
                    &&& limit(top.lower) matches Some(bound) ==> bound.len() > 0 ==> bound[0]
                        <= entry.key
                    &&& limit(top.upper) matches Some(bound) ==> bound.len() > 0 && entry.key
                        <= bound[0]
                    &&& old(self).pending() == (match old(self).order {
                        Order::Ascend => term + final(self).pending(),
                        Order::Descend => final(self).pending() + term,
                    })
                    &&& stack_weight(final(self).stack@) + 1 + weight(
                        top.node.slots()[entry.index as int].1,
                    ) == stack_weight(old(self).stack@)
                    &&& forall|i: int|
                        0 <= i < term.len() ==> (#[trigger] term[i]).0.len() <= W::max()
                },
            },
    {
        let top: usize = self.stack.len() - 1;
        let ghost before = *self;
        let ghost low = self.lower@;
        let ghost high = self.upper@;
        let ghost frame = self.stack@[top as int];
        let ghost slots = frame.node.slots();
        assert(frame.wf(low, high));
        let next = match self.order {
            Order::Ascend => self.stack[top].keys.next(),
            Order::Descend => self.stack[top].keys.next_back(),
        };
        match next {
            None => {
                let _ = self.stack.pop();
                proof {
                    assert(frame.keys.remaining().len() == 0);
                    assert(frame.entries(low, high).len() == 0);
                    assert(self.stack@ =~= before.stack@.drop_last());
                    assert(self.pending() =~= before.pending());
                }
            },
            Some(entry) => {
                proof {
                    let after = self.stack@[top as int];
                    let term = before.through(entry);
                    assert(after.node == frame.node && after.path == frame.path);
                    assert(self.stack@.drop_last() =~= before.stack@.drop_last());
                    if self.order is Ascend {
                        lemma_slots_entries_first(
                            frame.path@,
                            slots,
                            frame.keys.remaining(),
                            low,
                            high,
                        );
                        lemma_slots_weight_first(slots, frame.keys.remaining());
                        assert(entry == frame.keys.remaining()[0]);
                        assert forall|i: int| 0 <= i < after.keys.remaining().len() implies
                            #[trigger] after.keys.remaining()[i] == frame.keys.remaining()[i
                            + 1] by {}
                        assert(before.pending() =~= term + self.pending());
                    } else {
                        assert(entry == frame.keys.remaining()[frame.keys.remaining().len() - 1]);
                        assert forall|i: int| 0 <= i < after.keys.remaining().len() implies
                            #[trigger] after.keys.remaining()[i] == frame.keys.remaining()[i] by {}
                        assert(before.pending() =~= self.pending() + term);
                    }
                    assert(after.wf(low, high));
                    let shift = if self.order is Ascend { term.len() as int } else { 0 };
                    assert forall|i: int| 0 <= i < self.pending().len() implies (
                    #[trigger] self.pending()[i]).0.len() <= W::max() by {
                        assert(self.pending()[i] == before.pending()[i + shift]);
                    }
                    assert forall|i: int| 0 <= i < term.len() implies (
                    #[trigger] term[i]).0.len() <= W::max() by {
                        if self.order is Ascend {
                            assert(before.pending()[i] == term[i]);
                        } else {
                            assert(before.pending()[self.pending().len() + i] == term[i]);
                        }
                    }
                }
            },
        }
        next
    }

    /// Follow a slot of the node on top of the stack.
    fn follow_slot(&mut self, entry: KeyIndex) -> (value: Option<&'g V>)
        requires
            old(self).wf(),
            old(self).root is None,
            old(self).stack@.len() > 0,
            entry.index < old(self).stack@.last().node.edges@.len(),
            limit(old(self).stack@.last().lower) matches Some(bound) ==> bound.len() > 0 ==> bound[0]
                <= entry.key,
            limit(old(self).stack@.last().upper) matches Some(bound) ==> bound.len() > 0
                && entry.key <= bound[0],
            forall|i: int|
                0 <= i < old(self).through(entry).len() ==> (#[trigger] old(self).through(
                    entry,
                )[i]).0.len() <= W::max(),
        ensures
            final(self).wf(),
            final(self).root is None,
            final(self).order == old(self).order,
            stack_weight(final(self).stack@) <= stack_weight(old(self).stack@) + weight(
                old(self).stack@.last().node.slots()[entry.index as int].1,
            ),
            match value {
                Some(value) => old(self).through(entry) == seq![(final(self).key(), *value)]
                    && final(self).pending() == old(self).pending(),
                None => final(self).pending() == (match old(self).order {
                    Order::Ascend => old(self).through(entry) + old(self).pending(),
                    Order::Descend => old(self).pending() + old(self).through(entry),
                }),
            },
    {
        let top: usize = self.stack.len() - 1;
        let ghost before = *self;
        let ghost low = self.lower@;
        let ghost high = self.upper@;
        let ghost frame = self.stack@[top as int];
        let ghost slots = frame.node.slots();
        let ghost term = self.through(entry);
        assert(frame.wf(low, high));
        let len: usize = self.stack[top].len;
        if len >= W::capacity() {
            // No key is that long.
            proof {
                if term.len() > 0 {
                    lemma_slot_long(frame.path@, slots, entry, low, high, 0);
                }
                assert(term =~= Seq::<(Seq<u8>, V)>::empty());
                assert(term + self.pending() =~= self.pending());
                assert(self.pending() + term =~= self.pending());
            }
            return None;
        }
        let lower = match self.stack[top].lower {
            Some(bound) => bound.below(entry.key),
            None => None,
        };
        let upper = match self.stack[top].upper {
            Some(bound) => bound.below(entry.key),
            None => None,
        };
        let node = self.stack[top].node;
        self.writer.truncate(len);
        self.writer.push(entry.key);
        let ghost path = frame.path@.push(entry.key);
        proof {
            assert(self.writer.bytes() =~= path);
            lemma_lower_below(frame.path@, limit(frame.lower), low, entry.key);
            lemma_upper_below(frame.path@, limit(frame.upper), high, entry.key);
        }
        let edge = &node.edges[entry.index as usize];
        assert(slots[entry.index as int].1 == edge.shape());
        assert(term == edge_entries(self.writer.bytes(), edge.shape(), low, high));
        let found = visit(&mut self.writer, edge, lower, upper, Ghost(low), Ghost(high));
        proof {
            assert(self.stack@ == before.stack@);
            assert forall|i: int| 0 <= i < self.stack@.len() implies (#[trigger] self.stack@[i]).len
                <= self.writer.bytes().len() && self.writer.bytes().take(self.stack@[i].len as int)
                == self.stack@[i].path@ by {
                let n = self.stack@[i].len as int;
                assert(before.stack@[i].len <= before.stack@[top as int].len);
                assert(self.writer.bytes().take(n) =~= self.writer.bytes().take(
                    path.len() as int,
                ).take(n));
                assert(path.take(n) =~= frame.path@.take(n));
                assert(frame.path@.take(n) =~= before.writer.bytes().take(n));
            }
        }
        match found {
            Visit::Nothing => {
                proof {
                    assert(term =~= Seq::<(Seq<u8>, V)>::empty());
                    assert(term + before.pending() =~= before.pending());
                    assert(before.pending() + term =~= before.pending());
                    assert(self.pending() == before.pending());
                }
                None
            },
            Visit::Value(value) => {
                assert(self.pending() == before.pending());
                Some(value)
            },
            Visit::Node(below) => {
                self.stack.push(below);
                proof {
                    assert(self.stack@.drop_last() =~= before.stack@);
                    let all = self.pending();
                    assert forall|i: int| 0 <= i < all.len() implies (#[trigger] all[i]).0.len()
                        <= W::max() by {
                        if self.order is Ascend {
                            if i < term.len() {
                                assert(all[i] == term[i]);
                            } else {
                                assert(all[i] == before.pending()[i - term.len()]);
                            }
                        } else {
                            if i < before.pending().len() {
                                assert(all[i] == before.pending()[i]);
                            } else {
                                assert(all[i] == term[i - before.pending().len()]);
                            }
                        }
                    }
                    assert(self.writer.bytes().take(below.len as int) =~= below.path@);
                }
                None
            },
        }
    }

    /// Visit the next entry.
    ///
    /// Returns its value; [`RangeIter::writer`] then holds its key.
    pub fn next(&mut self) -> (value: Option<&'g V>)
        requires
            old(self).wf(),
        ensures
            final(self).wf(),
            final(self).direction() == old(self).direction(),
            old(self).pending().len() == 0 ==> value is None && final(self).pending() == old(
                self,
            ).pending(),
            old(self).pending().len() > 0 ==> value is Some && (match old(self).direction() {
                Order::Ascend => (final(self).key(), *value->0) == old(self).pending().first()
                    && final(self).pending() == old(self).pending().drop_first(),
                Order::Descend => (final(self).key(), *value->0) == old(self).pending().last()
                    && final(self).pending() == old(self).pending().drop_last(),
            }),
    {
        if let Some(value) = self.root {
            self.root = None;
            assert(self.pending() =~= Seq::<(Seq<u8>, V)>::empty());
            return Some(value);
        }
        while self.stack.len() > 0
            invariant
                self.wf(),
                self.root is None,
                self.order == old(self).order,
                self.pending() == old(self).pending(),
            decreases stack_weight(self.stack@),
        {
            if let Some(entry) = self.take() {
                if let Some(value) = self.follow_slot(entry) {
                    proof {
                        if self.order is Ascend {
                            assert(self.pending() =~= old(self).pending().drop_first());
                        } else {
                            assert(self.pending() =~= old(self).pending().drop_last());
                        }
                    }
                    return Some(value);
                }
            }
        }
        None
    }
}

/// A relative bound behind the bytes that lead to it.
pub open spec fn continued(prefix: Seq<u8>, bound: Option<Seq<u8>>) -> Option<Seq<u8>> {
    match bound {
        Some(bound) => Some(prefix + bound),
        None => None,
    }
}

} // verus!
