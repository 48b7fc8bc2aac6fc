//! Scans of shared memory, one atomic access at a time.
//!
//! A scan is a state machine, as other operations are. It is not atomic: what
//! it reports may be spread over the time that it takes. It reports keys in
//! order, at most once, and leaves no key out that was there all the time.
use vstd::prelude::*;
use crate::bytes::{
    common_len, lemma_common_len, lemma_lex_irreflexive, lemma_lex_total, lemma_lex_transitive, lex_le,
    lex_lt,
};
use crate::concurrent::cursor::{Cursor, Path};
use crate::concurrent::memory::{grows, inner, leads, lemma_slot, Link, Memory, Place, Target};
use crate::concurrent::tree::{evolves, key_set, lookup, Tree, Word};
use crate::concurrent::walk::{lemma_now, lemma_seen};
use crate::raw::edge::Meta;
use crate::raw::iter::range::{
    byte_bounds, follow, is_inverted, lemma_end_in_range, lemma_lower_below, lemma_upper_below,
    limit, limit_valid, lower_at, upper_at, Include, Range,
};
use crate::raw::iter::Order;
use crate::raw::key::{Key, Read, Write};
use crate::raw::node::iter::{ascending, in_key_order, lemma_in_key_order, KeyIndex, KeyIter};
use crate::raw::shape::entries::{in_range, lemma_lex_at};
use crate::raw::shape::laws::lemma_descends;
use crate::raw::shape::{descends, rest};

pub mod progress;

verus! {

/// Since the change numbered `start`, every key behind `path` had the value
/// that a walk from `link` finds now.
pub open spec fn fresh_under<K: Key>(
    tree: Tree<K>,
    path: Seq<u8>,
    link: Link,
    start: int,
) -> bool {
    forall|k: Seq<u8>| #[trigger]
        K::is_key(k) && leads(path, k) ==> tree.seen(
            start,
            k,
            tree.memory().get(link, k.skip(path.len() as int)),
        )
}

/// Accesses of other operations do not change what a walk has seen.
proof fn lemma_word_stable<K: Key>(
    before: Tree<K>,
    after: Tree<K>,
    path: Seq<u8>,
    link: Link,
    start: int,
)
    requires
        evolves(before, after),
        after.wf(),
        start < before.history@.len(),
        before.memory().fits(path, link),
        fresh_under(before, path, link, start),
    ensures
        fresh_under(after, path, link, start),
{
    let m = before.memory();
    let n = after.memory();
    assert forall|k: Seq<u8>| #[trigger] K::is_key(k) && leads(path, k) implies after.seen(
        start,
        k,
        n.get(link, k.skip(path.len() as int)),
    ) by {
        let tail = k.skip(path.len() as int);
        assert(path + tail =~= k);
        lemma_seen(before, after, start, k, m.get(link, tail));
        lemma_now(after, start, k);
        assert(n.get(link, tail) == m.get(link, tail) || n.get(link, tail) == n.get(
            n.root,
            path + tail,
        ));
    }
}

/// Accesses of other operations do not change what a walk from a place has
/// seen.
proof fn lemma_place_stable<K: Key>(before: Tree<K>, after: Tree<K>, place: Place, start: int)
    requires
        evolves(before, after),
        after.wf(),
        start < before.history@.len(),
        before.memory().valid(place),
        fresh_under(before, before.memory().path(place), before.memory().at(place), start),
    ensures
        after.memory().valid(place),
        after.memory().path(place) == before.memory().path(place),
        fresh_under(after, after.memory().path(place), after.memory().at(place), start),
{
    let m = before.memory();
    let n = after.memory();
    let path = m.path(place);
    if let Place::Slot { node, slot } = place {
        let old = m.blocks[node as int];
        assert(n.blocks[node as int].keys[slot as int] == old.keys[slot as int]);
    }
    assert forall|k: Seq<u8>| #[trigger] K::is_key(k) && leads(path, k) implies after.seen(
        start,
        k,
        n.get(n.at(place), k.skip(path.len() as int)),
    ) by {
        let tail = k.skip(path.len() as int);
        assert(path + tail =~= k);
        lemma_seen(before, after, start, k, m.get(m.at(place), tail));
        lemma_now(after, start, k);
        assert(n.get(n.at(place), tail) == m.get(m.at(place), tail) || n.get(n.at(place), tail)
            == n.get(n.root, path + tail));
    }
}

/// A word that was read at a place, now or earlier.
pub open spec fn held_at<K: Key>(memory: Memory, place: Place, word: Word<K::Edge>) -> bool {
    &&& word.meta.valid()
    &&& memory.fits(memory.path(place), word.link())
    &&& word.target is Value ==> K::is_key(memory.path(place) + word.link().bytes)
}

/// The word at a place is one that can be held.
proof fn lemma_held_at<K: Key>(tree: Tree<K>, place: Place, word: Word<K::Edge>)
    requires
        tree.wf(),
        tree.memory().valid(place),
        word.meta.valid(),
        word.link() == tree.memory().at(place),
    ensures
        held_at::<K>(tree.memory(), place, word),
{
    let memory = tree.memory();
    memory.lemma_at(place);
    memory.lemma_stored(key_set::<K>(), place);
}

/// Which keys a scan is to find.
pub struct Goal {
    /// What the keys begin with.
    pub prefix: Seq<u8>,
    /// Smallest key.
    pub lower: Option<Seq<u8>>,
    /// Largest key.
    pub upper: Option<Seq<u8>>,
}

impl Goal {
    /// The scan is to find the key.
    pub open spec fn covers(self, key: Seq<u8>) -> bool {
        leads(self.prefix, key) && in_range(self.lower, self.upper, key)
    }

    /// The lower bound is not above the upper bound, and both begin with the
    /// prefix.
    pub open spec fn wf(self) -> bool {
        &&& self.lower matches Some(lower) ==> leads(self.prefix, lower)
        &&& self.upper matches Some(upper) ==> leads(self.prefix, upper)
        &&& match (self.lower, self.upper) {
            (Some(lower), Some(upper)) => lex_le(lower, upper),
            _ => true,
        }
    }
}

/// `a` comes before `b` in the direction of a scan.
pub open spec fn precedes(order: Order, a: Seq<u8>, b: Seq<u8>) -> bool {
    match order {
        Order::Ascend => lex_lt(a, b),
        Order::Descend => lex_lt(b, a),
    }
}

/// Keys behind smaller bytes are smaller.
proof fn lemma_precedes(order: Order, path: Seq<u8>, a: Seq<u8>, b: Seq<u8>)
    requires
        leads(path, a),
        leads(path, b),
        path.len() < a.len(),
        path.len() < b.len(),
        match order {
            Order::Ascend => a[path.len() as int] < b[path.len() as int],
            Order::Descend => a[path.len() as int] > b[path.len() as int],
        },
    ensures
        precedes(order, a, b),
{
    let n = path.len() as int;
    assert forall|i: int| 0 <= i < n implies a[i] == b[i] by {
        assert(a.take(n)[i] == a[i]);
        assert(b.take(n)[i] == b[i]);
    }
    match order {
        Order::Ascend => lemma_lex_at(a, b, n),
        Order::Descend => lemma_lex_at(b, a, n),
    }
}

/// A longer path leads to fewer keys.
proof fn lemma_leads(a: Seq<u8>, b: Seq<u8>, k: Seq<u8>)
    requires
        leads(a, b),
        leads(b, k),
    ensures
        leads(a, k),
{
    assert(k.take(a.len() as int) =~= k.take(b.len() as int).take(a.len() as int));
}

/// A radix byte is among those of the slots.
pub open spec fn lists_key(slots: Seq<KeyIndex>, byte: u8) -> bool {
    exists|j: int| 0 <= j < slots.len() && (#[trigger] slots[j]).key == byte
}

/// A node of which some slots are still to be visited.
pub struct Frame<R> {
    pub node: usize,
    /// Number of bytes that lead to the node.
    pub len: usize,
    pub lower: Option<Include<R>>,
    pub upper: Option<Include<R>>,
    pub keys: KeyIter,
    pub path: Ghost<Seq<u8>>,
}

impl<R: Read> Frame<R> {
    /// The key lies behind a slot that is still to be visited.
    pub open spec fn waits(self, key: Seq<u8>) -> bool {
        &&& leads(self.path@, key)
        &&& self.path@.len() < key.len()
        &&& lists_key(self.keys.remaining(), key[self.path@.len() as int])
    }

    /// The slot can be visited.
    pub open spec fn visitable<K: Key>(self, tree: Tree<K>, start: int, slot: KeyIndex) -> bool {
        let block = tree.memory().blocks[self.node as int];
        &&& slot.index < block.keys.len()
        &&& block.keys[slot.index as int] == slot.key
        &&& limit(self.lower) matches Some(bound) ==> bound.len() > 0 ==> bound[0] <= slot.key
        &&& limit(self.upper) matches Some(bound) ==> bound.len() > 0 && slot.key <= bound[0]
        &&& fresh_under(
            tree,
            self.path@.push(slot.key),
            block.links[slot.index as int],
            start,
        )
    }

    pub open spec fn wf<K: Key>(self, tree: Tree<K>, goal: Goal, start: int) -> bool {
        &&& self.node < tree.memory().blocks.len()
        &&& tree.memory().blocks[self.node as int].path == self.path@
        &&& self.len == self.path@.len()
        &&& leads(goal.prefix, self.path@)
        &&& limit_valid(self.lower)
        &&& limit_valid(self.upper)
        &&& lower_at(self.path@, limit(self.lower), goal.lower)
        &&& upper_at(self.path@, limit(self.upper), goal.upper)
        &&& self.keys.wf()
        &&& ascending(self.keys.remaining())
        &&& forall|j: int|
            0 <= j < self.keys.remaining().len() ==> self.visitable(
                tree,
                start,
                #[trigger] self.keys.remaining()[j],
            )
    }

    /// Accesses of other operations do not disturb what is to be visited.
    proof fn lemma_stable<K: Key>(self, before: Tree<K>, after: Tree<K>, goal: Goal, start: int)
        requires
            evolves(before, after),
            after.wf(),
            start < before.history@.len(),
            self.wf(before, goal, start),
        ensures
            self.wf(after, goal, start),
    {
        let old = before.memory().blocks[self.node as int];
        let new = after.memory().blocks[self.node as int];
        assert(grows(before.memory(), after.memory()));
        assert forall|j: int| 0 <= j < self.keys.remaining().len() implies self.visitable(
            after,
            start,
            #[trigger] self.keys.remaining()[j],
        ) by {
            let slot = self.keys.remaining()[j];
            assert(self.visitable(before, start, slot));
            assert(new.keys[slot.index as int] == old.keys[slot.index as int]);
            lemma_place_stable(
                before,
                after,
                Place::Slot { node: self.node, slot: slot.index },
                start,
            );
        }
    }
}

/// State of a scan.
pub enum ScanPhase<M> {
    /// Read the word at the cursor's place, on the way to the prefix.
    Seek,
    /// Look at a word that was read there.
    Match { word: Word<M> },
    /// Read the word at a place behind the prefix.
    Load,
    /// Look at a word that was read there.
    Look { word: Word<M> },
    /// Go on with the innermost node.
    Next,
}

impl<M: Meta> Copy for ScanPhase<M> {}

impl<M: Meta> Clone for ScanPhase<M> {
    fn clone(&self) -> (phase: Self)
        ensures
            phase == *self,
    {
        *self
    }
}

/// Outcome of a step of a scan.
#[derive(Copy, Clone, Debug, PartialEq, Eq, Structural)]
pub enum ScanStep {
    /// The scan goes on.
    Pending,
    /// The value of the key that the writer holds.
    Entry { value: u64 },
    /// There are no further entries.
    End,
}

/// Scan of the keys that begin with a prefix and lie in a range.
pub struct Scan<K: Key, R> {
    pub order: Order,
    pub prefix: R,
    /// Way down to the prefix.
    pub cursor: Cursor<R>,
    /// Where the current word is stored.
    pub place: Place,
    /// What is left of the bounds at the place.
    pub lower: Option<Include<R>>,
    pub upper: Option<Include<R>>,
    pub phase: ScanPhase<K::Edge>,
    /// Nodes on the path, from the outermost to the innermost.
    pub frames: Vec<Frame<R>>,
    /// Bytes that lead to the place, or the key that was reported last.
    pub writer: K::Write,
    pub goal: Ghost<Goal>,
    /// Number of the change after which the scan was started.
    pub start: Ghost<int>,
    /// What was reported.
    pub entries: Ghost<Seq<(Seq<u8>, u64)>>,
}

impl<K: Key, R: Read<Edge = K::Edge>> Scan<K, R> {
    /// The key lies behind a node of which some slots are still to be visited.
    pub open spec fn deferred(self, key: Seq<u8>) -> bool {
        exists|i: int| 0 <= i < self.frames@.len() && (#[trigger] self.frames@[i]).waits(key)
    }

    /// The key lies behind the current place.
    pub open spec fn current(self, key: Seq<u8>) -> bool {
        match self.phase {
            ScanPhase::Seek | ScanPhase::Match { .. } => true,
            ScanPhase::Load | ScanPhase::Look { .. } => leads(self.writer.bytes(), key),
            ScanPhase::Next => false,
        }
    }

    /// The key was reported.
    pub open spec fn reported(self, key: Seq<u8>) -> bool {
        exists|i: int| 0 <= i < self.entries@.len() && (#[trigger] self.entries@[i]).0 == key
    }

    /// What was reported is in order, no key was reported twice, and each had
    /// its value at some time since the scan was started.
    pub open spec fn faithful(self, tree: Tree<K>) -> bool {
        &&& forall|i: int|
            0 <= i < self.entries@.len() ==> {
                &&& K::is_key((#[trigger] self.entries@[i]).0)
                &&& self.goal@.covers(self.entries@[i].0)
                &&& tree.seen(self.start@, self.entries@[i].0, Some(self.entries@[i].1))
            }
        &&& forall|i: int, j: int|
            0 <= i < j < self.entries@.len() ==> precedes(
                self.order,
                (#[trigger] self.entries@[i]).0,
                (#[trigger] self.entries@[j]).0,
            )
    }

    /// Each key that is neither reported nor still to be visited was absent at
    /// some time since the scan was started.
    pub open spec fn thorough(self, tree: Tree<K>) -> bool {
        forall|k: Seq<u8>| #[trigger]
            K::is_key(k) && self.goal@.covers(k) ==> self.current(k) || self.deferred(k)
                || self.reported(k) || tree.seen(self.start@, k, None)
    }

    /// Reported keys come first, then those behind the current place, then
    /// those that are deferred, where inner nodes come before outer ones.
    pub open spec fn in_order(self) -> bool {
        &&& forall|i: int, k: Seq<u8>|
            0 <= i < self.entries@.len() && #[trigger] self.current(k) ==> precedes(
                self.order,
                (#[trigger] self.entries@[i]).0,
                k,
            )
        &&& forall|i: int, k: Seq<u8>|
            0 <= i < self.entries@.len() && #[trigger] self.deferred(k) ==> precedes(
                self.order,
                (#[trigger] self.entries@[i]).0,
                k,
            )
        &&& forall|j: Seq<u8>, k: Seq<u8>| #[trigger]
            self.current(j) && #[trigger] self.deferred(k) ==> precedes(self.order, j, k)
        &&& forall|h: int, i: int, j: Seq<u8>, k: Seq<u8>|
            0 <= h < i < self.frames@.len() && #[trigger] self.frames@[i].waits(j)
                && #[trigger] self.frames@[h].waits(k) ==> precedes(self.order, j, k)
    }

    /// The scan is in a state that it can go on from.
    pub open spec fn wf(self, tree: Tree<K>) -> bool {
        let memory = tree.memory();
        let path = self.writer.bytes();
        &&& 0 <= self.start@ < tree.history@.len()
        &&& self.over() || self.goal@.wf()
        &&& self.writer.valid()
        &&& limit_valid(self.lower)
        &&& limit_valid(self.upper)
        &&& self.faithful(tree)
        &&& self.thorough(tree)
        &&& self.in_order()
        &&& forall|i: int|
            0 <= i < self.frames@.len() ==> (#[trigger] self.frames@[i]).wf(
                tree,
                self.goal@,
                self.start@,
            )
        &&& forall|i: int|
            0 <= i < self.frames@.len() ==> (#[trigger] self.frames@[i]).len <= path.len()
                && self.frames@[i].path@ == path.take(self.frames@[i].len as int)
        &&& forall|i: int, j: int|
            0 <= i < j < self.frames@.len() ==> (#[trigger] self.frames@[i]).len <= (
            #[trigger] self.frames@[j]).len
        &&& match self.phase {
            ScanPhase::Seek => {
                &&& self.seeking(memory)
                &&& fresh_under(
                    tree,
                    memory.path(self.cursor.place),
                    memory.at(self.cursor.place),
                    self.start@,
                )
            },
            ScanPhase::Match { word } => {
                &&& self.seeking(memory)
                &&& held_at::<K>(memory, self.cursor.place, word)
                &&& fresh_under(tree, memory.path(self.cursor.place), word.link(), self.start@)
            },
            ScanPhase::Load => {
                &&& self.standing(memory)
                &&& leads(self.goal@.prefix, path)
                &&& fresh_under(tree, path, memory.at(self.place), self.start@)
            },
            ScanPhase::Look { word } => {
                &&& self.standing(memory)
                &&& leads(self.goal@.prefix, path + word.link().bytes)
                &&& held_at::<K>(memory, self.place, word)
                &&& fresh_under(tree, path, word.link(), self.start@)
            },
            ScanPhase::Next => true,
        }
    }

    /// Nothing is left to visit.
    pub open spec fn over(self) -> bool {
        self.phase is Next && self.frames@.len() == 0
    }

    /// The scan is on the way to the prefix.
    pub open spec fn seeking(self, memory: Memory) -> bool {
        &&& self.frames@.len() == 0
        &&& self.entries@.len() == 0
        &&& self.cursor.wf(memory)
        &&& self.cursor.path is Len
        &&& self.cursor.goal@ == self.goal@.prefix
        &&& self.prefix.valid()
        &&& self.prefix.bytes() == self.goal@.prefix
        &&& limit(self.lower) == self.goal@.lower
        &&& limit(self.upper) == self.goal@.upper
    }

    /// The scan is at a place behind the prefix.
    pub open spec fn standing(self, memory: Memory) -> bool {
        &&& memory.valid(self.place)
        &&& memory.path(self.place) == self.writer.bytes()
        &&& lower_at(self.writer.bytes(), limit(self.lower), self.goal@.lower)
        &&& upper_at(self.writer.bytes(), limit(self.upper), self.goal@.upper)
    }

    /// Accesses of other operations do not disturb a scan.
    pub proof fn law_undisturbed(self, before: Tree<K>, after: Tree<K>)
        requires
            before.wf(),
            after.wf(),
            evolves(before, after),
            self.wf(before),
        ensures
            self.wf(after),
    {
        let m = before.memory();
        let n = after.memory();
        let start = self.start@;
        assert forall|i: int| 0 <= i < self.entries@.len() implies after.seen(
            start,
            (#[trigger] self.entries@[i]).0,
            Some(self.entries@[i].1),
        ) by {
            lemma_seen(before, after, start, self.entries@[i].0, Some(self.entries@[i].1));
        }
        assert forall|k: Seq<u8>| #[trigger] K::is_key(k) && self.goal@.covers(k) implies
            self.current(k) || self.deferred(k) || self.reported(k) || after.seen(
            start,
            k,
            None,
        ) by {
            if before.seen(start, k, None) {
                lemma_seen(before, after, start, k, None);
            }
        }
        assert forall|i: int| 0 <= i < self.frames@.len() implies (
        #[trigger] self.frames@[i]).wf(after, self.goal@, start) by {
            self.frames@[i].lemma_stable(before, after, self.goal@, start);
        }
        match self.phase {
            ScanPhase::Seek => {
                self.cursor.lemma_stable(m, n);
                lemma_place_stable(before, after, self.cursor.place, start);
            },
            ScanPhase::Match { word } => {
                self.cursor.lemma_stable(m, n);
                lemma_word_stable(before, after, m.path(self.cursor.place), word.link(), start);
            },
            ScanPhase::Load => {
                lemma_place_stable(before, after, self.place, start);
            },
            ScanPhase::Look { word } => {
                if let Place::Slot { node, slot } = self.place {
                    let old = m.blocks[node as int];
                    assert(n.blocks[node as int].keys[slot as int] == old.keys[slot as int]);
                }
                lemma_word_stable(before, after, self.writer.bytes(), word.link(), start);
            },
            ScanPhase::Next => {},
        }
    }
}

impl<K: Key, R: Read<Edge = K::Edge>> Scan<K, R> {
    fn begin(
        tree: &Tree<K>,
        prefix: R,
        lower: Option<Include<R>>,
        upper: Option<Include<R>>,
        order: Order,
        inverted: bool,
    ) -> (scan: Self)
        requires
            tree.wf(),
            prefix.valid(),
            limit_valid(lower),
            limit_valid(upper),
            inverted ==> match (limit(lower), limit(upper)) {
                (Some(lower), Some(upper)) => lex_lt(upper, lower),
                _ => false,
            },
            !inverted ==> (Goal {
                prefix: prefix.bytes(),
                lower: limit(lower),
                upper: limit(upper),
            }).wf(),
        ensures
            scan.wf(*tree),
            scan.order == order,
            scan.goal@ == (Goal {
                prefix: prefix.bytes(),
                lower: limit(lower),
                upper: limit(upper),
            }),
            scan.start@ == tree.history@.len() - 1,
            scan.entries@.len() == 0,
            if inverted {
                scan.over()
            } else {
                scan.phase is Seek && scan.cursor.place is Root
            },
    {
        let ghost start = tree.history@.len() - 1;
        let ghost goal = Goal {
            prefix: prefix.bytes(),
            lower: limit(lower),
            upper: limit(upper),
        };
        let cursor = Cursor::new(prefix, Path::Len { len: 0 });
        let phase = if inverted {
            ScanPhase::Next
        } else {
            ScanPhase::Seek
        };
        let scan = Scan {
            order,
            prefix,
            cursor,
            place: Place::Root,
            lower,
            upper,
            phase,
            frames: Vec::new(),
            writer: K::Write::new(),
            goal: Ghost(goal),
            start: Ghost(start),
            entries: Ghost(Seq::empty()),
        };
        proof {
            let memory = tree.memory();
            assert(cursor.wf(memory));
            assert forall|k: Seq<u8>| #[trigger] K::is_key(k) && leads(
                memory.path(Place::Root),
                k,
            ) implies tree.seen(
                start,
                k,
                memory.get(memory.root, k.skip(memory.path(Place::Root).len() as int)),
            ) by {
                assert(k.skip(0) =~= k);
                lemma_now(*tree, start, k);
            }
            assert(fresh_under(*tree, memory.path(Place::Root), memory.at(Place::Root), start));
            if inverted {
                let low = goal.lower->0;
                let high = goal.upper->0;
                assert forall|k: Seq<u8>| K::is_key(k) && goal.covers(k) implies false by {
                    if low != k {
                        lemma_lex_transitive(high, low, k);
                    }
                    if k != high {
                        lemma_lex_transitive(high, k, high);
                    }
                    lemma_lex_irreflexive(high);
                }
            }
        }
        scan
    }

    /// Scan all keys.
    pub fn all(tree: &Tree<K>, order: Order) -> (scan: Self)
        requires
            tree.wf(),
        ensures
            scan.wf(*tree),
            scan.order == order,
            forall|k: Seq<u8>| scan.goal@.covers(k),
            scan.start@ == tree.history@.len() - 1,
            scan.entries@.len() == 0,
            scan.phase is Seek,
    {
        let scan = Self::begin(tree, R::empty(), None, None, order, false);
        assert forall|k: Seq<u8>| scan.goal@.covers(k) by {
            assert(k.take(0) =~= Seq::<u8>::empty());
        }
        scan
    }

    /// Scan the keys that begin with a prefix.
    pub fn prefix(tree: &Tree<K>, prefix: R, order: Order) -> (scan: Self)
        requires
            tree.wf(),
            prefix.valid(),
        ensures
            scan.wf(*tree),
            scan.order == order,
            forall|k: Seq<u8>| scan.goal@.covers(k) == leads(prefix.bytes(), k),
            scan.start@ == tree.history@.len() - 1,
            scan.entries@.len() == 0,
            scan.phase is Seek,
    {
        Self::begin(tree, prefix, None, None, order, false)
    }

    /// Scan the keys in a range.
    ///
    /// The bytes that both bounds have in common are skipped. A range whose
    /// lower bound is above its upper bound holds no keys.
    pub fn range<B: Range<R>>(tree: &Tree<K>, range: &B, order: Order) -> (scan: Self)
        requires
            tree.wf(),
            range.valid(),
        ensures
            scan.wf(*tree),
            scan.order == order,
            forall|k: Seq<u8>|
                scan.goal@.covers(k) == in_range(range.lower_limit(), range.upper_limit(), k),
            scan.start@ == tree.history@.len() - 1,
            scan.entries@.len() == 0,
            scan.phase is Seek || scan.over(),
    {
        let lower = range.lower();
        let upper = range.upper();
        let inverted = is_inverted(lower, upper);
        let prefix = match (lower, upper) {
            (Some(Include(lower)), Some(Include(upper))) => lower.common_prefix(upper),
            _ => R::empty(),
        };
        proof {
            let bytes = prefix.bytes();
            let goal = Goal { prefix: bytes, lower: limit(lower), upper: limit(upper) };
            if let (Some(low), Some(high)) = (goal.lower, goal.upper) {
                lemma_common_len(low, high);
                lemma_lex_total(low, high);
                assert(leads(bytes, low));
                assert(leads(bytes, high)) by {
                    assert(bytes =~= high.take(bytes.len() as int));
                }
                assert forall|k: Seq<u8>| in_range(goal.lower, goal.upper, k) implies leads(
                    bytes,
                    k,
                ) by {
                    lemma_between(low, high, k, bytes.len() as int);
                }
            } else {
                assert forall|k: Seq<u8>| leads(bytes, k) by {
                    assert(k.take(0) =~= Seq::<u8>::empty());
                }
                if let Some(low) = goal.lower {
                    assert(leads(bytes, low));
                }
                if let Some(high) = goal.upper {
                    assert(leads(bytes, high));
                }
            }
        }
        Self::begin(tree, prefix, lower, upper, order, inverted)
    }
}

/// What lies between two sequences begins with what they have in common.
proof fn lemma_between(low: Seq<u8>, high: Seq<u8>, k: Seq<u8>, n: int)
    requires
        lex_le(low, k),
        lex_le(k, high),
        0 <= n <= low.len(),
        n <= high.len(),
        low.take(n) == high.take(n),
    ensures
        leads(low.take(n), k),
{
    lemma_common_len(low, k);
    lemma_common_len(k, high);
    assert forall|i: int| 0 <= i < n implies low[i] == high[i] by {
        assert(low.take(n)[i] == low[i]);
        assert(high.take(n)[i] == high[i]);
    }
    let a = common_len(low, k) as int;
    let b = common_len(k, high) as int;
    if a < n && k != low {
        // The key leaves the lower bound upwards, and so is above the upper
        // bound.
        assert(a < k.len() && low[a] < k[a]);
        if k != high {
            if b < a {
                assert(k[b] == low[b]);
            } else if b > a {
                assert(k[a] == high[a]);
            }
        }
    }
    assert(k.len() >= n);
    assert forall|i: int| 0 <= i < n implies low[i] == k[i] by {}
    assert(low.take(n) =~= k.take(n));
}

/// What was seen behind a node was seen behind each of its slots.
proof fn lemma_child_fresh<K: Key>(
    tree: Tree<K>,
    path: Seq<u8>,
    link: Link,
    start: int,
    slot: u8,
    byte: u8,
)
    requires
        tree.wf(),
        link.target is Node,
        tree.memory().fits(path, link),
        fresh_under(tree, path, link, start),
        slot < tree.memory().blocks[link.target->Node_0 as int].keys.len(),
        tree.memory().blocks[link.target->Node_0 as int].keys[slot as int] == byte,
    ensures
        ({
            let block = tree.memory().blocks[link.target->Node_0 as int];
            &&& block.path == path + link.bytes
            &&& fresh_under(tree, block.path.push(byte), block.links[slot as int], start)
        }),
{
    let memory = tree.memory();
    let node = link.target->Node_0;
    let block = memory.blocks[node as int];
    let bytes = link.bytes;
    let below = block.path.push(byte);
    assert(block.wf(K::Edge::max()));
    lemma_slot(block.keys, slot as int);
    assert forall|k: Seq<u8>| #[trigger] K::is_key(k) && leads(below, k) implies tree.seen(
        start,
        k,
        memory.get(block.links[slot as int], k.skip(below.len() as int)),
    ) by {
        let tail = k.skip(path.len() as int);
        assert forall|i: int| 0 <= i < below.len() implies k[i] == below[i] by {
            assert(k.take(below.len() as int)[i] == k[i]);
        }
        assert(leads(path, k)) by {
            assert(path =~= k.take(path.len() as int));
        }
        assert forall|i: int| 0 <= i < bytes.len() implies bytes[i] == tail[i] by {
            assert(below[path.len() + i] == bytes[i]);
        }
        lemma_descends(bytes, tail);
        assert(tail[bytes.len() as int] == byte);
        assert(memory.next(link, tail) == Some(Place::Slot { node, slot }));
        assert(rest(bytes, tail) =~= k.skip(below.len() as int));
        assert(memory.get(link, tail) == memory.get(
            block.links[slot as int],
            rest(bytes, tail),
        ));
    }
}

impl<K: Key, R: Read<Edge = K::Edge>> Scan<K, R> {
    /// The state stays the same, but for the phase and what belongs to it.
    spec fn same(self, next: Self) -> bool {
        &&& next.order == self.order
        &&& next.goal == self.goal
        &&& next.start == self.start
    }

    /// The current place can be left behind if no key behind it is missed.
    proof fn lemma_leave(self, next: Self, tree: Tree<K>)
        requires
            self.wf(tree),
            self.same(next),
            next.phase is Next,
            next.frames@ == self.frames@,
            next.entries@ == self.entries@,
            next.writer == self.writer,
            next.lower == self.lower,
            next.upper == self.upper,
            forall|k: Seq<u8>| #[trigger]
                K::is_key(k) && self.goal@.covers(k) && self.current(k) ==> tree.seen(
                    self.start@,
                    k,
                    None,
                ),
        ensures
            next.wf(tree),
    {
        assert forall|k: Seq<u8>| #[trigger] next.deferred(k) == self.deferred(k) by {}
        assert forall|k: Seq<u8>| self.reported(k) implies #[trigger] next.reported(k) by {}
        assert forall|k: Seq<u8>| #[trigger] K::is_key(k) && next.goal@.covers(k) implies
            next.current(k) || next.deferred(k) || next.reported(k) || tree.seen(
            next.start@,
            k,
            None,
        ) by {
            if self.deferred(k) {
                assert(next.deferred(k));
            }
        }
    }

    /// Stay at a place whose word reaches the end of the prefix.
    fn enter(&mut self, tree: &Tree<K>, word: Word<K::Edge>)
        requires
            tree.wf(),
            old(self).wf(*tree),
            old(self).phase == (ScanPhase::Match { word }),
            common_len(word.link().bytes, old(self).cursor.reader.bytes())
                == old(self).cursor.reader.bytes().len(),
        ensures
            final(self).wf(*tree),
            old(self).same(*final(self)),
            old(self).moves(*final(self), tree.memory(), ScanStep::Pending),
    {
        let ghost before = *self;
        let ghost memory = tree.memory();
        let ghost goal = self.goal@;
        let ghost path = memory.path(self.cursor.place);
        let ghost key = self.cursor.reader.bytes();
        let ghost bytes = word.link().bytes;
        let len: usize = self.cursor.path.len();
        proof {
            lemma_common_len(bytes, key);
            assert(goal.prefix =~= path + key);
            assert(leads(path, goal.prefix)) by {
                assert(goal.prefix.take(path.len() as int) =~= path);
            }
            assert(leads(key, bytes)) by {
                assert(key =~= bytes.take(key.len() as int));
            }
        }
        if len > K::Write::capacity() {
            // No key is that long.
            self.phase = ScanPhase::Next;
            proof {
                assert forall|k: Seq<u8>| #[trigger] K::is_key(k) && goal.covers(k)
                    && before.current(k) implies tree.seen(before.start@, k, None) by {
                    K::lemma_key_len(k);
                    lemma_leads(path, goal.prefix, k);
                }
                before.lemma_leave(*self, *tree);
            }
            return ;
        }
        let mut writer = K::Write::new();
        let mut i: usize = 0;
        while i < len
            invariant
                self.prefix.valid(),
                self.prefix.bytes() == goal.prefix,
                leads(path, goal.prefix),
                len == path.len() <= K::Write::max(),
                i <= len,
                writer.valid(),
                writer.bytes() == path.take(i as int),
            decreases len - i,
        {
            let byte: u8 = match self.prefix.get_byte(i) {
                Some(byte) => byte,
                None => vstd::pervasive::unreached(),
            };
            assert(byte == path[i as int]) by {
                assert(goal.prefix.take(path.len() as int)[i as int] == goal.prefix[i as int]);
            }
            writer.push(byte);
            i += 1;
            assert(writer.bytes() =~= path.take(i as int));
        }
        proof {
            assert(path.take(path.len() as int) =~= path);
            if let Some(bound) = limit(self.lower) {
                lemma_leads(path, goal.prefix, bound);
                assert(bound =~= path + bound.skip(path.len() as int));
            }
            if let Some(bound) = limit(self.upper) {
                lemma_leads(path, goal.prefix, bound);
                assert(bound =~= path + bound.skip(path.len() as int));
            }
        }
        self.lower = match self.lower {
            Some(Include(bound)) => Some(Include(bound.suffix(len))),
            None => None,
        };
        self.upper = match self.upper {
            Some(Include(bound)) => Some(Include(bound.suffix(len))),
            None => None,
        };
        self.writer = writer;
        self.place = self.cursor.place;
        self.phase = ScanPhase::Look { word };
        proof {
            assert(leads(goal.prefix, path + bytes)) by {
                assert(goal.prefix =~= (path + bytes).take(goal.prefix.len() as int));
            }
            assert forall|k: Seq<u8>| #[trigger] K::is_key(k) && goal.covers(k) implies self.current(
                k,
            ) by {
                lemma_leads(path, goal.prefix, k);
            }
            assert(lower_at(path, limit(self.lower), goal.lower)) by {
                if limit(self.lower) is None {
                    assert forall|k: Seq<u8>| in_range(goal.lower, None, #[trigger] (path + k)) by {}
                }
            }
            assert(upper_at(path, limit(self.upper), goal.upper)) by {
                if limit(self.upper) is None {
                    assert forall|k: Seq<u8>| in_range(None, goal.upper, #[trigger] (path + k)) by {}
                }
            }
        }
    }

    /// Look at a word on the way to the prefix.
    fn look_ahead(&mut self, tree: &Tree<K>, word: Word<K::Edge>)
        requires
            tree.wf(),
            old(self).wf(*tree),
            old(self).phase == (ScanPhase::Match { word }),
        ensures
            final(self).wf(*tree),
            old(self).same(*final(self)),
            old(self).moves(*final(self), tree.memory(), ScanStep::Pending),
    {
        let ghost before = *self;
        let ghost memory = tree.memory();
        let ghost place = self.cursor.place;
        let ghost path = memory.path(place);
        let ghost key = self.cursor.reader.bytes();
        let ghost bytes = word.link().bytes;
        let total: usize = self.cursor.reader.len();
        let len: usize = self.cursor.reader.match_prefix(&word.meta);
        proof {
            lemma_common_len(bytes, key);
            assert(self.goal@.prefix =~= path + key);
            assert(leads(path, self.goal@.prefix)) by {
                assert(self.goal@.prefix.take(path.len() as int) =~= path);
            }
        }
        if len == total {
            self.enter(tree, word);
            return ;
        }
        proof {
            assert(!leads(key, bytes)) by {
                if leads(key, bytes) {
                    assert(bytes.take(key.len() as int)[len as int] == bytes[len as int]);
                }
            }
            lemma_descends(bytes, key);
        }
        if len == word.meta.len() {
            if let Target::Node(node) = word.target {
                let byte: u8 = match self.cursor.reader.get_byte(len) {
                    Some(byte) => byte,
                    None => vstd::pervasive::unreached(),
                };
                if let Some(slot) = tree.get(node, byte) {
                    proof {
                        assert(bytes =~= key.take(len as int));
                        assert(memory.blocks[node as int].wf(K::Edge::max()));
                        lemma_slot(memory.blocks[node as int].keys, slot as int);
                    }
                    self.cursor.push(Ghost(memory), len, node, slot);
                    self.phase = ScanPhase::Seek;
                    proof {
                        let child = Place::Slot { node, slot };
                        assert(self.cursor.place == child);
                        lemma_child_fresh(*tree, path, word.link(), before.start@, slot, byte);
                        assert forall|k: Seq<u8>| #[trigger] K::is_key(k) && self.goal@.covers(
                            k,
                        ) implies self.current(k) by {}
                    }
                    return ;
                }
            }
        }
        self.phase = ScanPhase::Next;
        proof {
            assert forall|k: Seq<u8>| #[trigger] K::is_key(k) && before.goal@.covers(k)
                && before.current(k) implies tree.seen(before.start@, k, None) by {
                let tail = k.skip(path.len() as int);
                lemma_leads(path, before.goal@.prefix, k);
                assert(leads(key, tail)) by {
                    assert(tail.take(key.len() as int) =~= k.take(before.goal@.prefix.len() as int).skip(
                        path.len() as int,
                    ));
                    assert((path + key).skip(path.len() as int) =~= key);
                }
                assert forall|i: int| 0 <= i < key.len() implies tail[i] == key[i] by {
                    assert(tail.take(key.len() as int)[i] == tail[i]);
                }
                lemma_descends(bytes, tail);
                assert(memory.get(word.link(), tail) is None) by {
                    if len < bytes.len() {
                        assert(bytes[len as int] != tail[len as int]);
                        if descends(bytes, tail) {
                            assert(bytes[len as int] == tail[len as int]);
                        }
                    } else {
                        assert(bytes.len() < tail.len());
                        if word.target is Node {
                            assert(tail[bytes.len() as int] == key[len as int]);
                        }
                    }
                }
            }
            before.lemma_leave(*self, *tree);
        }
    }
}

impl<K: Key, R: Read<Edge = K::Edge>> Scan<K, R> {
    /// A key that is reported follows those that were reported, and comes
    /// before those that are deferred.
    proof fn lemma_report(self, next: Self, tree: Tree<K>, word: Word<K::Edge>, value: u64)
        requires
            self.wf(tree),
            self.phase == (ScanPhase::Look { word }),
            word.target == Target::Value(value),
            self.same(next),
            next.phase is Next,
            next.frames@ == self.frames@,
            next.entries@ == self.entries@.push(
                (self.writer.bytes() + word.link().bytes, value),
            ),
            next.writer.valid(),
            next.writer.bytes() == self.writer.bytes() + word.link().bytes,
            next.lower == self.lower,
            next.upper == self.upper,
            self.goal@.covers(self.writer.bytes() + word.link().bytes),
        ensures
            next.wf(tree),
    {
        let path = self.writer.bytes();
        let bytes = word.link().bytes;
        let key = path + bytes;
        let memory = tree.memory();
        let start = self.start@;
        let n = self.entries@.len();
        assert(key.skip(path.len() as int) =~= bytes);
        assert(leads(path, key)) by {
            assert(key.take(path.len() as int) =~= path);
        }
        assert(self.current(key));
        assert(K::is_key(key));
        assert(tree.seen(start, key, Some(value)));
        assert forall|k: Seq<u8>| #[trigger] next.deferred(k) == self.deferred(k) by {}
        assert forall|i: int| 0 <= i < next.entries@.len() implies {
            &&& K::is_key((#[trigger] next.entries@[i]).0)
            &&& next.goal@.covers(next.entries@[i].0)
            &&& tree.seen(start, next.entries@[i].0, Some(next.entries@[i].1))
        } by {
            if i < n {
                assert(next.entries@[i] == self.entries@[i]);
            }
        }
        assert forall|i: int, j: int| 0 <= i < j < next.entries@.len() implies precedes(
            next.order,
            (#[trigger] next.entries@[i]).0,
            (#[trigger] next.entries@[j]).0,
        ) by {
            assert(next.entries@[i] == self.entries@[i]);
            if j < n {
                assert(next.entries@[j] == self.entries@[j]);
            }
        }
        assert forall|k: Seq<u8>| #[trigger] K::is_key(k) && next.goal@.covers(k) implies
            next.current(k) || next.deferred(k) || next.reported(k) || tree.seen(
            start,
            k,
            None,
        ) by {
            if self.deferred(k) {
                assert(next.deferred(k));
            } else if self.reported(k) {
                let i = choose|i: int|
                    0 <= i < self.entries@.len() && (#[trigger] self.entries@[i]).0 == k;
                assert(next.entries@[i].0 == k);
            } else if self.current(k) {
                let tail = k.skip(path.len() as int);
                if tail == bytes {
                    assert(k =~= path + tail);
                    assert(next.entries@[n as int].0 == k);
                } else {
                    assert(memory.get(word.link(), tail) is None);
                }
            }
        }
        assert forall|i: int, k: Seq<u8>|
            0 <= i < next.entries@.len() && #[trigger] next.deferred(k) implies precedes(
            next.order,
            (#[trigger] next.entries@[i]).0,
            k,
        ) by {
            assert(self.deferred(k));
            if i < n {
                assert(next.entries@[i] == self.entries@[i]);
            }
        }
        assert forall|i: int| 0 <= i < next.frames@.len() implies (
        #[trigger] next.frames@[i]).len <= key.len() && next.frames@[i].path@ == key.take(
            next.frames@[i].len as int,
        ) by {
            assert(self.frames@[i].path@ == path.take(self.frames@[i].len as int));
            assert(key.take(next.frames@[i].len as int) =~= path.take(
                next.frames@[i].len as int,
            ));
        }
    }

    /// The slots of a node take the place of the word that leads to it.
    proof fn lemma_descend(self, next: Self, tree: Tree<K>, word: Word<K::Edge>, frame: Frame<R>)
        requires
            self.wf(tree),
            self.phase == (ScanPhase::Look { word }),
            self.same(next),
            next.phase is Next,
            next.frames@ == self.frames@.push(frame),
            next.entries@ == self.entries@,
            next.writer.valid(),
            next.writer.bytes() == self.writer.bytes() + word.link().bytes,
            next.lower == self.lower,
            next.upper == self.upper,
            frame.path@ == next.writer.bytes(),
            frame.wf(tree, self.goal@, self.start@),
            forall|k: Seq<u8>| #[trigger]
                K::is_key(k) && self.goal@.covers(k) && self.current(k) ==> frame.waits(k)
                    || tree.seen(self.start@, k, None),
        ensures
            next.wf(tree),
    {
        let path = self.writer.bytes();
        let bytes = word.link().bytes;
        let here = path + bytes;
        let n = self.frames@.len();
        assert forall|k: Seq<u8>| #[trigger] frame.waits(k) implies self.current(k) by {
            assert(leads(path, here)) by {
                assert(here.take(path.len() as int) =~= path);
            }
            lemma_leads(path, here, k);
        }
        assert forall|k: Seq<u8>| #[trigger] next.deferred(k) implies self.deferred(k)
            || frame.waits(k) by {
            let i = choose|i: int| 0 <= i < next.frames@.len() && (#[trigger] next.frames@[i]).waits(k);
            if i < n {
                assert(self.frames@[i].waits(k));
            }
        }
        assert forall|k: Seq<u8>| self.deferred(k) || frame.waits(k) implies #[trigger] next.deferred(
            k,
        ) by {
            if self.deferred(k) {
                let i = choose|i: int|
                    0 <= i < self.frames@.len() && (#[trigger] self.frames@[i]).waits(k);
                assert(next.frames@[i].waits(k));
            } else {
                assert(next.frames@[n as int].waits(k));
            }
        }
        assert forall|k: Seq<u8>| #[trigger] K::is_key(k) && next.goal@.covers(k) implies
            next.current(k) || next.deferred(k) || next.reported(k) || tree.seen(
            next.start@,
            k,
            None,
        ) by {
            if self.reported(k) {
                assert(next.reported(k));
            } else if self.deferred(k) {
                assert(next.deferred(k));
            } else if self.current(k) && frame.waits(k) {
                assert(next.deferred(k));
            }
        }
        assert forall|i: int, k: Seq<u8>|
            0 <= i < next.entries@.len() && #[trigger] next.deferred(k) implies precedes(
            next.order,
            (#[trigger] next.entries@[i]).0,
            k,
        ) by {
            if frame.waits(k) {
                assert(self.current(k));
            } else {
                assert(self.deferred(k));
            }
        }
        assert forall|h: int, i: int, j: Seq<u8>, k: Seq<u8>|
            0 <= h < i < next.frames@.len() && #[trigger] next.frames@[i].waits(j)
                && #[trigger] next.frames@[h].waits(k) implies precedes(next.order, j, k) by {
            assert(self.frames@[h].waits(k));
            if i < n {
                assert(self.frames@[i].waits(j));
            } else {
                assert(self.current(j));
                assert(self.deferred(k));
            }
        }
        assert forall|i: int| 0 <= i < next.frames@.len() implies (
        #[trigger] next.frames@[i]).len <= here.len() && next.frames@[i].path@ == here.take(
            next.frames@[i].len as int,
        ) by {
            if i < n {
                assert(self.frames@[i].path@ == path.take(self.frames@[i].len as int));
                assert(here.take(next.frames@[i].len as int) =~= path.take(
                    next.frames@[i].len as int,
                ));
            } else {
                assert(here.take(here.len() as int) =~= here);
            }
        }
    }

    /// A slot of the innermost node is the place to go on with.
    proof fn lemma_take(self, next: Self, tree: Tree<K>, slot: KeyIndex)
        requires
            self.wf(tree),
            self.phase is Next,
            self.frames@.len() > 0,
            self.same(next),
            next.phase is Load || next.phase is Next,
            next.frames@.len() == self.frames@.len(),
            forall|i: int|
                0 <= i < self.frames@.len() - 1 ==> #[trigger] next.frames@[i] == self.frames@[i],
            ({
                let old = self.frames@.last();
                let new = next.frames@.last();
                &&& new.node == old.node
                &&& new.len == old.len
                &&& new.lower == old.lower
                &&& new.upper == old.upper
                &&& new.path == old.path
                &&& new.keys.wf()
                &&& old.keys.remaining().len() > 0
                &&& match self.order {
                    Order::Ascend => slot == old.keys.remaining().first()
                        && new.keys.remaining() == old.keys.remaining().drop_first(),
                    Order::Descend => slot == old.keys.remaining().last()
                        && new.keys.remaining() == old.keys.remaining().drop_last(),
                }
            }),
            next.entries@ == self.entries@,
            next.writer.valid(),
            next.phase is Load ==> {
                &&& next.writer.bytes() == self.frames@.last().path@.push(slot.key)
                &&& next.place == (Place::Slot {
                    node: self.frames@.last().node,
                    slot: slot.index,
                })
                &&& limit_valid(next.lower)
                &&& limit_valid(next.upper)
                &&& lower_at(next.writer.bytes(), limit(next.lower), self.goal@.lower)
                &&& upper_at(next.writer.bytes(), limit(next.upper), self.goal@.upper)
            },
            next.phase is Next ==> {
                &&& next.writer == self.writer
                &&& next.lower == self.lower
                &&& next.upper == self.upper
                &&& forall|k: Seq<u8>| #[trigger]
                    K::is_key(k) ==> k.len() <= self.frames@.last().path@.len()
            },
        ensures
            next.wf(tree),
    {
        let n = self.frames@.len() - 1;
        let old = self.frames@[n];
        let new = next.frames@[n];
        let rem = old.keys.remaining();
        let left = new.keys.remaining();
        let base = old.path@;
        assert(old.wf(tree, self.goal@, self.start@));
        // What is left was there before.
        assert forall|j: int| 0 <= j < left.len() implies exists|i: int|
            0 <= i < rem.len() && rem[i] == #[trigger] left[j] && rem[i] != slot && (
            match self.order {
                Order::Ascend => slot.key < rem[i].key,
                Order::Descend => slot.key > rem[i].key,
            }) by {
            match self.order {
                Order::Ascend => {
                    assert(left[j] == rem[j + 1]);
                    assert(rem[0].key < rem[j + 1].key);
                },
                Order::Descend => {
                    assert(left[j] == rem[j]);
                    assert(rem[j].key < rem[rem.len() - 1].key);
                },
            }
        }
        assert(ascending(left)) by {
            assert forall|i: int, j: int| 0 <= i < j < left.len() implies (
            #[trigger] left[i]).key < (#[trigger] left[j]).key by {
                match self.order {
                    Order::Ascend => {
                        assert(left[i] == rem[i + 1] && left[j] == rem[j + 1]);
                    },
                    Order::Descend => {
                        assert(left[i] == rem[i] && left[j] == rem[j]);
                    },
                }
            }
        }
        assert forall|j: int| 0 <= j < left.len() implies new.visitable(
            tree,
            self.start@,
            #[trigger] left[j],
        ) by {
            let i = choose|i: int| 0 <= i < rem.len() && rem[i] == left[j];
            assert(old.visitable(tree, self.start@, rem[i]));
        }
        let at = match self.order {
            Order::Ascend => 0,
            Order::Descend => rem.len() - 1,
        };
        assert(rem[at] == slot);
        assert(old.visitable(tree, self.start@, rem[at]));
        assert forall|i: int| 0 <= i < next.frames@.len() implies (
        #[trigger] next.frames@[i]).wf(tree, self.goal@, self.start@) by {
            if i < n {
                assert(self.frames@[i].wf(tree, self.goal@, self.start@));
            }
        }
        assert forall|i: int, k: Seq<u8>|
            0 <= i < next.frames@.len() && #[trigger] next.frames@[i].waits(k) implies self.frames@[i].waits(
            k,
        ) by {
            if i == n {
                let b = k[base.len() as int];
                let j = choose|j: int| 0 <= j < left.len() && (#[trigger] left[j]).key == b;
                let l = choose|l: int| 0 <= l < rem.len() && rem[l] == left[j];
                assert(rem[l].key == b);
            }
        }
        assert forall|k: Seq<u8>| #[trigger] next.deferred(k) implies self.deferred(k) by {
            let i = choose|i: int| 0 <= i < next.frames@.len() && (#[trigger] next.frames@[i]).waits(k);
            assert(self.frames@[i].waits(k));
        }
        assert forall|k: Seq<u8>| #[trigger] next.current(k) implies self.frames@[n].waits(k) by {
            let below = base.push(slot.key);
            assert forall|i: int| 0 <= i < below.len() implies k[i] == below[i] by {
                assert(k.take(below.len() as int)[i] == k[i]);
            }
            assert(base =~= k.take(base.len() as int));
            assert(k[base.len() as int] == slot.key);
        }
        assert forall|k: Seq<u8>| K::is_key(k) && #[trigger] self.deferred(k) implies next.current(
            k,
        ) || next.deferred(k) by {
            let i = choose|i: int| 0 <= i < self.frames@.len() && (#[trigger] self.frames@[i]).waits(k);
            if i < n {
                assert(next.frames@[i].waits(k));
            } else {
                let b = k[base.len() as int];
                let j = choose|j: int| 0 <= j < rem.len() && (#[trigger] rem[j]).key == b;
                if b == slot.key {
                    assert(next.phase is Load);
                    assert(base.push(b) =~= k.take(base.len() as int + 1));
                } else {
                    match self.order {
                        Order::Ascend => {
                            assert(left[j - 1] == rem[j]);
                        },
                        Order::Descend => {
                            assert(left[j] == rem[j]);
                        },
                    }
                    assert(next.frames@[n].waits(k));
                }
            }
        }
        assert forall|k: Seq<u8>| #[trigger] K::is_key(k) && next.goal@.covers(k) implies
            next.current(k) || next.deferred(k) || next.reported(k) || tree.seen(
            next.start@,
            k,
            None,
        ) by {
            if self.reported(k) {
                assert(next.reported(k));
            } else if self.deferred(k) {
            }
        }
        assert forall|i: int, k: Seq<u8>|
            0 <= i < next.entries@.len() && #[trigger] next.current(k) implies precedes(
            next.order,
            (#[trigger] next.entries@[i]).0,
            k,
        ) by {
            assert(self.frames@[n].waits(k));
            assert(self.deferred(k));
            assert(self.entries@[i] == next.entries@[i]);
        }
        assert forall|i: int, k: Seq<u8>|
            0 <= i < next.entries@.len() && #[trigger] next.deferred(k) implies precedes(
            next.order,
            (#[trigger] next.entries@[i]).0,
            k,
        ) by {
            assert(self.deferred(k));
            assert(self.entries@[i] == next.entries@[i]);
        }
        assert forall|j: Seq<u8>, k: Seq<u8>| #[trigger] next.current(j) && #[trigger] next.deferred(
            k,
        ) implies precedes(next.order, j, k) by {
            assert(self.frames@[n].waits(j));
            let i = choose|i: int| 0 <= i < next.frames@.len() && (#[trigger] next.frames@[i]).waits(k);
            if i < n {
                assert(self.frames@[i].waits(k));
            } else {
                let below = base.push(slot.key);
                assert(j.take(below.len() as int)[base.len() as int] == j[base.len() as int]);
                assert(j[base.len() as int] == slot.key);
                let l = choose|l: int|
                    0 <= l < left.len() && (#[trigger] left[l]).key == k[base.len() as int];
                lemma_precedes(self.order, base, j, k);
            }
        }
        assert forall|h: int, i: int, j: Seq<u8>, k: Seq<u8>|
            0 <= h < i < next.frames@.len() && #[trigger] next.frames@[i].waits(j)
                && #[trigger] next.frames@[h].waits(k) implies precedes(next.order, j, k) by {
            assert(self.frames@[h].waits(k));
            assert(self.frames@[i].waits(j));
        }
        assert(base == self.writer.bytes().take(old.len as int));
        assert forall|i: int| 0 <= i < next.frames@.len() implies (
        #[trigger] next.frames@[i]).len <= next.writer.bytes().len() && next.frames@[i].path@
            == next.writer.bytes().take(next.frames@[i].len as int) by {
            let len = self.frames@[i].len;
            assert(self.frames@[i].path@ == self.writer.bytes().take(len as int));
            if i < n {
                assert(self.frames@[i].len <= self.frames@[n].len);
            }
            if next.phase is Load {
                assert(next.writer.bytes().take(len as int) =~= self.writer.bytes().take(
                    len as int,
                ));
            }
        }
        assert forall|i: int, j: int| 0 <= i < j < next.frames@.len() implies (
        #[trigger] next.frames@[i]).len <= (#[trigger] next.frames@[j]).len by {
            assert(self.frames@[i].len <= self.frames@[j].len);
        }
        if next.phase is Load {
            let memory = tree.memory();
            assert(memory.path(next.place) == next.writer.bytes());
            assert(leads(next.goal@.prefix, next.writer.bytes())) by {
                assert(leads(base, base.push(slot.key))) by {
                    assert(base.push(slot.key).take(base.len() as int) =~= base);
                }
                lemma_leads(next.goal@.prefix, base, base.push(slot.key));
            }
        }
    }
}

/// A key in range behind a node lies behind one of the slots in range, or was
/// absent.
proof fn lemma_below<K: Key>(
    tree: Tree<K>,
    path: Seq<u8>,
    link: Link,
    start: int,
    goal: Goal,
    first: u8,
    last: u8,
    k: Seq<u8>,
)
    requires
        tree.wf(),
        link.target is Node,
        tree.memory().fits(path, link),
        fresh_under(tree, path, link, start),
        K::is_key(k),
        leads(path, k),
        leads(path + link.bytes, k),
        in_range(goal.lower, goal.upper, k),
        forall|b: u8, tail: Seq<u8>|
            b < first || b > last ==> !in_range(
                goal.lower,
                goal.upper,
                #[trigger] ((path + link.bytes).push(b) + tail),
            ),
    ensures
        ({
            let here = path + link.bytes;
            let block = tree.memory().blocks[link.target->Node_0 as int];
            &&& here.len() < k.len()
            &&& first <= k[here.len() as int] <= last
            &&& lists_key(
                in_key_order(block.keys, first, last, 256),
                k[here.len() as int],
            ) || tree.seen(start, k, None)
        }),
{
    let memory = tree.memory();
    let here = path + link.bytes;
    let node = link.target->Node_0;
    let block = memory.blocks[node as int];
    let is_key = key_set::<K>();
    assert(is_key(k));
    assert(inner(block.path, k));
    lemma_common_len(here, k);
    assert forall|i: int| 0 <= i < here.len() implies here[i] == k[i] by {
        assert(k.take(here.len() as int)[i] == k[i]);
    }
    lemma_descends(here, k);
    let b = k[here.len() as int];
    assert(k =~= here.push(b) + rest(here, k));
    assert(in_range(goal.lower, goal.upper, here.push(b) + rest(here, k)));
    let tail = k.skip(path.len() as int);
    assert forall|i: int| 0 <= i < link.bytes.len() implies link.bytes[i] == tail[i] by {
        assert(here[path.len() + i] == link.bytes[i]);
    }
    lemma_descends(link.bytes, tail);
    assert(tail[link.bytes.len() as int] == b);
    if block.keys.contains(b) {
        assert(block.wf(K::Edge::max()));
        lemma_in_key_order(block.keys, first, last, 256);
        let s = block.keys.index_of(b);
        let slot = KeyIndex { key: b, index: s as u8 };
        let all = in_key_order(block.keys, first, last, 256);
        assert(block.kind.slots() <= 256);
        assert(all.contains(slot));
        let j = all.index_of(slot);
        assert(all[j].key == b);
    } else {
        assert(memory.get(link, tail) is None);
    }
}

impl<K: Key, R: Read<Edge = K::Edge>> Scan<K, R> {
    /// What looking at a word behind the prefix leads to.
    pub open spec fn looks(
        self,
        next: Self,
        memory: Memory,
        word: Word<K::Edge>,
        step: ScanStep,
    ) -> bool {
        let here = self.writer.bytes() + word.link().bytes;
        match word.target {
            Target::Null => {
                &&& step is Pending
                &&& next.frames@ == self.frames@
                &&& next.entries@ == self.entries@
            },
            Target::Value(value) => {
                &&& next.frames@ == self.frames@
                &&& if self.goal@.covers(here) {
                    &&& step == (ScanStep::Entry { value })
                    &&& next.writer.bytes() == here
                    &&& next.entries@ == self.entries@.push((here, value))
                } else {
                    &&& step is Pending
                    &&& next.entries@ == self.entries@
                }
            },
            Target::Node(node) => {
                &&& step is Pending
                &&& next.entries@ == self.entries@
                &&& if next.frames@.len() == self.frames@.len() {
                    &&& next.frames@ == self.frames@
                    &&& forall|k: Seq<u8>| #[trigger]
                        K::is_key(k) && leads(here, k) ==> !self.goal@.covers(k)
                } else {
                    &&& next.frames@ == self.frames@.push(next.frames@.last())
                    &&& next.frames@.last().node == node
                    &&& next.frames@.last().path@ == here
                }
            },
        }
    }

    /// Look at a word behind the prefix.
    fn look(&mut self, tree: &Tree<K>, word: Word<K::Edge>) -> (step: ScanStep)
        requires
            tree.wf(),
            old(self).wf(*tree),
            old(self).phase == (ScanPhase::Look { word }),
        ensures
            final(self).wf(*tree),
            old(self).same(*final(self)),
            final(self).phase is Next,
            old(self).looks(*final(self), tree.memory(), word, step),
    {
        let ghost before = *self;
        let ghost memory = tree.memory();
        let ghost goal = self.goal@;
        let ghost path = self.writer.bytes();
        let ghost bytes = word.link().bytes;
        let ghost here = path + bytes;
        proof {
            assert(leads(path, here)) by {
                assert(here.take(path.len() as int) =~= path);
            }
        }
        self.phase = ScanPhase::Next;
        if let Target::Null = word.target {
            proof {
                before.lemma_leave(*self, *tree);
            }
            return ScanStep::Pending;
        }
        proof {
            assert forall|k: Seq<u8>| #[trigger] K::is_key(k) && before.current(k) && !leads(
                here,
                k,
            ) implies tree.seen(before.start@, k, None) by {
                let tail = k.skip(path.len() as int);
                lemma_descends(bytes, tail);
                assert(k =~= path + tail);
                if memory.get(word.link(), tail) is Some {
                    assert(here =~= k.take(here.len() as int));
                }
            }
        }
        let (below, above) = match follow(
            self.lower,
            self.upper,
            &word.meta,
            Ghost(path),
            Ghost(goal.lower),
            Ghost(goal.upper),
        ) {
            Some(bounds) => bounds,
            None => {
                proof {
                    assert forall|k: Seq<u8>| goal.covers(k) implies !leads(here, k) by {
                        if leads(here, k) {
                            assert(k =~= here + k.skip(here.len() as int));
                        }
                    }
                    before.lemma_leave(*self, *tree);
                    assert(leads(here, here)) by {
                        assert(here.take(here.len() as int) =~= here);
                    }
                }
                return ScanStep::Pending;
            },
        };
        match word.target {
            Target::Null => vstd::pervasive::unreached(),
            Target::Value(value) => {
                proof {
                    lemma_end_in_range(here, limit(below), limit(above), goal.lower, goal.upper);
                    assert forall|k: Seq<u8>| #[trigger] K::is_key(k) && before.current(k)
                        && leads(here, k) implies k == here || tree.seen(
                        before.start@,
                        k,
                        None,
                    ) by {
                        K::lemma_prefix_property(here, k);
                        lemma_common_len(here, k);
                        if k != here {
                            assert(here =~= k.take(here.len() as int));
                        }
                    }
                }
                if let Some(Include(bound)) = below {
                    if bound.len() > 0 {
                        proof {
                            before.lemma_leave(*self, *tree);
                        }
                        return ScanStep::Pending;
                    }
                }
                proof {
                    K::lemma_key_len(here);
                }
                self.writer.extend(&word.meta);
                self.entries = Ghost(self.entries@.push((here, value)));
                proof {
                    before.lemma_report(*self, *tree, word, value);
                }
                ScanStep::Entry { value }
            },
            Target::Node(node) => {
                proof {
                    self.writer.lemma_len();
                }
                if word.meta.len() > K::Write::capacity() - self.writer.len() {
                    // No key is that long.
                    proof {
                        assert forall|k: Seq<u8>| #[trigger] K::is_key(k) implies !leads(
                            here,
                            k,
                        ) by {
                            K::lemma_key_len(k);
                        }
                        before.lemma_leave(*self, *tree);
                    }
                    return ScanStep::Pending;
                }
                let (first, last) = match byte_bounds(
                    below,
                    above,
                    Ghost(here),
                    Ghost(goal.lower),
                    Ghost(goal.upper),
                ) {
                    Some(bytes) => bytes,
                    None => {
                        proof {
                            assert forall|k: Seq<u8>| #[trigger] K::is_key(k) && leads(
                                here,
                                k,
                            ) implies !goal.covers(k) by {
                                if goal.covers(k) {
                                    lemma_leads(path, here, k);
                                    lemma_below(
                                        *tree,
                                        path,
                                        word.link(),
                                        before.start@,
                                        goal,
                                        1,
                                        0,
                                        k,
                                    );
                                }
                            }
                            before.lemma_leave(*self, *tree);
                        }
                        return ScanStep::Pending;
                    },
                };
                let keys = tree.keys(node, first, last);
                self.writer.extend(&word.meta);
                let len: usize = self.writer.len();
                let frame = Frame {
                    node,
                    len,
                    lower: below,
                    upper: above,
                    keys,
                    path: Ghost(here),
                };
                proof {
                    let block = memory.blocks[node as int];
                    let rem = keys.remaining();
                    assert(block.wf(K::Edge::max()));
                    lemma_in_key_order(block.keys, first, last, 256);
                    assert forall|j: int| 0 <= j < rem.len() implies frame.visitable(
                        *tree,
                        before.start@,
                        #[trigger] rem[j],
                    ) by {
                        let slot = rem[j];
                        assert(rem.contains(slot));
                        lemma_child_fresh(
                            *tree,
                            path,
                            word.link(),
                            before.start@,
                            slot.index,
                            slot.key,
                        );
                    }
                    assert forall|k: Seq<u8>| #[trigger] K::is_key(k) && goal.covers(k)
                        && before.current(k) implies frame.waits(k) || tree.seen(
                        before.start@,
                        k,
                        None,
                    ) by {
                        if leads(here, k) {
                            lemma_below(
                                *tree,
                                path,
                                word.link(),
                                before.start@,
                                goal,
                                first,
                                last,
                                k,
                            );
                        }
                    }
                }
                self.frames.push(frame);
                proof {
                    before.lemma_descend(*self, *tree, word, frame);
                }
                ScanStep::Pending
            },
        }
    }
}

impl<K: Key, R: Read<Edge = K::Edge>> Scan<K, R> {
    /// What going on with the innermost node leads to.
    pub open spec fn advances(self, next: Self, step: ScanStep) -> bool {
        &&& next.entries@ == self.entries@
        &&& if self.frames@.len() == 0 {
            &&& step is End
            &&& next.over()
        } else {
            let frame = self.frames@.last();
            let rest = frame.keys.remaining();
            &&& step is Pending
            &&& if rest.len() == 0 {
                &&& next.phase is Next
                &&& next.frames@ == self.frames@.drop_last()
            } else {
                let slot = match self.order {
                    Order::Ascend => rest.first(),
                    Order::Descend => rest.last(),
                };
                &&& next.frames@.len() == self.frames@.len()
                &&& next.frames@.drop_last() == self.frames@.drop_last()
                &&& next.frames@.last().node == frame.node
                &&& next.frames@.last().path == frame.path
                &&& next.frames@.last().keys.remaining() == match self.order {
                    Order::Ascend => rest.drop_first(),
                    Order::Descend => rest.drop_last(),
                }
                &&& if frame.path@.len() < K::Write::max() {
                    &&& next.phase is Load
                    &&& next.place == (Place::Slot { node: frame.node, slot: slot.index })
                    &&& next.writer.bytes() == frame.path@.push(slot.key)
                } else {
                    next.phase is Next
                }
            }
        }
    }

    /// Go on with the innermost node.
    fn advance(&mut self, tree: &Tree<K>) -> (step: ScanStep)
        requires
            tree.wf(),
            old(self).wf(*tree),
            old(self).phase is Next,
        ensures
            final(self).wf(*tree),
            old(self).same(*final(self)),
            old(self).advances(*final(self), step),
    {
        let ghost before = *self;
        let ghost goal = self.goal@;
        let count: usize = self.frames.len();
        if count == 0 {
            return ScanStep::End;
        }
        let n: usize = count - 1;
        proof {
            assert(self.frames@[n as int].wf(*tree, goal, self.start@));
            assert(self.frames@[n as int].path@ == self.writer.bytes().take(
                self.frames@[n as int].len as int,
            ));
            self.writer.lemma_len();
        }
        let next = match self.order {
            Order::Ascend => self.frames[n].keys.next(),
            Order::Descend => self.frames[n].keys.next_back(),
        };
        match next {
            None => {
                let _ = self.frames.pop();
                proof {
                    assert(self.frames@ =~= before.frames@.drop_last());
                    before.lemma_pop(*self, *tree);
                }
            },
            Some(slot) => {
                let len: usize = self.frames[n].len;
                let node: usize = self.frames[n].node;
                let lower = self.frames[n].lower;
                let upper = self.frames[n].upper;
                let ghost base = self.frames@[n as int].path@;
                assert(self.frames@.drop_last() =~= before.frames@.drop_last());
                if len >= K::Write::capacity() {
                    // No key is that long.
                    proof {
                        assert forall|k: Seq<u8>| #[trigger] K::is_key(k) implies k.len()
                            <= base.len() by {
                            K::lemma_key_len(k);
                        }
                        before.lemma_take(*self, *tree, slot);
                    }
                    return ScanStep::Pending;
                }
                proof {
                    let rem = before.frames@[n as int].keys.remaining();
                    assert(before.frames@[n as int].visitable(
                        *tree,
                        before.start@,
                        rem[match before.order {
                            Order::Ascend => 0,
                            Order::Descend => rem.len() - 1,
                        }],
                    ));
                    lemma_lower_below(base, limit(lower), goal.lower, slot.key);
                    lemma_upper_below(base, limit(upper), goal.upper, slot.key);
                }
                self.writer.truncate(len);
                self.writer.push(slot.key);
                self.lower = match lower {
                    Some(bound) => bound.below(slot.key),
                    None => None,
                };
                self.upper = match upper {
                    Some(bound) => bound.below(slot.key),
                    None => None,
                };
                self.place = Place::Slot { node, slot: slot.index };
                self.phase = ScanPhase::Load;
                proof {
                    before.lemma_take(*self, *tree, slot);
                }
            },
        }
        ScanStep::Pending
    }

    /// A node of which no slot is left can be left behind.
    proof fn lemma_pop(self, next: Self, tree: Tree<K>)
        requires
            self.wf(tree),
            self.phase is Next,
            self.frames@.len() > 0,
            self.frames@.last().keys.remaining().len() == 0,
            self.same(next),
            next.phase is Next,
            next.frames@ == self.frames@.drop_last(),
            next.entries@ == self.entries@,
            next.writer == self.writer,
            next.lower == self.lower,
            next.upper == self.upper,
        ensures
            next.wf(tree),
    {
        let n = self.frames@.len() - 1;
        assert forall|i: int| 0 <= i < n implies #[trigger] next.frames@[i] == self.frames@[i] by {}
        assert forall|k: Seq<u8>| #[trigger] self.deferred(k) implies next.deferred(k) by {
            let i = choose|i: int| 0 <= i < self.frames@.len() && (#[trigger] self.frames@[i]).waits(k);
            assert(i < n);
            assert(next.frames@[i].waits(k));
        }
        assert forall|k: Seq<u8>| #[trigger] next.deferred(k) implies self.deferred(k) by {
            let i = choose|i: int| 0 <= i < next.frames@.len() && (#[trigger] next.frames@[i]).waits(k);
            assert(self.frames@[i].waits(k));
        }
        assert forall|k: Seq<u8>| #[trigger] K::is_key(k) && next.goal@.covers(k) implies
            next.current(k) || next.deferred(k) || next.reported(k) || tree.seen(
            next.start@,
            k,
            None,
        ) by {
            if self.reported(k) {
                assert(next.reported(k));
            } else if self.deferred(k) {
            }
        }
        assert forall|h: int, i: int, j: Seq<u8>, k: Seq<u8>|
            0 <= h < i < next.frames@.len() && #[trigger] next.frames@[i].waits(j)
                && #[trigger] next.frames@[h].waits(k) implies precedes(next.order, j, k) by {
            assert(self.frames@[h].waits(k));
            assert(self.frames@[i].waits(j));
        }
    }

    /// One step of a scan, which changes no memory.
    pub open spec fn moves(self, next: Self, memory: Memory, step: ScanStep) -> bool {
        match self.phase {
            ScanPhase::Seek => {
                &&& step is Pending
                &&& next.entries@ == self.entries@
                &&& next.cursor == self.cursor
                &&& next.phase matches ScanPhase::Match { word } && word.link() == memory.at(
                    self.cursor.place,
                )
            },
            ScanPhase::Match { word } => {
                let key = self.cursor.reader.bytes();
                &&& step is Pending
                &&& next.entries@ == self.entries@
                &&& if leads(key, word.link().bytes) {
                    if memory.path(self.cursor.place).len() <= K::Write::max() {
                        &&& next.phase == (ScanPhase::Look { word })
                        &&& next.place == self.cursor.place
                    } else {
                        next.over()
                    }
                } else {
                    match memory.next(word.link(), key) {
                        Some(place) => next.phase is Seek && next.cursor.place == place,
                        None => next.over(),
                    }
                }
            },
            ScanPhase::Load => {
                &&& step is Pending
                &&& next.entries@ == self.entries@
                &&& next.frames@ == self.frames@
                &&& next.place == self.place
                &&& next.phase matches ScanPhase::Look { word } && word.link() == memory.at(
                    self.place,
                )
            },
            ScanPhase::Look { word } => {
                &&& next.phase is Next
                &&& self.looks(next, memory, word, step)
            },
            ScanPhase::Next => self.advances(next, step),
        }
    }

    /// Go on with the scan.
    ///
    /// Keys are reported in order, each at most once, with a value that they
    /// had at some time since the scan was started. When the scan ends, each
    /// key that was not reported was absent at some time since then.
    pub fn step(&mut self, tree: &Tree<K>) -> (step: ScanStep)
        requires
            tree.wf(),
            old(self).wf(*tree),
        ensures
            final(self).wf(*tree),
            final(self).order == old(self).order,
            final(self).goal == old(self).goal,
            final(self).start == old(self).start,
            old(self).moves(*final(self), tree.memory(), step),
            match step {
                ScanStep::Pending => final(self).entries@ == old(self).entries@,
                ScanStep::Entry { value } => final(self).entries@ == old(self).entries@.push(
                    (final(self).writer.bytes(), value),
                ),
                ScanStep::End => final(self).over() && final(self).entries@ == old(self).entries@,
            },
    {
        let ghost before = *self;
        let ghost memory = tree.memory();
        match self.phase {
            ScanPhase::Seek => {
                let word = tree.load(self.cursor.place);
                proof {
                    lemma_held_at(*tree, self.cursor.place, word);
                }
                self.phase = ScanPhase::Match { word };
                ScanStep::Pending
            },
            ScanPhase::Match { word } => {
                self.look_ahead(tree, word);
                ScanStep::Pending
            },
            ScanPhase::Load => {
                let word = tree.load(self.place);
                proof {
                    lemma_held_at(*tree, self.place, word);
                    let path = self.writer.bytes();
                    let bytes = word.link().bytes;
                    assert(leads(path, path + bytes)) by {
                        assert((path + bytes).take(path.len() as int) =~= path);
                    }
                    lemma_leads(self.goal@.prefix, path, path + bytes);
                }
                self.phase = ScanPhase::Look { word };
                proof {
                    assert(self.frames@ == before.frames@);
                    assert forall|k: Seq<u8>| #[trigger] self.current(k) == before.current(k) by {}
                    assert forall|k: Seq<u8>| #[trigger] self.deferred(k) == before.deferred(k) by {
                        if before.deferred(k) {
                            let i = choose|i: int|
                                0 <= i < before.frames@.len() && (
                                #[trigger] before.frames@[i]).waits(k);
                            assert(self.frames@[i].waits(k));
                        }
                        if self.deferred(k) {
                            let i = choose|i: int|
                                0 <= i < self.frames@.len() && (#[trigger] self.frames@[i]).waits(k);
                            assert(before.frames@[i].waits(k));
                        }
                    }
                    assert forall|k: Seq<u8>| #[trigger] self.reported(k) == before.reported(k) by {}
                }
                ScanStep::Pending
            },
            ScanPhase::Look { word } => self.look(tree, word),
            ScanPhase::Next => self.advance(tree),
        }
    }

    /// A scan that is over has reported every key that was present all the
    /// time since it was started.
    pub proof fn law_complete(self, tree: Tree<K>, key: Seq<u8>)
        requires
            self.wf(tree),
            self.over(),
            K::is_key(key),
            self.goal@.covers(key),
            forall|i: int|
                self.start@ <= i < tree.history@.len() ==> (
                #[trigger] tree.history@[i]).contains_key(key),
        ensures
            self.reported(key),
    {
        if tree.seen(self.start@, key, None) {
            let i = choose|i: int|
                self.start@ <= i < tree.history@.len() && 0 <= i && lookup(
                    #[trigger] tree.history@[i],
                    key,
                ) is None;
            assert(tree.history@[i].contains_key(key));
        }
    }

    /// A scan reports keys in order, and none of them twice.
    pub proof fn law_once(self, tree: Tree<K>, i: int, j: int)
        requires
            self.wf(tree),
            0 <= i < j < self.entries@.len(),
        ensures
            precedes(self.order, self.entries@[i].0, self.entries@[j].0),
            self.entries@[i].0 != self.entries@[j].0,
    {
        lemma_lex_total(self.entries@[i].0, self.entries@[j].0);
    }
}

/// A scan goes up or down, and is to find the keys that begin with its prefix and
/// are within its bounds.
pub proof fn law_direction(order: Order, goal: Goal, a: Seq<u8>, b: Seq<u8>)
    ensures
        order is Ascend ==> (precedes(order, a, b) <==> lex_lt(a, b)),
        order is Descend ==> (precedes(order, a, b) <==> lex_lt(b, a)),
        goal.covers(a) <==> goal.prefix.is_prefix_of(a) && (goal.lower matches Some(lower) ==> !lex_lt(
            a,
            lower,
        )) && (goal.upper matches Some(upper) ==> !lex_lt(upper, a)),
{
    if goal.lower is Some {
        lemma_lex_total(goal.lower->0, a);
    }
    if goal.upper is Some {
        lemma_lex_total(a, goal.upper->0);
    }
    let n = goal.prefix.len() as int;
    if n <= a.len() {
        assert(a.take(n) =~= a.subrange(0, n));
    }
}


} // verus!
