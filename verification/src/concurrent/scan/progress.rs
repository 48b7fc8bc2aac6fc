//! Progress of scans.
//!
//! A scan ends, whatever other operations do in between: it visits each slot
//! of a node at most once, and no path is longer than the longest key.
use vstd::arithmetic::power::{lemma_pow1, lemma_pow_adds, lemma_pow_positive, pow};
use vstd::prelude::*;
use crate::concurrent::scan::{Frame, Scan, ScanPhase, ScanStep};
use crate::concurrent::tree::Tree;
use crate::raw::key::{Key, Read, Write};
use crate::raw::node::iter::{ascending, KeyIndex};
use crate::raw::edge::Meta;
use crate::raw::shape::laws::lemma_descends;

verus! {

/// Bound on the number of steps behind a slot of a node that `len` bytes lead
/// to, if `max` bytes lead at most to a node.
pub open spec fn effort(max: nat, len: nat) -> nat {
    if len <= max + 1 {
        pow(400, (max + 1 - len) as nat) as nat
    } else {
        0
    }
}

/// One byte more leaves a fraction of the effort.
proof fn lemma_effort(max: nat, len: nat)
    requires
        len <= max,
    ensures
        effort(max, len) == 400 * effort(max, len + 1),
        effort(max, len + 1) > 0,
        effort(max, len) > 0,
{
    let n = (max - len) as nat;
    lemma_pow_positive(400, n);
    lemma_pow_positive(400, n + 1);
    lemma_pow_adds(400, 1, n);
    lemma_pow1(400);
}

/// Longer paths leave less effort.
proof fn lemma_effort_falls(max: nat, a: nat, b: nat)
    requires
        a <= b <= max,
    ensures
        0 < effort(max, b) <= effort(max, a),
    decreases b - a,
{
    lemma_effort(max, a);
    if a < b {
        lemma_effort_falls(max, a + 1, b);
    }
}

/// Bound on the number of steps for what is deferred.
pub open spec fn backlog<R: Read>(max: nat, frames: Seq<Frame<R>>) -> nat
    decreases frames.len(),
{
    if frames.len() == 0 {
        0
    } else {
        backlog(max, frames.drop_last()) + frames.last().keys.remaining().len() * effort(
            max,
            frames.last().path@.len(),
        )
    }
}

/// A node has at most 256 slots.
proof fn lemma_few(slots: Seq<KeyIndex>)
    requires
        ascending(slots),
    ensures
        slots.len() <= 256,
{
    if slots.len() > 256 {
        lemma_climbs(slots, 256);
    }
}

/// Ascending radix bytes are at least as large as their position.
proof fn lemma_climbs(slots: Seq<KeyIndex>, i: int)
    requires
        ascending(slots),
        0 <= i < slots.len(),
    ensures
        slots[i].key >= i,
    decreases i,
{
    if i > 0 {
        lemma_climbs(slots, i - 1);
        assert(slots[i - 1].key < slots[i].key);
    }
}

impl<K: Key, R: Read<Edge = K::Edge>> Scan<K, R> {
    /// Bytes that are left on the way to the prefix.
    pub open spec fn ahead(self) -> nat {
        match self.phase {
            ScanPhase::Seek => 2 * self.cursor.reader.bytes().len() + 2,
            ScanPhase::Match { .. } => 2 * self.cursor.reader.bytes().len() + 1,
            _ => 0,
        }
    }

    /// Bound on the number of steps behind the prefix.
    pub open spec fn toil(self) -> nat {
        let max = K::Write::max();
        let here = effort(max, self.writer.bytes().len());
        match self.phase {
            ScanPhase::Load => backlog(max, self.frames@) + 300 * here,
            ScanPhase::Look { .. } => backlog(max, self.frames@) + 299 * here,
            _ => backlog(max, self.frames@),
        }
    }

    /// With every step, a scan comes closer to its end, whatever other
    /// operations do in between.
    pub proof fn law_ends(self, next: Self, tree: Tree<K>, step: ScanStep)
        requires
            tree.wf(),
            self.wf(tree),
            next.wf(tree),
            next.goal == self.goal,
            self.moves(next, tree.memory(), step),
            !(step is End),
        ensures
            decreases_to!(
                self.ahead(),
                self.toil(),
                self.frames@.len() =>
                next.ahead(),
                next.toil(),
                next.frames@.len()
            ),
    {
        let memory = tree.memory();
        let max = K::Write::max();
        let len = self.writer.bytes().len();
        self.writer.lemma_len();
        next.writer.lemma_len();
        match self.phase {
            ScanPhase::Seek => {},
            ScanPhase::Match { word } => {
                let key = self.cursor.reader.bytes();
                if next.phase is Seek {
                    memory.lemma_next(
                        K::Edge::max(),
                        memory.path(self.cursor.place),
                        word.link(),
                        key,
                    );
                    lemma_descends(word.link().bytes, key);
                    assert(memory.path(next.cursor.place).len() > memory.path(
                        self.cursor.place,
                    ).len());
                }
            },
            ScanPhase::Load => {
                lemma_effort_falls(max, len, len);
                assert(next.writer.bytes() == self.writer.bytes());
            },
            ScanPhase::Look { word } => {
                lemma_effort_falls(max, len, len);
                if next.frames@.len() != self.frames@.len() {
                    let frame = next.frames@.last();
                    let deep = frame.path@.len();
                    assert(next.frames@.drop_last() =~= self.frames@);
                    assert(frame.wf(tree, next.goal@, next.start@));
                    lemma_few(frame.keys.remaining());
                    assert(frame.path@ == next.writer.bytes().take(frame.len as int));
                    lemma_effort_falls(max, len, deep);
                    let n = frame.keys.remaining().len();
                    let e = effort(max, deep);
                    assert(n * e <= 256 * e) by (nonlinear_arith)
                        requires
                            n <= 256,
                            e >= 0,
                    ;
                }
            },
            ScanPhase::Next => {
                let frame = self.frames@.last();
                let n = frame.keys.remaining().len();
                let deep = frame.path@.len();
                assert(frame.wf(tree, self.goal@, self.start@));
                assert(frame.path@ == self.writer.bytes().take(frame.len as int));
                lemma_effort(max, deep);
                let e = effort(max, deep);
                if n == 0 {
                    assert(n * e == 0) by (nonlinear_arith)
                        requires
                            n == 0,
                    ;
                } else {
                    assert((n - 1) * e == n * e - e) by (nonlinear_arith);
                }
            },
        }
    }
}

} // verus!
