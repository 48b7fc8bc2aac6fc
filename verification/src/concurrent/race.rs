//! Insertions of the same key at the same time.
use vstd::prelude::*;
use crate::concurrent::operation::upsert::{Upsert, UpsertStep};
use crate::concurrent::tree::{evolves, lookup, Tree};
use crate::concurrent::walk::lemma_seen;
use crate::raw::key::{Key, Read};

verus! {

/// How an insertion, an operation that stores a value unless there is one,
/// ended.
pub enum Insertion {
    /// The value was stored, with the change numbered `at`.
    Stored { at: int, value: u64 },
    /// There was a value, which was reported.
    Refused { value: u64 },
}

/// An insertion of the key, started at the change numbered `start`, ended this
/// way.
pub open spec fn inserted<K: Key>(
    tree: Tree<K>,
    key: Seq<u8>,
    start: int,
    insertion: Insertion,
) -> bool {
    match insertion {
        Insertion::Stored { at, value } => {
            &&& 0 <= start <= at
            &&& at + 1 < tree.history@.len()
            &&& lookup(tree.history@[at], key) is None
            &&& tree.history@[at + 1] == tree.history@[at].insert(key, value)
        },
        Insertion::Refused { value } => tree.seen(start, key, Some(value)),
    }
}

/// How an insertion ended does not change afterwards.
pub proof fn law_inserted_kept<K: Key>(
    before: Tree<K>,
    after: Tree<K>,
    key: Seq<u8>,
    start: int,
    insertion: Insertion,
)
    requires
        evolves(before, after),
        inserted(before, key, start, insertion),
    ensures
        inserted(after, key, start, insertion),
{
    match insertion {
        Insertion::Stored { at, .. } => {
            assert(after.history@[at] == before.history@[at]);
            assert(after.history@[at + 1] == before.history@[at + 1]);
        },
        Insertion::Refused { value } => {
            lemma_seen(before, after, start, key, Some(value));
        },
    }
}

impl<K: Key, R: Read<Edge = K::Edge>> Upsert<K, R> {
    /// An operation that stores a value where it was told that there is none,
    /// and is broken off where it was told that there is one, is an insertion:
    /// it stores the value with the step that reports success, or reports a
    /// value that the key had since the operation was started.
    pub proof fn law_inserted(self, next: Self, before: Tree<K>, after: Tree<K>, step: UpsertStep)
        requires
            before.wf(),
            self.wf(before),
            !(self.phase is Done),
            after.wf(),
            self.steps(next, before, after, step),
        ensures
            step matches UpsertStep::Success { old, new } ==> old is None ==> inserted(
                after,
                self.cursor.goal@,
                self.start@,
                Insertion::Stored { at: before.history@.len() - 1, value: new },
            ),
            step matches UpsertStep::Ask { old, .. } ==> {
                &&& next.phase is Ask
                &&& next.phase->Ask_old == old
                &&& old matches Some(value) ==> inserted(
                    after,
                    self.cursor.goal@,
                    self.start@,
                    Insertion::Refused { value },
                )
            },
    {
    }
}

/// What a key has between two changes of it.
proof fn lemma_unchanged_between<K: Key>(tree: Tree<K>, key: Seq<u8>, from: int, to: int)
    requires
        0 <= from <= to < tree.history@.len(),
        forall|k: int|
            from <= k < to ==> lookup(#[trigger] tree.history@[k], key) == lookup(
                tree.history@[k + 1],
                key,
            ),
    ensures
        lookup(tree.history@[to], key) == lookup(tree.history@[from], key),
    decreases to - from,
{
    if from < to {
        lemma_unchanged_between(tree, key, from, to - 1);
        assert(lookup(tree.history@[to - 1], key) == lookup(tree.history@[to - 1 + 1], key));
    }
}

/// Of two insertions of a key that had no value when they were started, and
/// that nothing else changes, exactly one stores its value, and the other one
/// reports that value.
///
/// Two insertions that both store a value do so with different changes.
pub proof fn law_race<K: Key>(
    tree: Tree<K>,
    key: Seq<u8>,
    first: int,
    starts: (int, int),
    insertions: (Insertion, Insertion),
)
    requires
        0 <= first < tree.history@.len(),
        first <= starts.0,
        first <= starts.1,
        lookup(tree.history@[first], key) is None,
        inserted(tree, key, starts.0, insertions.0),
        inserted(tree, key, starts.1, insertions.1),
        insertions.0 matches Insertion::Stored { at: a, .. } ==> insertions.1 matches Insertion::Stored {
            at: b,
            ..
        } ==> a != b,
        forall|k: int|
            first <= k && k + 1 < tree.history@.len() && lookup(#[trigger] tree.history@[k], key)
                != lookup(tree.history@[k + 1], key) ==> {
                ||| insertions.0 matches Insertion::Stored { at, .. } && at == k
                ||| insertions.1 matches Insertion::Stored { at, .. } && at == k
            },
    ensures
        match insertions {
            (Insertion::Stored { value, .. }, Insertion::Refused { value: reported }) => reported
                == value,
            (Insertion::Refused { value: reported }, Insertion::Stored { value, .. }) => reported
                == value,
            _ => false,
        },
{
    let history = tree.history@;
    match insertions {
        (Insertion::Stored { at: a, .. }, Insertion::Stored { at: b, .. }) => {
            let (low, high) = if a < b {
                (a, b)
            } else {
                (b, a)
            };
            lemma_unchanged_between(tree, key, low + 1, high);
            assert(false);
        },
        (Insertion::Refused { value }, Insertion::Refused { .. }) => {
            let i = choose|i: int|
                starts.0 <= i < history.len() && 0 <= i && lookup(#[trigger] history[i], key)
                    == Some(value);
            lemma_unchanged_between(tree, key, first, i);
            assert(false);
        },
        (Insertion::Stored { at, .. }, Insertion::Refused { value }) => {
            lemma_after(tree, key, first, starts.1, at, value);
        },
        (Insertion::Refused { value }, Insertion::Stored { at, .. }) => {
            lemma_after(tree, key, first, starts.0, at, value);
        },
    }
}

/// The value that was seen of a key with one change is the one that it has
/// after the change.
proof fn lemma_after<K: Key>(
    tree: Tree<K>,
    key: Seq<u8>,
    first: int,
    start: int,
    at: int,
    value: u64,
)
    requires
        0 <= first <= start,
        first <= at,
        at + 1 < tree.history@.len(),
        lookup(tree.history@[first], key) is None,
        tree.seen(start, key, Some(value)),
        forall|k: int|
            first <= k && k + 1 < tree.history@.len() && k != at ==> lookup(
                #[trigger] tree.history@[k],
                key,
            ) == lookup(tree.history@[k + 1], key),
    ensures
        lookup(tree.history@[at + 1], key) == Some(value),
{
    let i = choose|i: int|
        start <= i < tree.history@.len() && 0 <= i && lookup(#[trigger] tree.history@[i], key)
            == Some(value);
    if i <= at {
        lemma_unchanged_between(tree, key, first, i);
    } else {
        lemma_unchanged_between(tree, key, at + 1, i);
    }
}

} // verus!
