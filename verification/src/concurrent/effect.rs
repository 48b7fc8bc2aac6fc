//! What operations on shared memory do to the contents of a tree, and what they
//! report of them.
use vstd::prelude::*;
use crate::concurrent::operation::remove::{Remove, RemoveStep};
use crate::concurrent::operation::update::{Update, UpdateStep};
use crate::concurrent::operation::upsert::{Upsert, UpsertStep};
use crate::concurrent::scan::Scan;
use crate::concurrent::tree::Tree;
use crate::raw::key::{Key, Read};

verus! {

/// The key had no value, or this one, at some time since `start`.
pub open spec fn had<K: Key>(tree: Tree<K>, start: int, key: Seq<u8>, value: Option<u64>) -> bool {
    exists|i: int|
        start <= i < tree.history@.len() && 0 <= i && (match value {
            Some(value) => (#[trigger] tree.history@[i]).contains_key(key) && tree.history@[i][key]
                == value,
            None => !tree.history@[i].contains_key(key),
        })
}

/// What an operation has seen of a key is what the key had.
proof fn lemma_had<K: Key>(tree: Tree<K>, start: int, key: Seq<u8>, value: Option<u64>)
    requires
        tree.seen(start, key, value),
    ensures
        had(tree, start, key, value),
{
    let i = choose|i: int|
        start <= i < tree.history@.len() && 0 <= i && crate::concurrent::tree::lookup(
            #[trigger] tree.history@[i],
            key,
        ) == value;
    let _ = tree.history@[i];
}

impl<K: Key, R: Read<Edge = K::Edge>> Upsert<K, R> {
    /// An operation that stores a value changes the contents with one step, which
    /// stores the value under the key of the operation, and gives back what the
    /// key had right before. The caller is asked about a value that the key had
    /// since the operation was started. The history of the contents gets one
    /// entry with the change, and no entry without one.
    pub proof fn law_effect(self, next: Self, before: Tree<K>, after: Tree<K>, step: UpsertStep)
        requires
            self.steps(next, before, after, step),
        ensures
            next.cursor.goal == self.cursor.goal,
            next.start == self.start,
            match step {
                UpsertStep::Success { old, new } => {
                    &&& old is Some <==> before@.contains_key(self.cursor.goal@)
                    &&& old matches Some(old) ==> old == before@[self.cursor.goal@]
                    &&& after@ == before@.insert(self.cursor.goal@, new)
                    &&& after.history@ == before.history@.push(after@)
                },
                UpsertStep::Ask { old, initial } => {
                    &&& had(after, self.start@, self.cursor.goal@, old)
                    &&& initial == next.new
                    &&& after@ == before@
                    &&& after.history@ == before.history@
                },
                UpsertStep::Break { .. } => false,
                UpsertStep::Retry { initial } => {
                    &&& initial == self.new
                    &&& after@ == before@
                    &&& after.history@ == before.history@
                },
                UpsertStep::Pending | UpsertStep::Retire { .. } => {
                    &&& after@ == before@
                    &&& after.history@ == before.history@
                },
            },
    {
        if let UpsertStep::Ask { old, .. } = step {
            lemma_had(after, self.start@, self.cursor.goal@, old);
        }
    }
}

impl<K: Key, R: Read<Edge = K::Edge>> Update<K, R> {
    /// An operation that changes a value changes the contents with one step, which
    /// exchanges the value that the key of the operation has, and gives that back.
    /// It reports the key as absent only if it was at some time since the operation
    /// was started.
    pub proof fn law_effect(self, next: Self, before: Tree<K>, after: Tree<K>, step: UpdateStep)
        requires
            self.steps(next, before, after, step),
        ensures
            next.cursor.goal == self.cursor.goal,
            next.start == self.start,
            match step {
                UpdateStep::Success { old, new } => {
                    &&& before@.contains_key(self.cursor.goal@)
                    &&& old == before@[self.cursor.goal@]
                    &&& after@ == before@.insert(self.cursor.goal@, new)
                    &&& after.history@ == before.history@.push(after@)
                },
                UpdateStep::Ask { old, initial } => {
                    &&& had(after, self.start@, self.cursor.goal@, Some(old))
                    &&& initial == next.new
                    &&& after@ == before@
                    &&& after.history@ == before.history@
                },
                UpdateStep::Absent { initial } => {
                    &&& had(after, self.start@, self.cursor.goal@, None)
                    &&& initial == self.new
                    &&& after@ == before@
                    &&& after.history@ == before.history@
                },
                UpdateStep::Break { .. } => false,
                UpdateStep::Retry { initial } => {
                    &&& initial == self.new
                    &&& after@ == before@
                    &&& after.history@ == before.history@
                },
                UpdateStep::Pending | UpdateStep::Retire { .. } => {
                    &&& after@ == before@
                    &&& after.history@ == before.history@
                },
            },
    {
        match step {
            UpdateStep::Ask { old, .. } => {
                lemma_had(after, self.start@, self.cursor.goal@, Some(old));
            },
            UpdateStep::Absent { .. } => {
                lemma_had(after, self.start@, self.cursor.goal@, None);
            },
            _ => {},
        }
    }
}

impl<K: Key, R: Read<Edge = K::Edge>> Remove<K, R> {
    /// An operation that removes a value changes the contents with one step, which
    /// takes away the key of the operation, and gives back the value that the key
    /// had. It reports the key as absent only if it was at some time since the
    /// operation was started.
    pub proof fn law_effect(self, next: Self, before: Tree<K>, after: Tree<K>, step: RemoveStep)
        requires
            self.steps(next, before, after, step),
        ensures
            next.key == self.key,
            next.start == self.start,
            next.recursive == self.recursive,
            match step {
                RemoveStep::Success { old } => {
                    &&& before@.contains_key(self.key@)
                    &&& old == before@[self.key@]
                    &&& after@ == before@.remove(self.key@)
                    &&& after.history@ == before.history@.push(after@)
                },
                RemoveStep::Ask { old } => {
                    &&& had(after, self.start@, self.key@, Some(old))
                    &&& after@ == before@
                    &&& after.history@ == before.history@
                },
                RemoveStep::Absent => {
                    &&& had(after, self.start@, self.key@, None)
                    &&& after@ == before@
                    &&& after.history@ == before.history@
                },
                RemoveStep::Break { .. } => false,
                RemoveStep::Pending | RemoveStep::Retire { .. } | RemoveStep::Done
                | RemoveStep::Retry => {
                    &&& after@ == before@
                    &&& after.history@ == before.history@
                },
            },
    {
        match step {
            RemoveStep::Ask { old } => {
                lemma_had(after, self.start@, self.key@, Some(old));
            },
            RemoveStep::Absent => {
                lemma_had(after, self.start@, self.key@, None);
            },
            _ => {},
        }
    }
}

impl<K: Key, R: Read<Edge = K::Edge>> Scan<K, R> {
    /// What a scan has reported is within its goal, and each key had the reported
    /// value at some time since the scan was started.
    pub proof fn law_faithful(self, tree: Tree<K>, i: int)
        requires
            self.wf(tree),
            0 <= i < self.entries@.len(),
        ensures
            K::is_key(self.entries@[i].0),
            self.goal@.covers(self.entries@[i].0),
            had(tree, self.start@, self.entries@[i].0, Some(self.entries@[i].1)),
    {
        lemma_had(tree, self.start@, self.entries@[i].0, Some(self.entries@[i].1));
    }
}

} // verus!
