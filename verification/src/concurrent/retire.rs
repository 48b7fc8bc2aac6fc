//! Nodes that operations report for retirement.
use vstd::prelude::*;
use crate::concurrent::cursor::Cursor;
use crate::concurrent::memory::live::lemma_unlinked;
use crate::concurrent::memory::leads;
use crate::concurrent::memory::replace::Outcome;
use crate::concurrent::operation::remove::{Remove, RemovePhase, RemoveStep};
use crate::concurrent::operation::update::{Update, UpdateStep};
use crate::concurrent::operation::upsert::{Upsert, UpsertPhase, UpsertStep};
use crate::concurrent::tree::{came_of, evolves, Tree};
use crate::concurrent::walk::{collapsed, collapsing, Collapse, Progress};
use crate::raw::edge::Meta;
use crate::raw::key::{Key, Read};
use crate::raw::Smo;

verus! {

/// The node was part of the tree until this access.
pub open spec fn retired<K: Key>(before: Tree<K>, after: Tree<K>, node: usize) -> bool {
    &&& node < before.nodes@.len()
    &&& before.memory().live(node as int)
    &&& !after.memory().live(node as int)
}

/// The first `len` bytes of the operation's key, under which the node is
/// handed over, lead towards the node.
pub open spec fn filed<K: Key>(tree: Tree<K>, node: usize, key: Seq<u8>, len: usize) -> bool {
    &&& len <= key.len()
    &&& leads(key.take(len as int), tree.memory().blocks[node as int].path)
}

/// A node that has left the tree is never part of it again: no state that
/// further accesses lead to, of whatever operations, has it back.
pub proof fn law_gone<K: Key>(states: Seq<Tree<K>>, node: usize, last: int)
    requires
        0 <= last < states.len(),
        node < states[0].nodes@.len(),
        !states[0].memory().live(node as int),
        forall|i: int|
            0 <= i && i + 1 < states.len() ==> #[trigger] evolves(states[i], states[i + 1]),
    ensures
        node < states[last].nodes@.len(),
        !states[last].memory().live(node as int),
    decreases last,
{
    if last > 0 {
        law_gone(states, node, last - 1);
        assert(evolves(states[last - 1], states[last - 1 + 1]));
        lemma_unlinked(states[last - 1].memory(), states[last].memory(), node as int);
    }
}

/// A node that a replacement hands over has left the tree.
proof fn lemma_replaced<K: Key, R: Read<Edge = K::Edge>>(
    before: Tree<K>,
    after: Tree<K>,
    from: Cursor<R>,
    to: Cursor<R>,
    collapse: Collapse<K::Edge>,
    progress: Progress<K::Edge>,
    node: usize,
)
    requires
        before.wf(),
        before.room(1),
        after.wf(),
        evolves(before, after),
        from.wf(before.memory()),
        collapsing::<K, R>(before.memory(), from, collapse),
        collapsed::<K, R>(before.memory(), after.memory(), from, to, collapse, progress),
        progress matches Progress::Success { old_node, .. } && old_node == Some(node),
    ensures
        retired(before, after, node),
        filed(before, node, from.goal@, to.path.counted() as usize),
        from.path !is Discard ==> to.path.counted() as usize == before.memory().path(
            from.place,
        ).len(),
        before.memory().path(from.place) + before.memory().at(from.place).bytes
            == before.memory().blocks[node as int].path,
{
    let m = before.memory();
    let n = after.memory();
    m.lemma_at(from.place);
    assert(collapse.stage is Swap);
    assert(m.at(from.place) == collapse.word.link());
    let (outcome, smo) = choose|outcome: Outcome, smo: Smo|
        #[trigger] came_of::<K>(m, from.place, outcome, smo, n);
    m.lemma_unlinked_replace(K::Edge::max(), from.place, outcome);
    let path = m.blocks[node as int].path;
    let len = to.path.counted() as usize;
    assert(path == m.path(from.place) + m.at(from.place).bytes);
    assert(path.take(len as int) =~= from.goal@.take(len as int));
    assert(from.goal@.take(len as int).len() == len);
}

impl<K: Key, R: Read<Edge = K::Edge>> Upsert<K, R> {
    /// A node that a step reports for retirement left the tree with this step,
    /// and the reported bytes of the key lead towards it. Where the operation
    /// keeps track of its path, they lead as far as the edge to the node.
    pub proof fn law_retired(
        self,
        next: Self,
        before: Tree<K>,
        after: Tree<K>,
        step: UpsertStep,
    )
        requires
            before.wf(),
            before.room(1),
            self.wf(before),
            !(self.phase is Done),
            after.wf(),
            self.steps(next, before, after, step),
            step is Retire,
        ensures
            retired(before, after, step->Retire_node),
            filed(before, step->Retire_node, self.cursor.goal@, step->Retire_len),
            self.cursor.path !is Discard ==> before.memory().blocks[step->Retire_node as int].path
                == self.cursor.goal@.take(step->Retire_len as int) + before.memory().at(
                self.cursor.place,
            ).bytes,
    {
        let collapse = match self.phase {
            UpsertPhase::Replace { collapse } => collapse,
            UpsertPhase::Retreat { collapse } => collapse,
            _ => arbitrary(),
        };
        let progress = choose|progress: Progress<K::Edge>| #[trigger]
            collapsed::<K, R>(
                before.memory(),
                after.memory(),
                self.cursor,
                next.cursor,
                collapse,
                progress,
            ) && self.continues(next, progress, step);
        lemma_replaced(
            before,
            after,
            self.cursor,
            next.cursor,
            collapse,
            progress,
            step->Retire_node,
        );
        let len = step->Retire_len as int;
        if self.cursor.path !is Discard {
            assert(self.cursor.goal@.take(len) =~= before.memory().path(self.cursor.place));
        }
    }
}

impl<K: Key, R: Read<Edge = K::Edge>> Update<K, R> {
    /// A node that a step reports for retirement left the tree with this step,
    /// and the reported bytes of the key lead towards it. Where the operation
    /// keeps track of its path, they lead as far as the edge to the node.
    pub proof fn law_retired(
        self,
        next: Self,
        before: Tree<K>,
        after: Tree<K>,
        step: UpdateStep,
    )
        requires
            before.wf(),
            before.room(1),
            self.wf(before),
            !(self.phase is Done),
            after.wf(),
            self.steps(next, before, after, step),
            step is Retire,
        ensures
            retired(before, after, step->Retire_node),
            filed(before, step->Retire_node, self.cursor.goal@, step->Retire_len),
            self.cursor.path !is Discard ==> before.memory().blocks[step->Retire_node as int].path
                == self.cursor.goal@.take(step->Retire_len as int) + before.memory().at(
                self.cursor.place,
            ).bytes,
    {
        let collapse = self.phase->Retreat_collapse;
        let progress = choose|progress: Progress<K::Edge>| #[trigger]
            collapsed::<K, R>(
                before.memory(),
                after.memory(),
                self.cursor,
                next.cursor,
                collapse,
                progress,
            ) && self.continues(next, progress, step);
        lemma_replaced(
            before,
            after,
            self.cursor,
            next.cursor,
            collapse,
            progress,
            step->Retire_node,
        );
        let len = step->Retire_len as int;
        if self.cursor.path !is Discard {
            assert(self.cursor.goal@.take(len) =~= before.memory().path(self.cursor.place));
        }
    }
}

impl<K: Key, R: Read<Edge = K::Edge>> Remove<K, R> {
    /// A node that a step reports for retirement left the tree with this step,
    /// and the reported bytes of the key lead towards it. Where the operation
    /// keeps track of its path, they lead as far as the edge to the node.
    pub proof fn law_retired(
        self,
        next: Self,
        before: Tree<K>,
        after: Tree<K>,
        step: RemoveStep,
    )
        requires
            before.wf(),
            before.room(1),
            self.wf(before),
            !(self.phase is Done),
            after.wf(),
            self.steps(next, before, after, step),
            step is Retire,
        ensures
            retired(before, after, step->Retire_node),
            filed(before, step->Retire_node, self.key@, step->Retire_len),
            self.cursor.path !is Discard ==> before.memory().blocks[step->Retire_node as int].path
                == self.key@.take(step->Retire_len as int) + before.memory().at(
                self.cursor.place,
            ).bytes,
    {
        let collapse = match self.phase {
            RemovePhase::Retreat { collapse } => collapse,
            RemovePhase::Shrink { collapse, .. } => collapse,
            _ => arbitrary(),
        };
        let progress = choose|progress: Progress<K::Edge>| #[trigger]
            collapsed::<K, R>(
                before.memory(),
                after.memory(),
                self.cursor,
                next.cursor,
                collapse,
                progress,
            ) && self.continues(next, progress, step);
        lemma_replaced(
            before,
            after,
            self.cursor,
            next.cursor,
            collapse,
            progress,
            step->Retire_node,
        );
        let len = step->Retire_len as int;
        assert(self.key@.take(len) =~= self.cursor.goal@.take(len));
        if self.cursor.path !is Discard {
            assert(self.cursor.goal@.take(len) =~= before.memory().path(self.cursor.place));
        }
    }
}

/// A node is part of the tree as long as a walk along its path ends at it, and is
/// retired by the access after which none does.
pub proof fn law_part_of_tree<K: Key>(before: Tree<K>, after: Tree<K>, node: usize)
    requires
        node < before.nodes@.len(),
    ensures
        before.memory().live(node as int) <==> before.memory().reaches(
            before.memory().root,
            before.memory().blocks[node as int].path,
            node as int,
        ),
        retired(before, after, node) <==> before.memory().live(node as int) && !after.memory().live(
            node as int,
        ),
{
}


} // verus!
