//! Nodes without a child.
//!
//! Operations that store or change a value make none. A removal that runs
//! alone leaves none behind: while it is under way, at most one node of the
//! tree has no child, the one that the operation is about to look at.
use vstd::prelude::*;
use crate::bytes::{common_len, lemma_common_len};
use crate::concurrent::cursor::{popped, trimmed, Cursor};
use crate::concurrent::memory::change::{chain, chain_block, fork_block, growable, grown};
use crate::concurrent::memory::live::unlinked;
use crate::concurrent::memory::replace::{child, replaced, Outcome};
use crate::concurrent::memory::{lemma_slot, null_link, Block, Link, Memory, Place};
use crate::concurrent::operation::remove::{Remove, RemovePhase, RemoveStep};
use crate::concurrent::operation::opened;
use crate::concurrent::operation::update::{Update, UpdatePhase, UpdateStep};
use crate::concurrent::operation::upsert::{Upsert, UpsertPhase, UpsertStep};
use crate::concurrent::progress::{leads_on, lemma_segment_depth, on_route};
use crate::concurrent::tree::{came_of, law_children, occupied, offspring, Tree};
use crate::concurrent::walk::{collapsed, collapsing, Collapse, Progress, Stage};
use crate::raw::edge::Meta;
use crate::raw::key::{Key, Read};
use crate::raw::node::iter::slot_of;
use crate::raw::shape::laws::lemma_descends;
use crate::raw::shape::rest;
use crate::raw::Smo;

verus! {

impl Block {
    /// No word of the node has a child.
    pub open spec fn childless(self) -> bool {
        forall|slot: int| 0 <= slot < self.keys.len() ==> (#[trigger] self.links[slot]).target is Null
    }
}

impl Memory {
    /// Every node of the tree has a child.
    pub open spec fn tidy(self) -> bool {
        self.tidy_but(None)
    }

    /// Every node of the tree has a child, but for one at `hole`.
    pub open spec fn tidy_but(self, hole: Option<Seq<u8>>) -> bool {
        forall|node: int|
            0 <= node < self.blocks.len() && #[trigger] self.live(node)
                && self.blocks[node].childless() ==> hole == Some(self.blocks[node].path)
    }

    /// No other node of the tree than `node` has this path.
    pub open spec fn only(self, path: Seq<u8>, node: usize) -> bool {
        forall|other: int|
            0 <= other < self.blocks.len() && #[trigger] self.live(other)
                && self.blocks[other].path == path ==> other == node
    }

    /// Path of the node that a place is part of.
    pub open spec fn above(self, place: Place) -> Option<Seq<u8>> {
        match place {
            Place::Root => None,
            Place::Slot { node, .. } => Some(self.blocks[node as int].path),
        }
    }

    /// A walk ends at one node at most.
    proof fn lemma_one_end(self, link: Link, path: Seq<u8>, a: int, b: int)
        requires
            self.reaches(link, path, a),
            self.reaches(link, path, b),
        ensures
            a == b,
        decreases path.len(),
    {
        lemma_descends(link.bytes, path);
        if link.bytes != path {
            let place = self.next(link, path)->0;
            self.lemma_one_end(self.at(place), rest(link.bytes, path), a, b);
        }
    }

    /// A node of the tree is the only one with its path.
    proof fn lemma_only(self, node: usize)
        requires
            node < self.blocks.len(),
            self.live(node as int),
        ensures
            self.only(self.blocks[node as int].path, node),
    {
        let path = self.blocks[node as int].path;
        assert forall|other: int|
            0 <= other < self.blocks.len() && #[trigger] self.live(other)
                && self.blocks[other].path == path implies other == node by {
            self.lemma_one_end(self.root, path, node as int, other);
        }
    }
}

/// Places on the way that a walk takes are part of the tree.
proof fn lemma_route_current<R: Read>(memory: Memory, max: nat, cursor: Cursor<R>, i: int)
    requires
        memory.blocks_wf(max),
        memory.consistent(),
        cursor.wf(memory),
        on_route(memory, cursor),
        -1 <= i < cursor.path.segments().len(),
    ensures
        memory.current(cursor.after(i)),
        memory.valid(cursor.after(i)),
        i >= 0 ==> memory.live(cursor.path.segments()[i].node as int),
    decreases i + 1,
{
    let segments = cursor.path.segments();
    if i >= 0 {
        lemma_route_current(memory, max, cursor, i - 1);
        assert(leads_on(memory, cursor, i));
        assert(cursor.after(i - 1) == segments[i].place);
        memory.lemma_live_child(max, segments[i].place);
        assert(segments[i].wf(memory, cursor.goal@));
        assert(cursor.after(i) is Slot);
    }
    if i + 1 < segments.len() {
        assert(segments[i + 1].wf(memory, cursor.goal@));
    }
}

/// Changes that remove no child keep nodes from becoming childless.
proof fn lemma_tidy_kept(before: Memory, after: Memory, hole: Option<Seq<u8>>)
    requires
        unlinked(before, after),
        after.blocks.len() == before.blocks.len(),
        forall|node: int|
            0 <= node < before.blocks.len() ==> {
                &&& (#[trigger] after.blocks[node]).path == before.blocks[node].path
                &&& after.blocks[node].childless() ==> before.blocks[node].childless()
            },
    ensures
        before.tidy_but(hole) ==> after.tidy_but(hole),
        forall|path: Seq<u8>, node: usize| #[trigger]
            before.only(path, node) ==> after.only(path, node),
{
    reveal(unlinked);
    if before.tidy_but(hole) {
        assert forall|node: int|
            0 <= node < after.blocks.len() && #[trigger] after.live(node)
                && after.blocks[node].childless() implies hole == Some(
            after.blocks[node].path,
        ) by {
            assert(before.live(node));
        }
    }
    assert forall|path: Seq<u8>, node: usize| #[trigger] before.only(path, node) implies after.only(
        path,
        node,
    ) by {
        assert forall|other: int|
            0 <= other < after.blocks.len() && #[trigger] after.live(other)
                && after.blocks[other].path == path implies other == node by {
            assert(before.live(other));
            assert(after.blocks[other].path == before.blocks[other].path);
        }
    }
}

/// A node has a child where one of its radix bytes has one.
proof fn lemma_has_child(block: Block, byte: u8)
    requires
        child(block, byte).target !is Null,
    ensures
        !block.childless(),
{
    let slot = slot_of(block.keys, byte);
    assert(block.keys.contains(byte));
    assert(0 <= slot < block.keys.len() && block.keys[slot] == byte);
    assert(block.links[slot].target !is Null);
}

/// Closing a node removes no child.
proof fn lemma_tidy_close(before: Memory, max: nat, node: int, hole: Option<Seq<u8>>)
    requires
        before.blocks_wf(max),
        0 <= node < before.blocks.len(),
    ensures
        before.tidy_but(hole) ==> before.close(node).tidy_but(hole),
        forall|path: Seq<u8>, other: usize| #[trigger]
            before.only(path, other) ==> before.close(node).only(path, other),
{
    before.lemma_unlinked_close(max, node);
    let after = before.close(node);
    assert forall|n: int| 0 <= n < before.blocks.len() implies {
        &&& (#[trigger] after.blocks[n]).path == before.blocks[n].path
        &&& after.blocks[n].childless() ==> before.blocks[n].childless()
    } by {
        if after.blocks[n].childless() {
            assert forall|s: int| 0 <= s < before.blocks[n].keys.len() implies (
            #[trigger] before.blocks[n].links[s]).target is Null by {
                assert(after.blocks[n].links[s].target is Null);
            }
        }
    }
    lemma_tidy_kept(before, after, hole);
}

/// Freezing a word removes no child.
proof fn lemma_tidy_freeze(
    before: Memory,
    after: Memory,
    max: nat,
    node: usize,
    slot: u8,
    hole: Option<Seq<u8>>,
)
    requires
        before.blocks_wf(max),
        before.valid(Place::Slot { node, slot }),
        after == before.write(
            Place::Slot { node, slot },
            before.at(Place::Slot { node, slot }).freeze(),
            Seq::empty(),
        ),
        unlinked(before, after),
    ensures
        before.tidy_but(hole) ==> after.tidy_but(hole),
        forall|path: Seq<u8>, other: usize| #[trigger]
            before.only(path, other) ==> after.only(path, other),
{
    assert forall|n: int| 0 <= n < before.blocks.len() implies {
        &&& (#[trigger] after.blocks[n]).path == before.blocks[n].path
        &&& after.blocks[n].childless() ==> before.blocks[n].childless()
    } by {
        assert((before.blocks + Seq::<Block>::empty())[n] == before.blocks[n]);
        assert(before.blocks[n].wf(max));
        if after.blocks[n].childless() {
            assert forall|s: int| 0 <= s < before.blocks[n].keys.len() implies (
            #[trigger] before.blocks[n].links[s]).target is Null by {
                assert(after.blocks[n].links[s].target is Null);
            }
        }
    }
    assert(after.blocks.len() == before.blocks.len());
    lemma_tidy_kept(before, after, hole);
}

/// Writing a word leaves nodes without a child only where there was one, or
/// where the word is written, if it has no child.
proof fn lemma_tidy_written(before: Memory, place: Place, new: Link, fresh: Seq<Block>)
    requires
        before.valid(place),
        unlinked(before, before.write(place, new, fresh)),
        place matches Place::Slot { node, slot } ==> slot < before.blocks[node as int].links.len(),
    ensures
        ({
            let after = before.write(place, new, fresh);
            forall|node: int|
                0 <= node < before.blocks.len() && #[trigger] after.live(node) ==> {
                    &&& before.live(node)
                    &&& after.blocks[node].path == before.blocks[node].path
                    &&& after.blocks[node].childless() ==> before.blocks[node].childless() || (
                    new.target is Null && before.above(place) == Some(before.blocks[node].path))
                }
        }),
{
    reveal(unlinked);
    let after = before.write(place, new, fresh);
    assert forall|node: int| 0 <= node < before.blocks.len() && #[trigger] after.live(node) implies {
        &&& before.live(node)
        &&& after.blocks[node].path == before.blocks[node].path
        &&& after.blocks[node].childless() ==> before.blocks[node].childless() || (new.target is Null
            && before.above(place) == Some(before.blocks[node].path))
    } by {
        assert((before.blocks + fresh)[node] == before.blocks[node]);
        if let Place::Slot { node: at, slot } = place {
            if at == node && new.target !is Null {
                assert(after.blocks[node].links[slot as int] == new);
            }
        }
    }
}

/// Removing a value leaves at most the node that held it without a child.
proof fn lemma_tidy_clear(before: Memory, place: Place)
    requires
        before.valid(place),
        unlinked(before, before.write(place, null_link(), Seq::empty())),
        place matches Place::Slot { node, slot } ==> slot < before.blocks[node as int].links.len(),
        before.tidy(),
    ensures
        before.write(place, null_link(), Seq::empty()).tidy_but(before.above(place)),
{
    lemma_tidy_written(before, place, null_link(), Seq::empty());
    let after = before.write(place, null_link(), Seq::empty());
    assert(after.blocks.len() == before.blocks.len());
}

/// Replacing a node: the one that was replaced is gone, and the fresh one has
/// children.
proof fn lemma_tidy_swap<K: Key>(
    before: Memory,
    after: Memory,
    place: Place,
    outcome: Outcome,
    smo: Smo,
    hole: Option<Seq<u8>>,
)
    requires
        before.blocks_wf(K::Edge::max()),
        before.consistent(),
        before.settled(),
        before.blocks.len() < usize::MAX,
        before.valid(place),
        !before.at(place).frozen,
        before.at(place).target is Node,
        after.blocks_wf(K::Edge::max()),
        came_of::<K>(before, place, outcome, smo, after),
        before.tidy_but(hole),
    ensures
        ({
            let node = before.at(place).target->Node_0;
            let path = before.blocks[node as int].path;
            &&& hole == Some(path) && before.only(path, node) ==> after.tidy_but(before.above(place))
            &&& hole != Some(path) ==> after.tidy_but(hole)
            &&& forall|other: Seq<u8>, n: usize| #[trigger]
                before.only(other, n) && other != path ==> after.only(other, n)
        }),
{
    let max = K::Edge::max();
    let old = before.at(place);
    before.lemma_at(place);
    let node = old.target->Node_0;
    let block = before.blocks[node as int];
    let (new, fresh) = replaced(old, block, before.blocks.len(), outcome);
    before.lemma_unlinked_replace(max, place, outcome);
    if let Place::Slot { node: at, slot } = place {
        assert(before.blocks[at as int].wf(max));
    }
    lemma_tidy_written(before, place, new, fresh);
    assert(block.wf(max));
    // The fresh node has the children of the one that it stands for.
    assert forall|n: int| before.blocks.len() <= n < after.blocks.len() implies {
        &&& (#[trigger] after.blocks[n]).path == block.path
        &&& !after.blocks[n].childless()
    } by {
        let made = outcome->Replace_block;
        assert((before.blocks + fresh)[n] == made);
        assert(offspring(block).len() > 0);
        let byte = offspring(block).choose();
        assert(offspring(block).contains(byte)) by {
            if forall|b: u8| !offspring(block).contains(b) {
                assert(offspring(block) =~= Set::empty());
            }
        }
        assert(child(made, byte) == child(block, byte));
        lemma_has_child(made, byte);
    }
    // A node without children is the one at the hole.
    if new.target is Null {
        assert(block.childless()) by {
            assert forall|s: int| 0 <= s < block.keys.len() implies (
            #[trigger] block.links[s]).target is Null by {
                lemma_slot(block.keys, s);
                assert(child(block, block.keys[s]) == null_link());
            }
        }
        assert(before.live(node as int));
        assert(hole == Some(block.path));
    }
    if hole == Some(block.path) && before.only(block.path, node) {
        assert forall|n: int|
            0 <= n < after.blocks.len() && #[trigger] after.live(n)
                && after.blocks[n].childless() implies before.above(place) == Some(
            after.blocks[n].path,
        ) by {}
    }
    assert forall|other: Seq<u8>, n: usize| #[trigger]
        before.only(other, n) && other != block.path implies after.only(other, n) by {
        assert forall|m: int|
            0 <= m < after.blocks.len() && #[trigger] after.live(m) && after.blocks[m].path
                == other implies m == n by {}
    }
}

/// A path that was made for a value ends there.
proof fn lemma_chain_tidy(path: Seq<u8>, key: Seq<u8>, value: u64, max: nat, base: nat)
    ensures
        chain(path, key, value, max, base).0.target !is Null,
        forall|i: int|
            0 <= i < chain(path, key, value, max, base).1.len() ==> !(#[trigger] chain(
                path,
                key,
                value,
                max,
                base,
            ).1[i]).childless(),
    decreases key.len(),
{
    if key.len() > max {
        let path2 = path + key.take(max as int + 1);
        let key2 = key.skip(max as int + 1);
        let below = chain(path2, key2, value, max, base);
        let all = chain(path, key, value, max, base);
        lemma_chain_tidy(path2, key2, value, max, base);
        assert forall|i: int| 0 <= i < all.1.len() implies !(#[trigger] all.1[i]).childless() by {
            if i < below.1.len() {
                assert(all.1[i] == below.1[i]);
            } else {
                assert(all.1[i] == chain_block(path, key, below.0, max));
                assert(all.1[i].links[0] == below.0);
            }
        }
    }
}

/// Storing a value makes no node without a child.
proof fn lemma_tidy_grow<K: Key>(before: Memory, place: Place, key: Seq<u8>, value: u64)
    requires
        before.blocks_wf(K::Edge::max()),
        before.valid(place),
        unlinked(before, before.grow::<K>(place, key, value)),
        before.tidy(),
    ensures
        before.grow::<K>(place, key, value).tidy(),
{
    let max = K::Edge::max();
    let end = before.path(place);
    let old = before.at(place);
    let base = before.blocks.len();
    let (new, fresh) = grown(end, old, key, value, max, base);
    let after = before.grow::<K>(place, key, value);
    lemma_common_len(old.bytes, key);
    let n = common_len(old.bytes, key) as int;
    if n < old.bytes.len() {
        let below = chain(end + key.take(n + 1), key.skip(n + 1), value, max, base);
        lemma_chain_tidy(end + key.take(n + 1), key.skip(n + 1), value, max, base);
        assert forall|i: int| 0 <= i < fresh.len() implies !(#[trigger] fresh[i]).childless() by {
            if i < below.1.len() {
                assert(fresh[i] == below.1[i]);
            } else {
                assert(fresh[i] == fork_block(end, old, key, below.0));
                assert(fresh[i].links[0] == below.0);
            }
        }
    } else {
        lemma_chain_tidy(end, key, value, max, base);
    }
    if let Place::Slot { node, .. } = place {
        assert(before.blocks[node as int].wf(max));
    }
    lemma_tidy_written(before, place, new, fresh);
    assert forall|node: int| 0 <= node < after.blocks.len() && #[trigger] after.live(
        node,
    ) implies !after.blocks[node].childless() by {
        if node >= before.blocks.len() {
            assert((before.blocks + fresh)[node] == fresh[node - before.blocks.len()]);
        }
    }
}

/// Adding a key without a child removes no child.
proof fn lemma_tidy_opened(before: Memory, max: nat, node: int, byte: u8)
    requires
        before.blocks_wf(max),
        0 <= node < before.blocks.len(),
        before.tidy(),
    ensures
        opened(before, node, byte).tidy(),
{
    let block = before.blocks[node];
    assert(block.wf(max));
    if !(block.keys.contains(byte) || block.closed || block.keys.len() == block.kind.slots()) {
        let after = before.open_slot(node, byte);
        before.lemma_unlinked_open_slot(max, node, byte);
        assert forall|n: int| 0 <= n < before.blocks.len() implies {
            &&& (#[trigger] after.blocks[n]).path == before.blocks[n].path
            &&& after.blocks[n].childless() ==> before.blocks[n].childless()
        } by {
            if after.blocks[n].childless() {
                assert forall|s: int| 0 <= s < before.blocks[n].keys.len() implies (
                #[trigger] before.blocks[n].links[s]).target is Null by {
                    assert(after.blocks[n].links[s].target is Null);
                }
            }
        }
        lemma_tidy_kept(before, after, None);
    }
}

/// A step of a replacement makes no node without a child.
proof fn lemma_tidy_collapsed<K: Key, R: Read<Edge = K::Edge>>(
    before: Tree<K>,
    after: Tree<K>,
    from: Cursor<R>,
    to: Cursor<R>,
    collapse: Collapse<K::Edge>,
    progress: Progress<K::Edge>,
)
    requires
        before.wf(),
        before.room(1),
        after.wf(),
        unlinked(before.memory(), after.memory()),
        from.wf(before.memory()),
        collapsing::<K, R>(before.memory(), from, collapse),
        collapsed::<K, R>(before.memory(), after.memory(), from, to, collapse, progress),
        before.memory().tidy(),
    ensures
        after.memory().tidy(),
{
    let m = before.memory();
    let n = after.memory();
    let max = K::Edge::max();
    m.lemma_at(from.place);
    match collapse.stage {
        Stage::Close => {
            if !(m.blocks[collapse.node as int].kind is Node256) {
                lemma_tidy_close(m, max, collapse.node as int, None);
            }
        },
        Stage::Freeze { slot } => {
            let block = m.blocks[collapse.node as int];
            assert(block.wf(max));
            assert(block.kind.slots() <= 256);
            if slot < block.keys.len() {
                lemma_tidy_freeze(m, n, max, collapse.node, slot as u8, None);
            }
        },
        Stage::Swap => {
            if m.at(from.place) == collapse.word.link() {
                let (outcome, smo) = choose|outcome: Outcome, smo: Smo|
                    #[trigger] came_of::<K>(m, from.place, outcome, smo, n);
                lemma_tidy_swap::<K>(m, n, from.place, outcome, smo, None);
            }
        },
        _ => {},
    }
}

impl<K: Key, R: Read<Edge = K::Edge>> Upsert<K, R> {
    /// An operation that stores a value makes no node without a child,
    /// whatever others do in between.
    pub proof fn law_tidy(self, next: Self, before: Tree<K>, after: Tree<K>, step: UpsertStep)
        requires
            before.wf(),
            before.room(1),
            self.wf(before),
            !(self.phase is Done),
            after.wf(),
            self.steps(next, before, after, step),
            before.memory().tidy(),
        ensures
            after.memory().tidy(),
    {
        let m = before.memory();
        let n = after.memory();
        match self.phase {
            UpsertPhase::Walk { word } => {
                let key = self.cursor.reader.bytes();
                if !growable(word.link(), key) {
                    lemma_tidy_opened(
                        m,
                        K::Edge::max(),
                        word.target->Node_0 as int,
                        key[word.link().bytes.len() as int],
                    );
                }
            },
            UpsertPhase::Commit { new, .. } => {
                if step is Success {
                    lemma_tidy_grow::<K>(m, self.cursor.place, self.cursor.reader.bytes(), new);
                }
            },
            UpsertPhase::Replace { collapse } => {
                let progress = choose|progress: Progress<K::Edge>| #[trigger]
                    collapsed::<K, R>(m, n, self.cursor, next.cursor, collapse, progress)
                        && self.continues(next, progress, step);
                lemma_tidy_collapsed(before, after, self.cursor, next.cursor, collapse, progress);
            },
            UpsertPhase::Retreat { collapse } => {
                let progress = choose|progress: Progress<K::Edge>| #[trigger]
                    collapsed::<K, R>(m, n, self.cursor, next.cursor, collapse, progress)
                        && self.continues(next, progress, step);
                lemma_tidy_collapsed(before, after, self.cursor, next.cursor, collapse, progress);
            },
            _ => {},
        }
    }
}

impl<K: Key, R: Read<Edge = K::Edge>> Update<K, R> {
    /// An operation that changes a value makes no node without a child,
    /// whatever others do in between.
    pub proof fn law_tidy(self, next: Self, before: Tree<K>, after: Tree<K>, step: UpdateStep)
        requires
            before.wf(),
            before.room(1),
            self.wf(before),
            !(self.phase is Done),
            after.wf(),
            self.steps(next, before, after, step),
            before.memory().tidy(),
        ensures
            after.memory().tidy(),
    {
        let m = before.memory();
        let n = after.memory();
        match self.phase {
            UpdatePhase::Commit { new, .. } => {
                if step is Success {
                    lemma_tidy_grow::<K>(m, self.cursor.place, self.cursor.reader.bytes(), new);
                }
            },
            UpdatePhase::Retreat { collapse } => {
                let progress = choose|progress: Progress<K::Edge>| #[trigger]
                    collapsed::<K, R>(m, n, self.cursor, next.cursor, collapse, progress)
                        && self.continues(next, progress, step);
                lemma_tidy_collapsed(before, after, self.cursor, next.cursor, collapse, progress);
            },
            _ => {},
        }
    }
}

/// A node with more than one child has one.
proof fn lemma_occupied(block: Block, max: nat, n: int)
    requires
        block.wf(max),
        0 <= n <= block.links.len(),
        occupied(block, n) > 0,
    ensures
        !block.childless(),
    decreases n,
{
    if block.links[n - 1].target is Null {
        lemma_occupied(block, max, n - 1);
    } else {
        assert(n - 1 < block.keys.len());
    }
}

impl<K: Key, R: Read<Edge = K::Edge>> Remove<K, R> {
    /// Path of the one node that may have no child.
    pub open spec fn hole(self, memory: Memory) -> Option<Seq<u8>> {
        match self.phase {
            RemovePhase::Rise => memory.above(self.cursor.place),
            RemovePhase::Shrink { .. } | RemovePhase::Sink { .. } | RemovePhase::Seek { .. } => Some(
                self.cursor.goal@,
            ),
            _ => None,
        }
    }

    /// The node that the operation is about to look at is the only one that
    /// may have no child.
    pub open spec fn neat(self, memory: Memory) -> bool {
        &&& memory.tidy_but(self.hole(memory))
        &&& match self.phase {
            RemovePhase::Shrink { collapse, node, .. } => {
                &&& memory.only(self.cursor.goal@, node)
                &&& self.near() && collapse.stage is Read ==> collapse.node == node
            },
            RemovePhase::Sink { node } => memory.only(self.cursor.goal@, node),
            RemovePhase::Seek { node, .. } => memory.only(self.cursor.goal@, node),
            _ => true,
        }
    }

    /// If every node of the tree had a child, then at every step that the
    /// operation makes alone at most the node that it is about to look at has
    /// none, and at its end every node of the tree has one.
    pub proof fn law_neat(self, next: Self, before: Tree<K>, after: Tree<K>, step: RemoveStep)
        requires
            before.wf(),
            before.room(1),
            self.recursive,
            self.alone(before),
            self.neat(before.memory()),
            !(self.phase is Done),
            after.wf(),
            self.steps(next, before, after, step),
        ensures
            if next.phase is Done {
                after.memory().tidy()
            } else {
                next.neat(after.memory())
            },
    {
        let m = before.memory();
        let n = after.memory();
        let max = K::Edge::max();
        let place = self.cursor.place;
        let link = m.at(place);
        let key = self.cursor.reader.bytes();
        m.lemma_at(place);
        match self.phase {
            RemovePhase::Commit { .. } => {
                if step is Success {
                    if let Place::Slot { node, .. } = place {
                        assert(m.blocks[node as int].wf(max));
                        assert((m.blocks + Seq::<Block>::empty())[node as int]
                            == m.blocks[node as int]);
                    }
                    lemma_tidy_clear(m, place);
                }
            },
            RemovePhase::Retreat { collapse } => {
                let progress = choose|progress: Progress<K::Edge>| #[trigger]
                    collapsed::<K, R>(m, n, self.cursor, next.cursor, collapse, progress)
                        && self.continues(next, progress, step);
                self.lemma_collapsed(next, before, after, collapse, progress);
            },
            RemovePhase::Shrink { collapse, .. } => {
                let progress = choose|progress: Progress<K::Edge>| #[trigger]
                    collapsed::<K, R>(m, n, self.cursor, next.cursor, collapse, progress)
                        && self.continues(next, progress, step);
                self.lemma_collapsed(next, before, after, collapse, progress);
            },
            RemovePhase::Rise => {
                let last = self.cursor.path.segments().len() - 1;
                lemma_route_current(m, max, self.cursor, last);
                if last >= 0 {
                    let segment = self.cursor.path.segments()[last];
                    let block = m.blocks[segment.node as int];
                    assert(segment.wf(m, self.cursor.goal@));
                    assert(self.cursor.after(last) == place);
                    m.lemma_only(segment.node);
                    assert(m.above(place) == Some(block.path));
                    assert(block.wf(max));
                    if occupied(block, block.links.len() as int) > 1 {
                        lemma_occupied(block, max, block.links.len() as int);
                    } else {
                        let cursor = choose|cursor: Cursor<R>| #[trigger]
                            popped(self.cursor, cursor) && trimmed(
                                cursor,
                                next.cursor,
                                key.len() as int + 1,
                            );
                        assert(next.cursor.goal@ =~= block.path);
                    }
                }
            },
            RemovePhase::Seek { node, word } => {
                let last = self.cursor.path.segments().len() - 1;
                lemma_route_current(m, max, self.cursor, last);
                assert(self.cursor.after(last) == place);
                if m.next(link, key) is None && !(link.target is Node && link.bytes == key) {
                    let goal = self.cursor.goal@;
                    let end = m.path(place);
                    assert(goal.take(end.len() as int) =~= end);
                    assert(goal.skip(end.len() as int) =~= key);
                    m.lemma_pass(max, place, goal);
                    assert forall|other: int|
                        0 <= other < m.blocks.len() && #[trigger] m.live(
                            other,
                        ) implies m.blocks[other].path != goal by {
                        assert(m.reaches(m.root, goal, other) == m.reaches(link, key, other));
                    }
                }
            },
            _ => {},
        }
    }

    /// A step of a replacement.
    proof fn lemma_collapsed(
        self,
        next: Self,
        before: Tree<K>,
        after: Tree<K>,
        collapse: Collapse<K::Edge>,
        progress: Progress<K::Edge>,
    )
        requires
            before.wf(),
            before.room(1),
            self.recursive,
            self.alone(before),
            self.neat(before.memory()),
            match self.phase {
                RemovePhase::Retreat { collapse: current } => collapse == current,
                RemovePhase::Shrink { collapse: current, .. } => collapse == current,
                _ => false,
            },
            after.wf(),
            unlinked(before.memory(), after.memory()),
            next.wf(after),
            next.cursor.goal == self.cursor.goal,
            next.cursor.path is Full,
            collapsed::<K, R>(
                before.memory(),
                after.memory(),
                self.cursor,
                next.cursor,
                collapse,
                progress,
            ),
            exists|step: RemoveStep| #[trigger] self.continues(next, progress, step),
        ensures
            next.phase !is Done,
            next.neat(after.memory()),
    {
        let m = before.memory();
        let n = after.memory();
        let max = K::Edge::max();
        let place = self.cursor.place;
        let link = m.at(place);
        let key = self.cursor.reader.bytes();
        let goal = self.cursor.goal@;
        let last = self.cursor.path.segments().len() - 1;
        let hole = self.hole(m);
        m.lemma_at(place);
        lemma_route_current(m, max, self.cursor, last);
        assert(self.cursor.after(last) == place);
        m.lemma_live_child(max, place);
        lemma_descends(link.bytes, key);
        match collapse.stage {
            Stage::Pop => {
                if self.cursor.path.segments().len() == 0 {
                    assert(place is Root);
                }
                lemma_segment_depth(m, max, self.cursor, last);
            },
            Stage::Read => {},
            Stage::Close => {
                if !(m.blocks[collapse.node as int].kind is Node256) {
                    lemma_tidy_close(m, max, collapse.node as int, hole);
                }
            },
            Stage::Freeze { slot } => {
                let block = m.blocks[collapse.node as int];
                assert(block.wf(max));
                assert(block.kind.slots() <= 256);
                if slot < block.keys.len() {
                    lemma_tidy_freeze(m, n, max, collapse.node, slot as u8, hole);
                }
            },
            Stage::Swap => {
                let (outcome, smo) = choose|outcome: Outcome, smo: Smo|
                    #[trigger] came_of::<K>(m, place, outcome, smo, n);
                lemma_tidy_swap::<K>(m, n, place, outcome, smo, hole);
                let path = m.blocks[collapse.node as int].path;
                assert(path == m.path(place) + link.bytes);
                if self.near() {
                    assert(path == goal);
                } else {
                    m.lemma_next(max, m.path(place), link, key);
                    assert(path.len() < goal.len());
                }
                if let Place::Slot { node, .. } = place {
                    assert(n.blocks[node as int].path == m.blocks[node as int].path);
                }
            },
        }
    }
}

/// In a tidy tree every node that a walk can end at has a child.
pub proof fn law_tidy_tree(memory: Memory, max: nat, node: int)
    requires
        memory.tidy(),
        memory.blocks_wf(max),
        0 <= node < memory.blocks.len(),
        memory.reaches(memory.root, memory.blocks[node].path, node),
    ensures
        exists|slot: int|
            0 <= slot < memory.blocks[node].keys.len() && (
            #[trigger] memory.blocks[node].links[slot]).target !is Null,
        occupied(memory.blocks[node], memory.blocks[node].links.len() as int) > 0,
{
    assert(memory.live(node));
    let block = memory.blocks[node];
    assert(block.wf(max));
    if forall|slot: int|
        0 <= slot < block.keys.len() ==> (#[trigger] block.links[slot]).target is Null {
        assert(block.childless());
    }
    let slot = choose|slot: int|
        0 <= slot < block.keys.len() && (#[trigger] block.links[slot]).target !is Null;
    law_children(block, max);
    assert(block.keys[slot] == block.keys[slot]);
    assert(offspring(block).contains(block.keys[slot]));
    assert(offspring(block).len() > 0) by {
        if offspring(block).len() == 0 {
            assert(offspring(block) =~= Set::<u8>::empty());
        }
    }
}


} // verus!
