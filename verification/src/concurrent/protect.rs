//! What hazards protect.
//!
//! A thread publishes the key of its operation, or the prefix of its scan, as
//! a hazard. Retired nodes are filed under bytes that lead towards them. So
//! long as the hazard is published, no node that the operation stands on is
//! reclaimed.
use vstd::prelude::*;
use crate::bytes::{common_len, diverge, lemma_common_len, lemma_diverge_at};
use crate::concurrent::cursor::Cursor;
use crate::concurrent::memory::{grows, leads, Memory, Place};
use crate::concurrent::retire::filed;
use crate::concurrent::scan::{Scan, ScanPhase};
use crate::concurrent::smr::hazard::{overlaps, protected, RetiredView};
use crate::concurrent::tree::{evolves, Tree};
use crate::raw::key::{Key, Read};

verus! {

/// Each retired node is filed under bytes that lead towards it.
pub open spec fn registered(memory: Memory, retired: Seq<RetiredView>) -> bool {
    forall|i: int|
        0 <= i < retired.len() && !(#[trigger] retired[i]).value ==> {
            &&& retired[i].raw < memory.blocks.len()
            &&& leads(retired[i].prefix, memory.blocks[retired[i].raw as int].path)
        }
}

/// No node that is reclaimed has this number.
pub open spec fn spares(freed: Seq<RetiredView>, node: usize) -> bool {
    forall|i: int| 0 <= i < freed.len() && !(#[trigger] freed[i]).value ==> freed[i].raw != node
}

/// Accesses of whatever operations keep retired nodes filed.
pub proof fn law_registered_kept<K: Key>(
    before: Tree<K>,
    after: Tree<K>,
    retired: Seq<RetiredView>,
)
    requires
        evolves(before, after),
        registered(before.memory(), retired),
    ensures
        registered(after.memory(), retired),
{
    assert(grows(before.memory(), after.memory()));
    assert forall|i: int| 0 <= i < retired.len() && !(#[trigger] retired[i]).value implies {
        &&& retired[i].raw < after.memory().blocks.len()
        &&& leads(retired[i].prefix, after.memory().blocks[retired[i].raw as int].path)
    } by {
        let old = before.memory().blocks[retired[i].raw as int];
        assert(leads(retired[i].prefix, old.path));
    }
}

/// A node that a step reports for retirement, and that is handed over under
/// the reported bytes of the operation's key, is filed.
pub proof fn law_registered<K: Key>(
    tree: Tree<K>,
    retired: Seq<RetiredView>,
    key: Seq<u8>,
    len: usize,
    node: usize,
)
    requires
        registered(tree.memory(), retired),
        node < tree.nodes@.len(),
        filed(tree, node, key, len),
    ensures
        registered(
            tree.memory(),
            retired.push(
                RetiredView { prefix: key.take(len as int), value: false, raw: node as u64 },
            ),
        ),
{
    let new = RetiredView { prefix: key.take(len as int), value: false, raw: node as u64 };
    let all = retired.push(new);
    assert forall|i: int| 0 <= i < all.len() && !(#[trigger] all[i]).value implies {
        &&& all[i].raw < tree.memory().blocks.len()
        &&& leads(all[i].prefix, tree.memory().blocks[all[i].raw as int].path)
    } by {
        if i < retired.len() {
            assert(all[i] == retired[i]);
        }
    }
}

/// Values that are handed over do not matter to nodes.
pub proof fn law_registered_value(
    memory: Memory,
    retired: Seq<RetiredView>,
    prefix: Seq<u8>,
    raw: u64,
)
    requires
        registered(memory, retired),
    ensures
        registered(memory, retired.push(RetiredView { prefix, value: true, raw })),
{
    let all = retired.push(RetiredView { prefix, value: true, raw });
    assert forall|i: int| 0 <= i < all.len() && !(#[trigger] all[i]).value implies {
        &&& all[i].raw < memory.blocks.len()
        &&& leads(all[i].prefix, memory.blocks[all[i].raw as int].path)
    } by {
        assert(all[i] == retired[i]);
    }
}

/// Bytes that lead towards a path overlap with whatever the path overlaps
/// with.
proof fn lemma_overlap(prefix: Seq<u8>, path: Seq<u8>, hazard: Seq<u8>)
    requires
        leads(prefix, path),
        overlaps(path, hazard),
    ensures
        overlaps(prefix, hazard),
{
    lemma_common_len(prefix, hazard);
    if diverge(prefix, hazard) {
        let n = common_len(prefix, hazard) as int;
        assert(path.take(prefix.len() as int)[n] == path[n]);
        lemma_diverge_at(path, hazard, n);
    }
}

/// Of two sequences that lead to a third, one leads to the other.
proof fn lemma_lead_overlap(a: Seq<u8>, b: Seq<u8>)
    requires
        leads(a, b) || leads(b, a),
    ensures
        overlaps(a, b),
{
    lemma_common_len(a, b);
    if diverge(a, b) {
        let n = common_len(a, b) as int;
        if leads(a, b) {
            assert(b.take(a.len() as int)[n] == b[n]);
        } else {
            assert(a.take(b.len() as int)[n] == a[n]);
        }
    }
}

/// No node whose path overlaps with a hazard is reclaimed.
pub proof fn law_overlapping_spared(
    memory: Memory,
    hazards: Seq<Option<Vec<u8>>>,
    id: int,
    retired: Seq<RetiredView>,
    node: usize,
)
    requires
        registered(memory, retired),
        0 <= id < hazards.len(),
        hazards[id] is Some,
        overlaps(memory.blocks[node as int].path, hazards[id]->0@),
    ensures
        spares(retired.filter(|retired: RetiredView| !protected(hazards, retired)), node),
{
    let free = |retired: RetiredView| !protected(hazards, retired);
    let freed = retired.filter(free);
    assert forall|i: int| 0 <= i < freed.len() && !(#[trigger] freed[i]).value implies freed[i].raw
        != node by {
        retired.lemma_filter_pred(free, i);
        assert(freed.contains(freed[i]));
        retired.lemma_filter_contains_rev(free, freed[i]);
        let j = retired.index_of(freed[i]);
        assert(retired[j] == freed[i]);
        if freed[i].raw == node {
            lemma_overlap(freed[i].prefix, memory.blocks[node as int].path, hazards[id]->0@);
            assert(hazards[id] matches Some(hazard) && overlaps(freed[i].prefix, hazard@));
            assert(protected(hazards, freed[i]));
        }
    }
}

impl<R: Read> Cursor<R> {
    /// The cursor stands on the node, or has come through it.
    pub open spec fn stands_on(self, node: usize) -> bool {
        ||| self.place matches Place::Slot { node: at, .. } && at == node
        ||| exists|i: int|
            0 <= i < self.path.segments().len() && (#[trigger] self.path.segments()[i]).node == node
    }

    /// While an operation publishes its key as a hazard, whatever is reclaimed
    /// spares the nodes that it stands on or has come through.
    pub proof fn law_spared(
        self,
        memory: Memory,
        hazards: Seq<Option<Vec<u8>>>,
        id: int,
        retired: Seq<RetiredView>,
        node: usize,
    )
        requires
            self.wf(memory),
            self.stands_on(node),
            registered(memory, retired),
            0 <= id < hazards.len(),
            hazards[id] is Some,
            leads(self.goal@, hazards[id]->0@),
        ensures
            spares(retired.filter(|retired: RetiredView| !protected(hazards, retired)), node),
    {
        let hazard = hazards[id]->0@;
        let path = memory.blocks[node as int].path;
        assert(leads(path, self.goal@)) by {
            if self.place matches Place::Slot { node: at, .. } && at == node {
                assert(self.goal@.take(path.len() as int) =~= path);
            } else {
                let i = choose|i: int|
                    0 <= i < self.path.segments().len() && (
                    #[trigger] self.path.segments()[i]).node == node;
                let segment = self.path.segments()[i];
                assert(segment.wf(memory, self.goal@));
                assert(self.goal@.take(path.len() as int) =~= path);
            }
        }
        assert(hazard.take(path.len() as int) =~= hazard.take(self.goal@.len() as int).take(
            path.len() as int,
        ));
        lemma_lead_overlap(path, hazard);
        law_overlapping_spared(memory, hazards, id, retired, node);
    }
}

impl<K: Key, R: Read<Edge = K::Edge>> Scan<K, R> {
    /// The scan stands on the node, or is to come back to it.
    pub open spec fn stands_on(self, node: usize) -> bool {
        ||| (self.phase is Seek || self.phase is Match) && self.cursor.stands_on(node)
        ||| (self.phase is Load || self.phase is Look) && (self.place matches Place::Slot {
            node: at,
            ..
        } && at == node)
        ||| exists|i: int| 0 <= i < self.frames@.len() && (#[trigger] self.frames@[i]).node == node
    }

    /// While a scan publishes its prefix as a hazard, whatever is reclaimed
    /// spares the nodes that it stands on or is to come back to.
    pub proof fn law_spared(
        self,
        tree: Tree<K>,
        hazards: Seq<Option<Vec<u8>>>,
        id: int,
        retired: Seq<RetiredView>,
        node: usize,
    )
        requires
            self.wf(tree),
            self.stands_on(node),
            registered(tree.memory(), retired),
            0 <= id < hazards.len(),
            hazards[id] is Some,
            hazards[id]->0@ == self.goal@.prefix,
        ensures
            spares(retired.filter(|retired: RetiredView| !protected(hazards, retired)), node),
    {
        let memory = tree.memory();
        let prefix = self.goal@.prefix;
        let path = memory.blocks[node as int].path;
        assert(prefix.take(prefix.len() as int) =~= prefix);
        if (self.phase is Seek || self.phase is Match) && self.cursor.stands_on(node) {
            self.cursor.law_spared(memory, hazards, id, retired, node);
        } else {
            if (self.phase is Load || self.phase is Look) && (self.place matches Place::Slot {
                node: at,
                ..
            } && at == node) {
                let end = memory.path(self.place);
                assert(end.take(path.len() as int) =~= path);
                let whole = match self.phase {
                    ScanPhase::Look { word } => end + word.link().bytes,
                    _ => end,
                };
                assert(leads(prefix, whole));
                assert(whole.take(path.len() as int) =~= path);
                if path.len() <= prefix.len() {
                    assert(whole.take(prefix.len() as int).take(path.len() as int) =~= whole.take(
                        path.len() as int,
                    ));
                    assert(leads(path, prefix));
                } else {
                    assert(path.take(prefix.len() as int) =~= whole.take(prefix.len() as int));
                    assert(leads(prefix, path));
                }
            } else {
                let i = choose|i: int|
                    0 <= i < self.frames@.len() && (#[trigger] self.frames@[i]).node == node;
                assert(self.frames@[i].wf(tree, self.goal@, self.start@));
                assert(leads(prefix, path));
            }
            lemma_lead_overlap(path, prefix);
            law_overlapping_spared(memory, hazards, id, retired, node);
        }
    }
}

} // verus!
