//! What operations have to report for statistics.
//!
//! It follows from the states before and after a step.
use vstd::prelude::*;
use crate::bytes::{common_len, lemma_common_len, lemma_common_len_prefix};
use crate::concurrent::memory::Memory;
use crate::concurrent::operation::remove::{Remove, RemovePhase, RemoveStep};
use crate::concurrent::operation::update::{Update, UpdatePhase, UpdateStep};
use crate::concurrent::operation::upsert::{Upsert, UpsertPhase, UpsertStep};
use crate::concurrent::scan::Scan;
use crate::concurrent::smr::hazard::{views, Retired, RetiredView};
use crate::concurrent::tree::{rebuilds, Tree};
use crate::concurrent::walk::{Collapse, Stage};
use crate::raw::edge::Meta;
use crate::raw::key::{Key, Read};
use crate::raw::node::Type;
use crate::stat::{Counter, Event, Max, Record};

verus! {

/// How often an operation has gone back.
#[derive(Copy, Clone, Debug, PartialEq, Eq, Structural)]
pub struct Watch {
    /// Places that the replacement of a node went back to.
    pub freeze: u64,
    /// Nodes that a removal went back to.
    pub remove: u64,
}

impl Watch {
    /// Watch an operation that is just started.
    pub fn new() -> (watch: Self)
        ensures
            watch.freeze == 0,
            watch.remove == 0,
    {
        Watch { freeze: 0, remove: 0 }
    }
}

/// Places that the replacement under way went back to.
///
/// One that begins with the node above the operation's place has just gone back
/// there.
pub open spec fn went_back<M>(
    count: u64,
    from: Option<Collapse<M>>,
    to: Option<Collapse<M>>,
) -> u64 {
    match (from, to) {
        (Some(from), Some(_)) => if from.stage is Pop {
            count.wrapping_add(1)
        } else {
            count
        },
        (None, Some(to)) => if to.stage is Read {
            1
        } else {
            0
        },
        (_, None) => 0,
    }
}

/// The replacement that an operation is in.
pub open spec fn upsert_collapse<M>(phase: UpsertPhase<M>) -> Option<Collapse<M>> {
    match phase {
        UpsertPhase::Replace { collapse } => Some(collapse),
        UpsertPhase::Retreat { collapse } => Some(collapse),
        _ => None,
    }
}

/// The replacement that an operation is in.
pub open spec fn update_collapse<M>(phase: UpdatePhase<M>) -> Option<Collapse<M>> {
    match phase {
        UpdatePhase::Retreat { collapse } => Some(collapse),
        _ => None,
    }
}

/// The replacement that an operation is in.
pub open spec fn remove_collapse<M>(phase: RemovePhase<M>) -> Option<Collapse<M>> {
    match phase {
        RemovePhase::Retreat { collapse } => Some(collapse),
        RemovePhase::Shrink { collapse, .. } => Some(collapse),
        _ => None,
    }
}

/// The events of a step of a replacement: a fresh node that could not be
/// linked, the end of the replacement, and the retirement of the old node.
pub open spec fn collapse_events<M: Meta>(
    memory: Memory,
    count: u64,
    from: Option<Collapse<M>>,
    ended: bool,
    retired: bool,
) -> Seq<Event> {
    match from {
        Some(from) => {
            let conflict = from.stage is Swap && !retired && rebuilds(
                memory.blocks[from.node as int],
                from.word.link().bytes,
                M::max(),
            );
            (if conflict {
                seq![Event::Count(Counter::FreeConflict)]
            } else {
                Seq::empty()
            }) + (if ended && !from.once {
                seq![Event::Sample(Record::FreezePop, count)]
            } else {
                Seq::empty()
            }) + (if retired {
                seq![Event::Count(Counter::Retire)]
            } else {
                Seq::empty()
            })
        },
        None => Seq::empty(),
    }
}

/// What a step of a replacement needs in order to be watched.
pub open spec fn watchable<M: Meta>(memory: Memory, from: Option<Collapse<M>>) -> bool {
    from matches Some(from) ==> from.stage is Swap ==> {
        &&& from.word.meta.valid()
        &&& from.node < memory.blocks.len()
    }
}

/// The events of an operation that stores a value.
///
/// A value that could not be stored may have come with fresh nodes.
pub open spec fn upsert_events<M: Meta>(
    memory: Memory,
    count: u64,
    from: UpsertPhase<M>,
    to: UpsertPhase<M>,
    key: Seq<u8>,
    step: UpsertStep,
) -> Seq<Event> {
    let conflict = match from {
        UpsertPhase::Commit { word, .. } => step is Pending && (common_len(word.link().bytes, key)
            < word.link().bytes.len() || key.len() > M::max()),
        _ => false,
    };
    collapse_events(memory, count, upsert_collapse(from), to is Walk, step is Retire) + (
    if conflict {
        seq![Event::Count(Counter::FreeConflict)]
    } else {
        Seq::empty()
    }) + (if step is Retry {
        seq![Event::Count(Counter::InsertPessimistic)]
    } else {
        Seq::empty()
    })
}

/// The events of an operation that changes a value.
pub open spec fn update_events<M: Meta>(
    memory: Memory,
    count: u64,
    from: UpdatePhase<M>,
    to: UpdatePhase<M>,
    step: UpdateStep,
) -> Seq<Event> {
    collapse_events(memory, count, update_collapse(from), to is Walk, step is Retire) + (
    if step is Retry {
        seq![Event::Count(Counter::UpdatePessimistic)]
    } else {
        Seq::empty()
    })
}

/// The events of an operation that removes a value.
pub open spec fn remove_events<M: Meta>(
    memory: Memory,
    watch: Watch,
    from: RemovePhase<M>,
    to: RemovePhase<M>,
    step: RemoveStep,
) -> Seq<Event> {
    collapse_events(
        memory,
        watch.freeze,
        remove_collapse(from),
        to is Walk || to is Rise || to is Seek,
        step is Retire,
    ) + (if step is Done {
        seq![Event::Sample(Record::RemovePop, watch.remove)]
    } else {
        Seq::empty()
    })
}

impl Watch {
    /// Watch a step of a replacement.
    fn collapse<K: Key>(
        &mut self,
        tree: &Tree<K>,
        from: Option<Collapse<K::Edge>>,
        to: Option<Collapse<K::Edge>>,
        ended: bool,
        retired: bool,
    ) -> (events: Vec<Event>)
        requires
            tree.wf(),
            watchable(tree.memory(), from),
        ensures
            final(self).freeze == went_back(old(self).freeze, from, to),
            final(self).remove == old(self).remove,
            events@ == collapse_events(
                tree.memory(),
                old(self).freeze,
                from,
                ended,
                retired,
            ),
    {
        let mut events: Vec<Event> = Vec::new();
        if let Some(from) = from {
            if let Stage::Swap = from.stage {
                if !retired && tree.rebuilds(from.node, &from.word) {
                    events.push(Event::Count(Counter::FreeConflict));
                }
            }
            if ended && !from.once {
                events.push(Event::Sample(Record::FreezePop, self.freeze));
            }
            if retired {
                events.push(Event::Count(Counter::Retire));
            }
        }
        match (from, to) {
            (Some(from), Some(_)) => {
                if let Stage::Pop = from.stage {
                    self.freeze = self.freeze.wrapping_add(1);
                }
            },
            (None, Some(to)) => {
                self.freeze = if let Stage::Read = to.stage {
                    1
                } else {
                    0
                };
            },
            _ => {
                self.freeze = 0;
            },
        }
        assert(events@ =~= collapse_events(
            tree.memory(),
            old(self).freeze,
            from,
            ended,
            retired,
        ));
        events
    }

    /// Watch a step of an operation that stores a value, which was in the phase
    /// `from` before.
    pub fn upsert<K: Key, R: Read<Edge = K::Edge>>(
        &mut self,
        tree: &Tree<K>,
        from: UpsertPhase<K::Edge>,
        upsert: &Upsert<K, R>,
        step: UpsertStep,
    ) -> (events: Vec<Event>)
        requires
            tree.wf(),
            upsert.cursor.reader.valid(),
            from matches UpsertPhase::Commit { word, .. } ==> word.meta.valid(),
            watchable(tree.memory(), upsert_collapse(from)),
        ensures
            final(self).freeze == went_back(
                old(self).freeze,
                upsert_collapse(from),
                upsert_collapse(upsert.phase),
            ),
            final(self).remove == old(self).remove,
            events@ == upsert_events(
                tree.memory(),
                old(self).freeze,
                from,
                upsert.phase,
                upsert.cursor.reader.bytes(),
                step,
            ),
    {
        let before = match from {
            UpsertPhase::Replace { collapse } => Some(collapse),
            UpsertPhase::Retreat { collapse } => Some(collapse),
            _ => None,
        };
        let after = match upsert.phase {
            UpsertPhase::Replace { collapse } => Some(collapse),
            UpsertPhase::Retreat { collapse } => Some(collapse),
            _ => None,
        };
        let ended = matches!(upsert.phase, UpsertPhase::Walk { .. });
        let retired = matches!(step, UpsertStep::Retire { .. });
        let mut events = self.collapse(tree, before, after, ended, retired);
        let ghost first = events@;
        if let UpsertPhase::Commit { word, .. } = from {
            if let UpsertStep::Pending = step {
                let reader = upsert.cursor.reader;
                if reader.match_prefix(&word.meta) < word.meta.len() || reader.len()
                    > K::Edge::capacity() {
                    events.push(Event::Count(Counter::FreeConflict));
                }
            }
        }
        if let UpsertStep::Retry { .. } = step {
            events.push(Event::Count(Counter::InsertPessimistic));
        }
        assert(events@ =~= upsert_events(
            tree.memory(),
            old(self).freeze,
            from,
            upsert.phase,
            upsert.cursor.reader.bytes(),
            step,
        ));
        events
    }

    /// Watch a step of an operation that changes a value, which was in the
    /// phase `from` before.
    pub fn update<K: Key, R: Read<Edge = K::Edge>>(
        &mut self,
        tree: &Tree<K>,
        from: UpdatePhase<K::Edge>,
        update: &Update<K, R>,
        step: UpdateStep,
    ) -> (events: Vec<Event>)
        requires
            tree.wf(),
            watchable(tree.memory(), update_collapse(from)),
        ensures
            final(self).freeze == went_back(
                old(self).freeze,
                update_collapse(from),
                update_collapse(update.phase),
            ),
            final(self).remove == old(self).remove,
            events@ == update_events(
                tree.memory(),
                old(self).freeze,
                from,
                update.phase,
                step,
            ),
    {
        let before = match from {
            UpdatePhase::Retreat { collapse } => Some(collapse),
            _ => None,
        };
        let after = match update.phase {
            UpdatePhase::Retreat { collapse } => Some(collapse),
            _ => None,
        };
        let ended = matches!(update.phase, UpdatePhase::Walk { .. });
        let retired = matches!(step, UpdateStep::Retire { .. });
        let mut events = self.collapse(tree, before, after, ended, retired);
        if let UpdateStep::Retry { .. } = step {
            events.push(Event::Count(Counter::UpdatePessimistic));
        }
        assert(events@ =~= update_events(
            tree.memory(),
            old(self).freeze,
            from,
            update.phase,
            step,
        ));
        events
    }

    /// Watch a step of an operation that removes a value, which was in the
    /// phase `from` before.
    pub fn remove<K: Key, R: Read<Edge = K::Edge>>(
        &mut self,
        tree: &Tree<K>,
        from: RemovePhase<K::Edge>,
        remove: &Remove<K, R>,
        step: RemoveStep,
    ) -> (events: Vec<Event>)
        requires
            tree.wf(),
            watchable(tree.memory(), remove_collapse(from)),
        ensures
            final(self).freeze == went_back(
                old(self).freeze,
                remove_collapse(from),
                remove_collapse(remove.phase),
            ),
            final(self).remove == (if step is Success {
                0
            } else if from is Rise && remove.phase is Shrink {
                old(self).remove.wrapping_add(1)
            } else {
                old(self).remove
            }),
            events@ == remove_events(tree.memory(), *old(self), from, remove.phase, step),
    {
        let before = match from {
            RemovePhase::Retreat { collapse } => Some(collapse),
            RemovePhase::Shrink { collapse, .. } => Some(collapse),
            _ => None,
        };
        let after = match remove.phase {
            RemovePhase::Retreat { collapse } => Some(collapse),
            RemovePhase::Shrink { collapse, .. } => Some(collapse),
            _ => None,
        };
        let ended = matches!(
            remove.phase,
            RemovePhase::Walk { .. } | RemovePhase::Rise | RemovePhase::Seek { .. }
        );
        let retired = matches!(step, RemoveStep::Retire { .. });
        let mut events = self.collapse(tree, before, after, ended, retired);
        if let RemoveStep::Done = step {
            events.push(Event::Sample(Record::RemovePop, self.remove));
        }
        if let RemoveStep::Success { .. } = step {
            self.remove = 0;
        } else if let RemovePhase::Rise = from {
            if let RemovePhase::Shrink { .. } = remove.phase {
                self.remove = self.remove.wrapping_add(1);
            }
        }
        assert(events@ =~= remove_events(tree.memory(), *old(self), from, remove.phase, step));
        events
    }
}

/// The event of a scan that has entered a node, where it had `depth` nodes on
/// its path before.
pub fn scan_event<K: Key, R: Read<Edge = K::Edge>>(
    tree: &Tree<K>,
    depth: usize,
    scan: &Scan<K, R>,
) -> (event: Option<Event>)
    requires
        tree.wf(),
        scan.wf(*tree),
    ensures
        event == (if scan.frames@.len() > depth {
            let frame = scan.frames@.last();
            if tree.memory().blocks[frame.node as int].kind is Node3
                && frame.keys.remaining().len() == 1 {
                Some(Event::Count(Counter::EntriesOne))
            } else {
                Some(Event::Count(Counter::EntriesMany))
            }
        } else {
            None
        }),
{
    if scan.frames.len() <= depth {
        return None;
    }
    let frame = &scan.frames[scan.frames.len() - 1];
    assert(scan.frames@[scan.frames@.len() - 1].wf(*tree, scan.goal@, scan.start@));
    let one = match tree.nodes[frame.node].header.node_type() {
        Type::Node3 => frame.keys.len() == 1,
        _ => false,
    };
    if one {
        Some(Event::Count(Counter::EntriesOne))
    } else {
        Some(Event::Count(Counter::EntriesMany))
    }
}

/// The events of allocations that were reclaimed.
pub open spec fn freed_events(freed: Seq<RetiredView>, n: int) -> Seq<Event>
    decreases n,
{
    if n <= 0 || n > freed.len() {
        Seq::empty()
    } else {
        freed_events(freed, n - 1) + seq![
            Event::Sample(Record::ReclaimDepth, freed[n - 1].prefix.len() as u64),
            Event::Count(Counter::FreeRetire),
        ]
    }
}

/// The events of an attempt to reclaim the allocations that a thread has
/// retired: how many there were, how many of them are protected, and how deep
/// those were that are reclaimed.
pub open spec fn flush_events(retired: usize, freed: Seq<RetiredView>) -> Seq<Event> {
    seq![Event::Most(Max::RetireCache, retired as u64)] + Seq::new(
        (retired - freed.len()) as nat,
        |i: int| Event::Count(Counter::HazardMatch),
    ) + freed_events(freed, freed.len() as int) + seq![
        Event::Sample(Record::Flush, freed.len() as u64),
    ]
}

/// What an attempt to reclaim some of the `retired` allocations of a thread has
/// to report.
pub fn watch_flush(retired: usize, freed: &Vec<Retired>) -> (events: Vec<Event>)
    requires
        freed@.len() <= retired,
    ensures
        events@ == flush_events(retired, views(freed@)),
{
    let ghost all = views(freed@);
    let kept: usize = retired - freed.len();
    let mut events: Vec<Event> = Vec::new();
    events.push(Event::Most(Max::RetireCache, retired as u64));
    let ghost first = events@;
    let mut i: usize = 0;
    while i < kept
        invariant
            i <= kept,
            events@ == first + Seq::new(i as nat, |i: int| Event::Count(Counter::HazardMatch)),
        decreases kept - i,
    {
        events.push(Event::Count(Counter::HazardMatch));
        i += 1;
        assert(events@ =~= first + Seq::new(
            i as nat,
            |i: int| Event::Count(Counter::HazardMatch),
        ));
    }
    let ghost second = events@;
    let mut j: usize = 0;
    assert(events@ =~= second + freed_events(all, 0));
    while j < freed.len()
        invariant
            j <= freed@.len(),
            all == views(freed@),
            events@ == second + freed_events(all, j as int),
        decreases freed@.len() - j,
    {
        events.push(Event::Sample(Record::ReclaimDepth, freed[j].prefix.len() as u64));
        events.push(Event::Count(Counter::FreeRetire));
        j += 1;
        assert(events@ =~= second + freed_events(all, j as int));
    }
    events.push(Event::Sample(Record::Flush, freed.len() as u64));
    assert(events@ =~= flush_events(retired, all));
    events
}

/// What has to be reported of allocations that were reclaimed eagerly.
pub fn watch_reclaim(freed: &Vec<Retired>) -> (events: Vec<Event>)
    ensures
        events@ == Seq::new(freed@.len(), |i: int| Event::Count(Counter::FreeReclaim)),
{
    let mut events: Vec<Event> = Vec::new();
    while events.len() < freed.len()
        invariant
            events@.len() <= freed@.len(),
            events@ == Seq::new(events@.len(), |i: int| Event::Count(Counter::FreeReclaim)),
        decreases freed@.len() - events@.len(),
    {
        events.push(Event::Count(Counter::FreeReclaim));
        assert(events@ =~= Seq::new(
            events@.len(),
            |i: int| Event::Count(Counter::FreeReclaim),
        ));
    }
    events
}

/// A replacement reports the retirement of the old node exactly if a step
/// retires it, a fresh node that was made in vain exactly if it cannot be linked,
/// and how far it went back exactly once, where it ends.
pub proof fn law_collapse_events<M: Meta>(
    memory: Memory,
    count: u64,
    from: Collapse<M>,
    ended: bool,
    retired: bool,
    pops: u64,
)
    ensures
        ({
            let events = collapse_events(memory, count, Some(from), ended, retired);
            &&& events.no_duplicates()
            &&& events.contains(Event::Count(Counter::Retire)) <==> retired
            &&& events.contains(Event::Count(Counter::FreeConflict)) <==> from.stage is Swap
                && !retired && rebuilds(
                memory.blocks[from.node as int],
                from.word.link().bytes,
                M::max(),
            )
            &&& events.contains(Event::Sample(Record::FreezePop, pops)) <==> ended && !from.once
                && pops == count
            &&& forall|i: int|
                0 <= i < events.len() ==> #[trigger] events[i] == Event::Count(Counter::Retire)
                    || events[i] == Event::Count(Counter::FreeConflict) || events[i]
                    == Event::Sample(Record::FreezePop, count)
        }),
        collapse_events::<M>(memory, count, None, ended, retired).len() == 0,
{
    let events = collapse_events(memory, count, Some(from), ended, retired);
    let conflict = from.stage is Swap && !retired && rebuilds(
        memory.blocks[from.node as int],
        from.word.link().bytes,
        M::max(),
    );
    let end = ended && !from.once;
    if conflict {
        assert(events[0] == Event::Count(Counter::FreeConflict));
        if end {
            assert(events[1] == Event::Sample(Record::FreezePop, count));
        }
    } else if end {
        assert(events[0] == Event::Sample(Record::FreezePop, count));
        if retired {
            assert(events[1] == Event::Count(Counter::Retire));
        }
    } else if retired {
        assert(events[0] == Event::Count(Counter::Retire));
    }
}

/// Besides what a replacement reports, an insertion reports a value that could
/// not be stored together with its fresh nodes, and each time that it starts
/// over.
pub proof fn law_upsert_events<M: Meta>(
    memory: Memory,
    count: u64,
    from: UpsertPhase<M>,
    to: UpsertPhase<M>,
    key: Seq<u8>,
    step: UpsertStep,
)
    ensures
        ({
            let events = upsert_events(memory, count, from, to, key, step);
            &&& events.contains(Event::Count(Counter::InsertPessimistic)) <==> step is Retry
            &&& !events.contains(Event::Count(Counter::UpdatePessimistic))
            &&& from is Commit ==> (events.contains(Event::Count(Counter::FreeConflict)) <==> step
                is Pending && (!from->Commit_word.link().bytes.is_prefix_of(key) || key.len()
                > M::max()))
            &&& from is Commit ==> !events.contains(Event::Count(Counter::Retire))
        }),
{
    let events = upsert_events(memory, count, from, to, key, step);
    let first = collapse_events(
        memory,
        count,
        upsert_collapse(from),
        to is Walk,
        step is Retire,
    );
    if let Some(collapse) = upsert_collapse(from) {
        law_collapse_events(memory, count, collapse, to is Walk, step is Retire, count);
    }
    if step is Retry {
        assert(events[events.len() - 1] == Event::Count(Counter::InsertPessimistic));
    }
    if let UpsertPhase::Commit { word, .. } = from {
        lemma_common_len_prefix(word.link().bytes, key);
        lemma_common_len(word.link().bytes, key);
        if step is Pending && (common_len(word.link().bytes, key) < word.link().bytes.len()
            || key.len() > M::max()) {
            assert(events[0] == Event::Count(Counter::FreeConflict));
        }
    }
}

/// Besides what a replacement reports, an update reports each time that it
/// starts over.
pub proof fn law_update_events<M: Meta>(
    memory: Memory,
    count: u64,
    from: UpdatePhase<M>,
    to: UpdatePhase<M>,
    step: UpdateStep,
)
    ensures
        ({
            let events = update_events(memory, count, from, to, step);
            &&& events.contains(Event::Count(Counter::UpdatePessimistic)) <==> step is Retry
            &&& !events.contains(Event::Count(Counter::InsertPessimistic))
            &&& from !is Retreat ==> !events.contains(Event::Count(Counter::Retire))
            &&& from is Retreat ==> (events.contains(Event::Count(Counter::Retire)) <==> step
                is Retire)
        }),
{
    let events = update_events(memory, count, from, to, step);
    if let Some(collapse) = update_collapse(from) {
        law_collapse_events(memory, count, collapse, to is Walk, step is Retire, count);
        let first = collapse_events(
            memory,
            count,
            Some(collapse),
            to is Walk,
            step is Retire,
        );
        if step is Retire {
            assert(events[first.index_of(Event::Count(Counter::Retire))] == Event::Count(
                Counter::Retire,
            ));
        }
    }
    if step is Retry {
        assert(events[events.len() - 1] == Event::Count(Counter::UpdatePessimistic));
    }
}

/// Besides what a replacement reports, a removal reports how far it went back,
/// exactly where it is done.
pub proof fn law_remove_events<M: Meta>(
    memory: Memory,
    watch: Watch,
    from: RemovePhase<M>,
    to: RemovePhase<M>,
    step: RemoveStep,
    pops: u64,
)
    ensures
        ({
            let events = remove_events(memory, watch, from, to, step);
            &&& events.contains(Event::Sample(Record::RemovePop, pops)) <==> step is Done && pops
                == watch.remove
            &&& from !is Retreat && from !is Shrink ==> !events.contains(
                Event::Count(Counter::Retire),
            )
            &&& from is Retreat || from is Shrink ==> (events.contains(
                Event::Count(Counter::Retire),
            ) <==> step is Retire)
        }),
{
    let events = remove_events(memory, watch, from, to, step);
    let ended = to is Walk || to is Rise || to is Seek;
    if let Some(collapse) = remove_collapse(from) {
        law_collapse_events(memory, watch.freeze, collapse, ended, step is Retire, watch.freeze);
        let first = collapse_events(memory, watch.freeze, Some(collapse), ended, step is Retire);
        if step is Retire {
            assert(events[first.index_of(Event::Count(Counter::Retire))] == Event::Count(
                Counter::Retire,
            ));
        }
    }
    if step is Done {
        assert(events[events.len() - 1] == Event::Sample(Record::RemovePop, watch.remove));
    }
}

/// A replacement goes back once for each step that does, and starts with none, or
/// with one where it begins with the node above. Where none is under way there is
/// nothing to count.
pub proof fn law_went_back<M>(count: u64, from: Collapse<M>, to: Collapse<M>)
    ensures
        went_back(count, Some(from), Some(to)) == (if from.stage is Pop {
            count.wrapping_add(1)
        } else {
            count
        }),
        went_back(count, None, Some(to)) == (if to.stage is Read {
            1u64
        } else {
            0u64
        }),
        went_back::<M>(count, Some(from), None) == 0,
        went_back::<M>(count, None, None) == 0,
{
}

/// The events of reclaimed allocations come in pairs.
proof fn lemma_freed_events(freed: Seq<RetiredView>, n: int)
    requires
        0 <= n <= freed.len(),
    ensures
        freed_events(freed, n).len() == 2 * n,
        forall|i: int|
            0 <= i < n ==> #[trigger] freed_events(freed, n)[2 * i] == Event::Sample(
                Record::ReclaimDepth,
                freed[i].prefix.len() as u64,
            ) && freed_events(freed, n)[2 * i + 1] == Event::Count(Counter::FreeRetire),
    decreases n,
{
    if n > 0 {
        lemma_freed_events(freed, n - 1);
        let before = freed_events(freed, n - 1);
        let after = freed_events(freed, n);
        assert forall|i: int| 0 <= i < n implies #[trigger] after[2 * i] == Event::Sample(
            Record::ReclaimDepth,
            freed[i].prefix.len() as u64,
        ) && after[2 * i + 1] == Event::Count(Counter::FreeRetire) by {
            if i < n - 1 {
                assert(after[2 * i] == before[2 * i]);
                assert(after[2 * i + 1] == before[2 * i + 1]);
            }
        }
    }
}

/// An attempt to reclaim reports how many allocations a thread had retired, one
/// match for each that is still protected, the depth of each that is reclaimed
/// together with its release, and how many those are.
pub proof fn law_flush_events(retired: usize, freed: Seq<RetiredView>, i: int)
    requires
        freed.len() <= retired,
        0 <= i,
    ensures
        ({
            let events = flush_events(retired, freed);
            let kept = retired - freed.len();
            &&& events.len() == 2 + kept + 2 * freed.len()
            &&& events[0] == Event::Most(Max::RetireCache, retired as u64)
            &&& i < kept ==> events[1 + i] == Event::Count(Counter::HazardMatch)
            &&& i < freed.len() ==> events[1 + kept + 2 * i] == Event::Sample(
                Record::ReclaimDepth,
                freed[i].prefix.len() as u64,
            ) && events[2 + kept + 2 * i] == Event::Count(Counter::FreeRetire)
            &&& events.last() == Event::Sample(Record::Flush, freed.len() as u64)
        }),
{
    lemma_freed_events(freed, freed.len() as int);
    let events = flush_events(retired, freed);
    let kept = retired - freed.len();
    let pairs = freed_events(freed, freed.len() as int);
    if i < freed.len() {
        assert(pairs[2 * i] == Event::Sample(
            Record::ReclaimDepth,
            freed[i].prefix.len() as u64,
        ));
        assert(events[1 + kept + 2 * i] == pairs[2 * i]);
        assert(events[2 + kept + 2 * i] == pairs[2 * i + 1]);
    }
}


} // verus!
