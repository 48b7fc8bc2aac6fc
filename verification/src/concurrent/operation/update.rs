//! Operations that change a value.
use vstd::prelude::*;
use crate::concurrent::cursor::{Cursor, Path};
use crate::concurrent::memory::Memory;
use crate::concurrent::operation::{descended, follow, lemma_growable, lemma_sight, leads_to, value_at};
use crate::concurrent::tree::{changes, evolves, lookup, quiet, Tree, Word};
use crate::concurrent::walk::{
    collapse_step, collapsed, collapsing, fresh_at, fresh_from, held, inspect, lemma_collapsing,
    lemma_current, lemma_held, lemma_seen, lemma_stable, Collapse, Progress, Sight,
};
use crate::raw::edge::Meta;
use crate::raw::key::{Key, Read};

verus! {

/// State of an operation that changes a value.
pub enum UpdatePhase<M> {
    /// Read the word at the cursor's place.
    Load,
    /// Look at a word that was read there.
    Walk { word: Word<M> },
    /// Wait for a decision.
    Ask { old: u64, word: Word<M> },
    /// Store the value.
    Commit { old: u64, new: u64, word: Word<M> },
    /// Replace a node on the path whose words are frozen.
    Retreat { collapse: Collapse<M> },
    /// Nothing is left to do.
    Done,
}

impl<M: Meta> Copy for UpdatePhase<M> {}

impl<M: Meta> Clone for UpdatePhase<M> {
    fn clone(&self) -> (phase: Self)
        ensures
            phase == *self,
    {
        *self
    }
}

/// Outcome of a step of an operation that changes a value.
#[derive(Copy, Clone, Debug, PartialEq, Eq, Structural)]
pub enum UpdateStep {
    /// The operation goes on.
    Pending,
    /// The operation goes on, and this node, which `len` bytes lead to the
    /// edge of, is to be retired.
    Retire { len: usize, node: usize },
    /// The caller is to decide, see [`Update::answer`].
    Ask { old: u64, initial: Option<u64> },
    /// The value was changed.
    Success { old: u64, new: u64 },
    /// The caller broke the operation off.
    Break { old: u64 },
    /// There is no value.
    Absent { initial: Option<u64> },
    /// The operation has to be started again with a path that is retained.
    Retry { initial: Option<u64> },
}

/// Operation that changes a value.
pub struct Update<K: Key, R> {
    pub cursor: Cursor<R>,
    pub phase: UpdatePhase<K::Edge>,
    /// The value that was last considered.
    pub new: Option<u64>,
    pub start: Ghost<int>,
}

impl<K: Key, R: Read<Edge = K::Edge>> Update<K, R> {
    /// The operation is in a state that it can go on from.
    pub open spec fn wf(self, tree: Tree<K>) -> bool {
        let memory = tree.memory();
        let key = self.cursor.reader.bytes();
        &&& self.cursor.wf(memory)
        &&& K::is_key(self.cursor.goal@)
        &&& 0 <= self.start@ < tree.history@.len()
        &&& !(self.phase is Retreat || self.phase is Done) ==> fresh_at(
            tree,
            self.cursor,
            self.start@,
        )
        &&& match self.phase {
            UpdatePhase::Load => true,
            UpdatePhase::Walk { word } => {
                &&& held::<K, R>(memory, self.cursor, word)
                &&& fresh_from(tree, self.cursor, self.start@, word.link())
            },
            UpdatePhase::Ask { old, word } => {
                &&& held::<K, R>(memory, self.cursor, word)
                &&& leads_to(word.link(), key, old)
                &&& !word.frozen
                &&& tree.seen(self.start@, self.cursor.goal@, Some(old))
            },
            UpdatePhase::Commit { old, word, .. } => {
                &&& held::<K, R>(memory, self.cursor, word)
                &&& leads_to(word.link(), key, old)
                &&& !word.frozen
            },
            UpdatePhase::Retreat { collapse } => {
                &&& !collapse.once
                &&& collapsing::<K, R>(memory, self.cursor, collapse)
            },
            UpdatePhase::Done => true,
        }
    }

    /// One step of the operation: what it does to the memory, and how the
    /// operation goes on.
    pub open spec fn moves(
        self,
        next: Self,
        before: Memory,
        after: Memory,
        step: UpdateStep,
    ) -> bool {
        let place = self.cursor.place;
        let key = self.cursor.reader.bytes();
        match self.phase {
            UpdatePhase::Load => {
                &&& after == before
                &&& step is Pending
                &&& next.cursor == self.cursor
                &&& next.new == self.new
                &&& next.phase matches UpdatePhase::Walk { word } && word.link() == before.at(place)
            },
            UpdatePhase::Walk { word } => {
                &&& after == before
                &&& next.new == self.new
                &&& match before.next(word.link(), key) {
                    Some(slot) => {
                        &&& step is Pending
                        &&& next.phase is Load
                        &&& descended(self.cursor, next.cursor, word.link(), slot)
                    },
                    None => {
                        &&& next.cursor == self.cursor
                        &&& match value_at(word.link(), key) {
                            None => step == (UpdateStep::Absent { initial: self.new }),
                            Some(old) => if word.frozen {
                                &&& step is Pending
                                &&& next.phase matches UpdatePhase::Retreat { collapse }
                                    && collapse.stage is Pop
                            } else {
                                &&& step == (UpdateStep::Ask { old, initial: self.new })
                                &&& next.phase == (UpdatePhase::Ask { old, word })
                            },
                        }
                    },
                }
            },
            UpdatePhase::Ask { old, .. } => {
                &&& after == before
                &&& step == (UpdateStep::Ask { old, initial: self.new })
                &&& next == self
            },
            UpdatePhase::Commit { old, new, word } => {
                &&& next.cursor == self.cursor
                &&& if before.at(place) == word.link() {
                    &&& after == before.grow::<K>(place, key, new)
                    &&& step == (UpdateStep::Success { old, new })
                } else {
                    &&& after == before
                    &&& step is Pending
                    &&& next.new == Some(new)
                    &&& next.phase matches UpdatePhase::Walk { word: current } && current.link()
                        == before.at(place)
                }
            },
            UpdatePhase::Retreat { collapse } => exists|progress: Progress<K::Edge>| #[trigger]
                collapsed::<K, R>(before, after, self.cursor, next.cursor, collapse, progress)
                    && self.continues(next, progress, step),
            UpdatePhase::Done => true,
        }
    }

    /// How the operation goes on after a step of a replacement.
    pub open spec fn continues(self, next: Self, progress: Progress<K::Edge>, step: UpdateStep) -> bool {
        &&& next.new == self.new
        &&& match progress {
            Progress::Continue { collapse } => {
                &&& step is Pending
                &&& next.phase == (UpdatePhase::Retreat { collapse })
            },
            Progress::Success { old_node, word } => {
                &&& next.phase == (UpdatePhase::Walk { word })
                &&& match old_node {
                    Some(node) => step == (UpdateStep::Retire {
                        len: next.cursor.path.counted() as usize,
                        node,
                    }),
                    None => step is Pending,
                }
            },
            Progress::Traverse { word } | Progress::Conflict { word } => {
                &&& step is Pending
                &&& next.phase == (UpdatePhase::Walk { word })
            },
            Progress::Stuck => step == (UpdateStep::Retry { initial: self.new }),
        }
    }

    /// Accesses of other operations do not disturb the operation.
    pub proof fn law_undisturbed(self, before: Tree<K>, after: Tree<K>)
        requires
            before.wf(),
            after.wf(),
            evolves(before, after),
            self.wf(before),
        ensures
            self.wf(after),
    {
        let word = match self.phase {
            UpdatePhase::Walk { word } => word,
            UpdatePhase::Ask { word, .. } => word,
            UpdatePhase::Commit { word, .. } => word,
            _ => arbitrary(),
        };
        lemma_stable(before, after, self.cursor, self.start@, word);
        match self.phase {
            UpdatePhase::Ask { old, .. } => {
                lemma_seen(before, after, self.start@, self.cursor.goal@, Some(old));
            },
            UpdatePhase::Retreat { collapse } => {
                lemma_collapsing(before, after, self.cursor, collapse);
            },
            _ => {},
        }
    }

    /// What a step of the operation does.
    pub open spec fn steps(
        self,
        next: Self,
        before: Tree<K>,
        after: Tree<K>,
        step: UpdateStep,
    ) -> bool {
        &&& next.wf(after)
        &&& next.start == self.start
        &&& next.cursor.goal == self.cursor.goal
        &&& next.cursor.path is Full == self.cursor.path is Full
        &&& self.moves(next, before.memory(), after.memory(), step)
        &&& match step {
            UpdateStep::Pending | UpdateStep::Retire { .. } => {
                &&& quiet(before, after)
                &&& !(next.phase is Done)
            },
            UpdateStep::Ask { old: value, initial } => {
                &&& quiet(before, after)
                &&& next.phase is Ask
                &&& value == next.phase->Ask_old
                &&& initial == next.new
                &&& after.seen(self.start@, self.cursor.goal@, Some(value))
            },
            UpdateStep::Success { old: value, new } => {
                &&& self.phase is Commit
                &&& new == self.phase->Commit_new
                &&& next.phase is Done
                &&& Some(value) == lookup(before@, self.cursor.goal@)
                &&& changes(
                    before,
                    after,
                    before@.insert(self.cursor.goal@, new),
                )
            },
            UpdateStep::Absent { initial } => {
                &&& quiet(before, after)
                &&& next.phase is Done
                &&& initial == self.new
                &&& after.seen(self.start@, self.cursor.goal@, None)
            },
            UpdateStep::Break { .. } => false,
            UpdateStep::Retry { initial } => {
                &&& quiet(before, after)
                &&& next.phase is Done
                &&& initial == self.new
                &&& self.cursor.path !is Full
            },
        }
    }

    /// Start an operation.
    pub fn new(tree: &Tree<K>, reader: R, path: Path<R>, new: Option<u64>) -> (update: Self)
        requires
            tree.wf(),
            reader.valid(),
            K::is_key(reader.bytes()),
            path.segments().len() == 0,
            path.counted() == 0,
        ensures
            update.wf(*tree),
            update.phase is Load,
            update.cursor.goal@ == reader.bytes(),
            update.cursor.path == path,
            update.start@ == tree.history@.len() - 1,
            update.new == new,
    {
        let cursor = Cursor::new(reader, path);
        let ghost start = tree.history@.len() - 1;
        proof {
            assert(cursor.wf(tree.memory()));
            lemma_current(*tree, cursor, start);
        }
        Update { cursor, phase: UpdatePhase::Load, new, start: Ghost(start) }
    }

    /// Decide to store a value, or to break the operation off.
    pub fn answer(&mut self, tree: &Tree<K>, decision: Option<u64>) -> (step: UpdateStep)
        requires
            tree.wf(),
            old(self).wf(*tree),
            old(self).phase is Ask,
        ensures
            final(self).wf(*tree),
            final(self).start == old(self).start,
            final(self).cursor == old(self).cursor,
            match decision {
                Some(new) => {
                    &&& step is Pending
                    &&& final(self).phase == (UpdatePhase::Commit {
                        old: old(self).phase->Ask_old,
                        new,
                        word: old(self).phase->Ask_word,
                    })
                },
                None => {
                    &&& step == (UpdateStep::Break { old: old(self).phase->Ask_old })
                    &&& final(self).phase is Done
                },
            },
    {
        match self.phase {
            UpdatePhase::Ask { old, word } => match decision {
                None => {
                    self.phase = UpdatePhase::Done;
                    UpdateStep::Break { old }
                },
                Some(new) => {
                    self.phase = UpdatePhase::Commit { old, new, word };
                    UpdateStep::Pending
                },
            },
            _ => vstd::pervasive::unreached(),
        }
    }

    /// Look at a word on the way to the key.
    fn walk(&mut self, tree: &mut Tree<K>, word: Word<K::Edge>) -> (step: UpdateStep)
        requires
            old(tree).wf(),
            old(self).wf(*old(tree)),
            old(self).phase == (UpdatePhase::Walk { word }),
            old(tree).room(old(self).cursor.goal@.len() as int + 1),
        ensures
            old(self).steps(*final(self), *old(tree), *final(tree), step),
    {
        let ghost before = *tree;
        let ghost memory = tree.memory();
        let ghost start = self.start@;
        proof {
            memory.lemma_unchanged();
            assert(quiet(before, before));
        }
        let sight = inspect::<K, R>(Ghost(memory), &self.cursor, &word);
        proof {
            lemma_sight(memory, word.link(), self.cursor.reader.bytes(), sight);
        }
        match sight {
            Sight::Empty | Sight::Departs => {
                self.phase = UpdatePhase::Done;
                UpdateStep::Absent { initial: self.new }
            },
            Sight::Value { value } => {
                if word.frozen {
                    self.phase = UpdatePhase::Retreat { collapse: Collapse::pop() };
                    return UpdateStep::Pending;
                }
                self.phase = UpdatePhase::Ask { old: value, word };
                UpdateStep::Ask { old: value, initial: self.new }
            },
            Sight::Node { len, node, byte } => match tree.get(node, byte) {
                None => {
                    self.phase = UpdatePhase::Done;
                    UpdateStep::Absent { initial: self.new }
                },
                Some(slot) => {
                    follow(
                        tree,
                        &mut self.cursor,
                        self.start,
                        word,
                        len,
                        node,
                        byte,
                        slot,
                    );
                    self.phase = UpdatePhase::Load;
                    UpdateStep::Pending
                },
            },
        }
    }

    /// Change the word, if it is still the same.
    fn commit(
        &mut self,
        tree: &mut Tree<K>,
        value: u64,
        new: u64,
        word: Word<K::Edge>,
    ) -> (step: UpdateStep)
        requires
            old(tree).wf(),
            old(self).wf(*old(tree)),
            old(self).phase == (UpdatePhase::Commit { old: value, new, word }),
            old(tree).room(old(self).cursor.goal@.len() as int + 1),
        ensures
            old(self).steps(*final(self), *old(tree), *final(tree), step),
    {
        let ghost before = *tree;
        let ghost memory = tree.memory();
        let ghost start = self.start@;
        proof {
            memory.lemma_unchanged();
            assert(quiet(before, before));
        }
        let ghost path = memory.path(self.cursor.place);
        let ghost goal = self.cursor.goal@;
        let ghost key = self.cursor.reader.bytes();
        proof {
            assert(goal.take(path.len() as int) =~= path);
            assert(goal.skip(path.len() as int) =~= key);
        }
        match tree.compare_insert(
            self.cursor.place,
            word,
            self.cursor.reader,
            new,
            self.cursor.goal,
        ) {
            Ok(()) => {
                proof {
                    lemma_stable(before, *tree, self.cursor, start, word);
                    lemma_growable(memory, word.link(), key);
                }
                self.phase = UpdatePhase::Done;
                UpdateStep::Success { old: value, new }
            },
            Err(conflict) => {
                proof {
                    lemma_held(*tree, self.cursor, conflict);
                }
                self.new = Some(new);
                self.phase = UpdatePhase::Walk { word: conflict };
                UpdateStep::Pending
            },
        }
    }

    /// Replace a node on the path whose words are frozen.
    fn retreat(&mut self, tree: &mut Tree<K>, collapse: Collapse<K::Edge>) -> (step: UpdateStep)
        requires
            old(tree).wf(),
            old(self).wf(*old(tree)),
            old(self).phase == (UpdatePhase::Retreat { collapse }),
            old(tree).room(old(self).cursor.goal@.len() as int + 1),
        ensures
            old(self).steps(*final(self), *old(tree), *final(tree), step),
    {
        let ghost before = *tree;
        let ghost memory = tree.memory();
        let ghost start = self.start@;
        proof {
            memory.lemma_unchanged();
            assert(quiet(before, before));
        }
        let progress = collapse_step(tree, &mut self.cursor, collapse);
        match progress {
            Progress::Continue { collapse } => {
                self.phase = UpdatePhase::Retreat { collapse };
                UpdateStep::Pending
            },
            Progress::Success { old_node, word } => {
                proof {
                    lemma_current(*tree, self.cursor, start);
                }
                self.phase = UpdatePhase::Walk { word };
                match old_node {
                    Some(node) => UpdateStep::Retire {
                        len: self.cursor.path.len(),
                        node,
                    },
                    None => UpdateStep::Pending,
                }
            },
            Progress::Traverse { word } => {
                proof {
                    lemma_current(*tree, self.cursor, start);
                }
                self.phase = UpdatePhase::Walk { word };
                UpdateStep::Pending
            },
            Progress::Stuck => {
                self.phase = UpdatePhase::Done;
                UpdateStep::Retry { initial: self.new }
            },
            Progress::Conflict { .. } => vstd::pervasive::unreached(),
        }
    }

    /// Go on with the operation.
    ///
    /// The operation takes effect at the step that reports success. A caller
    /// is asked about a value that the key had at some time since the
    /// operation was started, and a key is reported to be absent that was
    /// absent at some time since then.
    pub fn step(&mut self, tree: &mut Tree<K>) -> (step: UpdateStep)
        requires
            old(tree).wf(),
            old(self).wf(*old(tree)),
            !(old(self).phase is Done),
            old(tree).room(old(self).cursor.goal@.len() as int + 1),
        ensures
            old(self).steps(*final(self), *old(tree), *final(tree), step),
    {
        let ghost before = *tree;
        let ghost memory = tree.memory();
        let ghost start = self.start@;
        proof {
            memory.lemma_unchanged();
            assert(quiet(before, before));
        }
        match self.phase {
            UpdatePhase::Load => {
                let word = tree.load(self.cursor.place);
                proof {
                    lemma_held(*tree, self.cursor, word);
                }
                self.phase = UpdatePhase::Walk { word };
                UpdateStep::Pending
            },
            UpdatePhase::Walk { word } => self.walk(tree, word),
            UpdatePhase::Ask { old, word: _ } => UpdateStep::Ask { old, initial: self.new },
            UpdatePhase::Commit { old, new, word } => self.commit(tree, old, new, word),
            UpdatePhase::Retreat { collapse } => self.retreat(tree, collapse),
            UpdatePhase::Done => vstd::pervasive::unreached(),
        }
    }
}

} // verus!
