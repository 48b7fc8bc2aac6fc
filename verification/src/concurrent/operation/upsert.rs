//! Operations that store a value.
use vstd::prelude::*;
use crate::bytes::lemma_common_len;
use crate::concurrent::cursor::{Cursor, Path};
use crate::concurrent::memory::change::growable;
use crate::concurrent::memory::Memory;
use crate::concurrent::operation::{descended, follow, lemma_growable, lemma_sight, opened, value_at};
use crate::concurrent::tree::{changes, evolves, lookup, quiet, Tree, Word};
use crate::concurrent::walk::{
    collapse_step, collapsed, collapsing, fresh_at, fresh_from, held, inspect, lemma_collapsing,
    lemma_current, lemma_held, lemma_seen, lemma_stable, Collapse, Progress, Sight, Stage,
};
use crate::raw::edge::Meta;
use crate::raw::key::{Key, Read};
use crate::raw::shape::descends;

verus! {

/// State of an operation that stores a value.
pub enum UpsertPhase<M> {
    /// Read the word at the cursor's place.
    Load,
    /// Look at a word that was read there.
    Walk { word: Word<M> },
    /// Wait for a decision.
    Ask { old: Option<u64>, word: Word<M> },
    /// Store the value.
    Commit { old: Option<u64>, new: u64, word: Word<M> },
    /// Replace the node behind the current word by a larger one.
    Replace { collapse: Collapse<M> },
    /// Replace a node on the path whose words are frozen.
    Retreat { collapse: Collapse<M> },
    /// Nothing is left to do.
    Done,
}

impl<M: Meta> Copy for UpsertPhase<M> {}

impl<M: Meta> Clone for UpsertPhase<M> {
    fn clone(&self) -> (phase: Self)
        ensures
            phase == *self,
    {
        *self
    }
}

/// Outcome of a step of an operation that stores a value.
#[derive(Copy, Clone, Debug, PartialEq, Eq, Structural)]
pub enum UpsertStep {
    /// The operation goes on.
    Pending,
    /// The operation goes on, and this node, which `len` bytes lead to the
    /// edge of, is to be retired.
    Retire { len: usize, node: usize },
    /// The caller is to decide, see [`Upsert::answer`].
    Ask { old: Option<u64>, initial: Option<u64> },
    /// The value was stored.
    Success { old: Option<u64>, new: u64 },
    /// The caller broke the operation off.
    Break { old: Option<u64> },
    /// The operation has to be started again with a path that is retained.
    Retry { initial: Option<u64> },
}

/// Operation that stores a value.
pub struct Upsert<K: Key, R> {
    pub cursor: Cursor<R>,
    pub phase: UpsertPhase<K::Edge>,
    /// The value that was last considered.
    pub new: Option<u64>,
    pub start: Ghost<int>,
}

impl<K: Key, R: Read<Edge = K::Edge>> Upsert<K, R> {
    /// The operation is in a state that it can go on from.
    pub open spec fn wf(self, tree: Tree<K>) -> bool {
        let memory = tree.memory();
        let key = self.cursor.reader.bytes();
        &&& self.cursor.wf(memory)
        &&& K::is_key(self.cursor.goal@)
        &&& 0 <= self.start@ < tree.history@.len()
        &&& !(self.phase is Retreat || self.phase is Done) ==> fresh_at(
            tree,
            self.cursor,
            self.start@,
        )
        &&& match self.phase {
            UpsertPhase::Load => true,
            UpsertPhase::Walk { word } => {
                &&& held::<K, R>(memory, self.cursor, word)
                &&& fresh_from(tree, self.cursor, self.start@, word.link())
            },
            UpsertPhase::Ask { old, word } => {
                &&& held::<K, R>(memory, self.cursor, word)
                &&& growable(word.link(), key)
                &&& old == value_at(word.link(), key)
                &&& tree.seen(self.start@, self.cursor.goal@, old)
            },
            UpsertPhase::Commit { old, word, .. } => {
                &&& held::<K, R>(memory, self.cursor, word)
                &&& growable(word.link(), key)
                &&& old == value_at(word.link(), key)
                &&& !word.frozen
            },
            UpsertPhase::Replace { collapse } => {
                &&& collapse.once
                &&& collapsing::<K, R>(memory, self.cursor, collapse)
            },
            UpsertPhase::Retreat { collapse } => {
                &&& !collapse.once
                &&& collapsing::<K, R>(memory, self.cursor, collapse)
            },
            UpsertPhase::Done => true,
        }
    }

    /// One step of the operation: what it does to the memory, and how the
    /// operation goes on.
    pub open spec fn moves(
        self,
        next: Self,
        before: Memory,
        after: Memory,
        step: UpsertStep,
    ) -> bool {
        let place = self.cursor.place;
        let key = self.cursor.reader.bytes();
        match self.phase {
            UpsertPhase::Load => {
                &&& after == before
                &&& step is Pending
                &&& next.cursor == self.cursor
                &&& next.new == self.new
                &&& next.phase matches UpsertPhase::Walk { word } && word.link() == before.at(place)
            },
            UpsertPhase::Walk { word } => if growable(word.link(), key) {
                let old = value_at(word.link(), key);
                &&& after == before
                &&& step == (UpsertStep::Ask { old, initial: self.new })
                &&& next.cursor == self.cursor
                &&& next.new == self.new
                &&& next.phase == (UpsertPhase::Ask { old, word })
            } else {
                let bytes = word.link().bytes;
                let node = word.target->Node_0;
                let byte = key[bytes.len() as int];
                &&& word.target is Node
                &&& descends(bytes, key)
                &&& after == opened(before, node as int, byte)
                &&& step is Pending
                &&& next.new == self.new
                &&& if after.blocks[node as int].keys.contains(byte) {
                    &&& next.phase is Load
                    &&& Some(next.cursor.place) == after.next(word.link(), key)
                    &&& descended(self.cursor, next.cursor, word.link(), next.cursor.place)
                } else {
                    &&& next.cursor == self.cursor
                    &&& if word.frozen {
                        next.phase matches UpsertPhase::Retreat { collapse }
                            && collapse.stage is Pop
                    } else {
                        next.phase == (UpsertPhase::Replace {
                            collapse: Collapse {
                                stage: Stage::Close,
                                len: bytes.len() as usize,
                                node,
                                word,
                                once: true,
                            },
                        })
                    }
                }
            },
            UpsertPhase::Ask { old, .. } => {
                &&& after == before
                &&& step == (UpsertStep::Ask { old, initial: self.new })
                &&& next == self
            },
            UpsertPhase::Commit { old, new, word } => {
                &&& next.cursor == self.cursor
                &&& if before.at(place) == word.link() {
                    &&& after == before.grow::<K>(place, key, new)
                    &&& step == (UpsertStep::Success { old, new })
                } else {
                    &&& after == before
                    &&& step is Pending
                    &&& next.new == Some(new)
                    &&& next.phase matches UpsertPhase::Walk { word: current } && current.link()
                        == before.at(place)
                }
            },
            UpsertPhase::Replace { collapse } => exists|progress: Progress<K::Edge>| #[trigger]
                collapsed::<K, R>(before, after, self.cursor, next.cursor, collapse, progress)
                    && self.continues(next, progress, step),
            UpsertPhase::Retreat { collapse } => exists|progress: Progress<K::Edge>| #[trigger]
                collapsed::<K, R>(before, after, self.cursor, next.cursor, collapse, progress)
                    && self.continues(next, progress, step),
            UpsertPhase::Done => true,
        }
    }

    /// How the operation goes on after a step of a replacement.
    pub open spec fn continues(self, next: Self, progress: Progress<K::Edge>, step: UpsertStep) -> bool {
        &&& next.new == self.new
        &&& match progress {
            Progress::Continue { collapse } => {
                &&& step is Pending
                &&& next.phase == (if self.phase is Replace {
                    UpsertPhase::Replace { collapse }
                } else {
                    UpsertPhase::Retreat { collapse }
                })
            },
            Progress::Success { old_node, word } => {
                &&& next.phase == (UpsertPhase::Walk { word })
                &&& match old_node {
                    Some(node) => step == (UpsertStep::Retire {
                        len: next.cursor.path.counted() as usize,
                        node,
                    }),
                    None => step is Pending,
                }
            },
            Progress::Traverse { word } | Progress::Conflict { word } => {
                &&& step is Pending
                &&& next.phase == (UpsertPhase::Walk { word })
            },
            Progress::Stuck => step == (UpsertStep::Retry { initial: self.new }),
        }
    }

    /// Accesses of other operations do not disturb the operation.
    pub proof fn law_undisturbed(self, before: Tree<K>, after: Tree<K>)
        requires
            before.wf(),
            after.wf(),
            evolves(before, after),
            self.wf(before),
        ensures
            self.wf(after),
    {
        let word = match self.phase {
            UpsertPhase::Walk { word } => word,
            UpsertPhase::Ask { word, .. } => word,
            UpsertPhase::Commit { word, .. } => word,
            _ => arbitrary(),
        };
        lemma_stable(before, after, self.cursor, self.start@, word);
        match self.phase {
            UpsertPhase::Ask { old, .. } => {
                lemma_seen(before, after, self.start@, self.cursor.goal@, old);
            },
            UpsertPhase::Replace { collapse } => {
                lemma_collapsing(before, after, self.cursor, collapse);
            },
            UpsertPhase::Retreat { collapse } => {
                lemma_collapsing(before, after, self.cursor, collapse);
            },
            _ => {},
        }
    }

    /// What a step of the operation does.
    pub open spec fn steps(
        self,
        next: Self,
        before: Tree<K>,
        after: Tree<K>,
        step: UpsertStep,
    ) -> bool {
        &&& next.wf(after)
        &&& next.start == self.start
        &&& next.cursor.goal == self.cursor.goal
        &&& next.cursor.path is Full == self.cursor.path is Full
        &&& self.moves(next, before.memory(), after.memory(), step)
        &&& match step {
            UpsertStep::Pending | UpsertStep::Retire { .. } => {
                &&& quiet(before, after)
                &&& !(next.phase is Done)
            },
            UpsertStep::Ask { old: value, initial } => {
                &&& quiet(before, after)
                &&& next.phase is Ask
                &&& value == next.phase->Ask_old
                &&& initial == next.new
                &&& after.seen(self.start@, self.cursor.goal@, value)
            },
            UpsertStep::Success { old: value, new } => {
                &&& self.phase is Commit
                &&& new == self.phase->Commit_new
                &&& next.phase is Done
                &&& value == lookup(before@, self.cursor.goal@)
                &&& changes(
                    before,
                    after,
                    before@.insert(self.cursor.goal@, new),
                )
            },
            UpsertStep::Break { .. } => false,
            UpsertStep::Retry { initial } => {
                &&& quiet(before, after)
                &&& next.phase is Done
                &&& initial == self.new
                &&& self.cursor.path !is Full
            },
        }
    }

    /// Start an operation.
    pub fn new(tree: &Tree<K>, reader: R, path: Path<R>, new: Option<u64>) -> (upsert: Self)
        requires
            tree.wf(),
            reader.valid(),
            K::is_key(reader.bytes()),
            path.segments().len() == 0,
            path.counted() == 0,
        ensures
            upsert.wf(*tree),
            upsert.phase is Load,
            upsert.cursor.goal@ == reader.bytes(),
            upsert.cursor.path == path,
            upsert.start@ == tree.history@.len() - 1,
            upsert.new == new,
    {
        let cursor = Cursor::new(reader, path);
        let ghost start = tree.history@.len() - 1;
        proof {
            assert(cursor.wf(tree.memory()));
            lemma_current(*tree, cursor, start);
        }
        Upsert { cursor, phase: UpsertPhase::Load, new, start: Ghost(start) }
    }

    /// Decide to store a value, or to break the operation off.
    pub fn answer(&mut self, tree: &Tree<K>, decision: Option<u64>) -> (step: UpsertStep)
        requires
            tree.wf(),
            old(self).wf(*tree),
            old(self).phase is Ask,
        ensures
            final(self).wf(*tree),
            final(self).start == old(self).start,
            final(self).cursor == old(self).cursor,
            match decision {
                Some(new) => {
                    &&& step is Pending
                    &&& if old(self).phase->Ask_word.frozen {
                        &&& final(self).new == Some(new)
                        &&& final(self).phase matches UpsertPhase::Retreat { collapse }
                            && collapse.stage is Pop
                    } else {
                        final(self).phase == (UpsertPhase::Commit {
                            old: old(self).phase->Ask_old,
                            new,
                            word: old(self).phase->Ask_word,
                        })
                    }
                },
                None => {
                    &&& step == (UpsertStep::Break { old: old(self).phase->Ask_old })
                    &&& final(self).phase is Done
                },
            },
    {
        match self.phase {
            UpsertPhase::Ask { old, word } => match decision {
                None => {
                    self.phase = UpsertPhase::Done;
                    UpsertStep::Break { old }
                },
                Some(new) => {
                    if word.frozen {
                        // The value is considered again after the frozen node
                        // was replaced.
                        self.new = Some(new);
                        self.phase = UpsertPhase::Retreat { collapse: Collapse::pop() };
                    } else {
                        self.phase = UpsertPhase::Commit { old, new, word };
                    }
                    UpsertStep::Pending
                },
            },
            _ => vstd::pervasive::unreached(),
        }
    }
}

impl<K: Key, R: Read<Edge = K::Edge>> Upsert<K, R> {
    /// Look at a word on the way to the key.
    fn walk(&mut self, tree: &mut Tree<K>, word: Word<K::Edge>) -> (step: UpsertStep)
        requires
            old(tree).wf(),
            old(self).wf(*old(tree)),
            old(self).phase == (UpsertPhase::Walk { word }),
            old(tree).room(old(self).cursor.goal@.len() as int + 1),
        ensures
            old(self).steps(*final(self), *old(tree), *final(tree), step),
    {
        let ghost before = *tree;
        let ghost memory = tree.memory();
        let ghost start = self.start@;
        proof {
            memory.lemma_unchanged();
            assert(quiet(before, before));
        }
        let sight = inspect::<K, R>(Ghost(memory), &self.cursor, &word);
        proof {
            lemma_sight(memory, word.link(), self.cursor.reader.bytes(), sight);
            lemma_common_len(word.link().bytes, self.cursor.reader.bytes());
            lemma_common_len(self.cursor.reader.bytes(), self.cursor.reader.bytes());
        }
        match sight {
            Sight::Empty | Sight::Departs => {
                self.phase = UpsertPhase::Ask { old: None, word };
                UpsertStep::Ask { old: None, initial: self.new }
            },
            Sight::Value { value } => {
                self.phase = UpsertPhase::Ask { old: Some(value), word };
                UpsertStep::Ask { old: Some(value), initial: self.new }
            },
            Sight::Node { len, node, byte } => {
                let slot = tree.get_or_insert(node, byte);
                proof {
                    lemma_stable(before, *tree, self.cursor, start, word);
                }
                match slot {
                    Some(slot) => {
                        follow(
                            tree,
                            &mut self.cursor,
                            self.start,
                            word,
                            len,
                            node,
                            byte,
                            slot,
                        );
                        self.phase = UpsertPhase::Load;
                    },
                    None => {
                        if word.frozen {
                            self.phase = UpsertPhase::Retreat {
                                collapse: Collapse::pop(),
                            };
                        } else {
                            self.phase = UpsertPhase::Replace {
                                collapse: Collapse {
                                    stage: Stage::Close,
                                    len,
                                    node,
                                    word,
                                    once: true,
                                },
                            };
                        }
                    },
                }
                UpsertStep::Pending
            },
        }
    }

    /// Change the word, if it is still the same.
    fn commit(
        &mut self,
        tree: &mut Tree<K>,
        value: Option<u64>,
        new: u64,
        word: Word<K::Edge>,
    ) -> (step: UpsertStep)
        requires
            old(tree).wf(),
            old(self).wf(*old(tree)),
            old(self).phase == (UpsertPhase::Commit { old: value, new, word }),
            old(tree).room(old(self).cursor.goal@.len() as int + 1),
        ensures
            old(self).steps(*final(self), *old(tree), *final(tree), step),
    {
        let ghost before = *tree;
        let ghost memory = tree.memory();
        let ghost start = self.start@;
        proof {
            memory.lemma_unchanged();
            assert(quiet(before, before));
        }
        let ghost path = memory.path(self.cursor.place);
        let ghost goal = self.cursor.goal@;
        let ghost key = self.cursor.reader.bytes();
        proof {
            assert(goal.take(path.len() as int) =~= path);
            assert(goal.skip(path.len() as int) =~= key);
        }
        match tree.compare_insert(
            self.cursor.place,
            word,
            self.cursor.reader,
            new,
            self.cursor.goal,
        ) {
            Ok(()) => {
                proof {
                    lemma_stable(before, *tree, self.cursor, start, word);
                    lemma_growable(memory, word.link(), key);
                }
                self.phase = UpsertPhase::Done;
                UpsertStep::Success { old: value, new }
            },
            Err(conflict) => {
                proof {
                    lemma_held(*tree, self.cursor, conflict);
                }
                self.new = Some(new);
                self.phase = UpsertPhase::Walk { word: conflict };
                UpsertStep::Pending
            },
        }
    }

    /// Replace the node behind the current word.
    fn replace(&mut self, tree: &mut Tree<K>, collapse: Collapse<K::Edge>) -> (step: UpsertStep)
        requires
            old(tree).wf(),
            old(self).wf(*old(tree)),
            old(self).phase == (UpsertPhase::Replace { collapse }),
            old(tree).room(old(self).cursor.goal@.len() as int + 1),
        ensures
            old(self).steps(*final(self), *old(tree), *final(tree), step),
    {
        let ghost before = *tree;
        let ghost memory = tree.memory();
        let ghost start = self.start@;
        proof {
            memory.lemma_unchanged();
            assert(quiet(before, before));
        }
        let progress = collapse_step(tree, &mut self.cursor, collapse);
        proof {
            lemma_stable(before, *tree, self.cursor, start, collapse.word);
        }
        match progress {
            Progress::Continue { collapse } => {
                self.phase = UpsertPhase::Replace { collapse };
                UpsertStep::Pending
            },
            Progress::Success { old_node, word } => {
                self.phase = UpsertPhase::Walk { word };
                match old_node {
                    Some(node) => UpsertStep::Retire {
                        len: self.cursor.path.len(),
                        node,
                    },
                    None => UpsertStep::Pending,
                }
            },
            Progress::Conflict { word } => {
                self.phase = UpsertPhase::Walk { word };
                UpsertStep::Pending
            },
            _ => vstd::pervasive::unreached(),
        }
    }

    /// Replace a node on the path whose words are frozen.
    fn retreat(&mut self, tree: &mut Tree<K>, collapse: Collapse<K::Edge>) -> (step: UpsertStep)
        requires
            old(tree).wf(),
            old(self).wf(*old(tree)),
            old(self).phase == (UpsertPhase::Retreat { collapse }),
            old(tree).room(old(self).cursor.goal@.len() as int + 1),
        ensures
            old(self).steps(*final(self), *old(tree), *final(tree), step),
    {
        let ghost before = *tree;
        let ghost memory = tree.memory();
        let ghost start = self.start@;
        proof {
            memory.lemma_unchanged();
            assert(quiet(before, before));
        }
        let progress = collapse_step(tree, &mut self.cursor, collapse);
        match progress {
            Progress::Continue { collapse } => {
                self.phase = UpsertPhase::Retreat { collapse };
                UpsertStep::Pending
            },
            Progress::Success { old_node, word } => {
                proof {
                    lemma_current(*tree, self.cursor, start);
                }
                self.phase = UpsertPhase::Walk { word };
                match old_node {
                    Some(node) => UpsertStep::Retire {
                        len: self.cursor.path.len(),
                        node,
                    },
                    None => UpsertStep::Pending,
                }
            },
            Progress::Traverse { word } => {
                proof {
                    lemma_current(*tree, self.cursor, start);
                }
                self.phase = UpsertPhase::Walk { word };
                UpsertStep::Pending
            },
            Progress::Stuck => {
                self.phase = UpsertPhase::Done;
                UpsertStep::Retry { initial: self.new }
            },
            Progress::Conflict { .. } => vstd::pervasive::unreached(),
        }
    }

    /// Go on with the operation.
    ///
    /// The operation takes effect at the step that reports success. A caller
    /// is asked about a value that the key had at some time since the
    /// operation was started.
    pub fn step(&mut self, tree: &mut Tree<K>) -> (step: UpsertStep)
        requires
            old(tree).wf(),
            old(self).wf(*old(tree)),
            !(old(self).phase is Done),
            old(tree).room(old(self).cursor.goal@.len() as int + 1),
        ensures
            old(self).steps(*final(self), *old(tree), *final(tree), step),
    {
        let ghost before = *tree;
        let ghost memory = tree.memory();
        let ghost start = self.start@;
        proof {
            memory.lemma_unchanged();
            assert(quiet(before, before));
        }
        match self.phase {
            UpsertPhase::Load => {
                let word = tree.load(self.cursor.place);
                proof {
                    lemma_held(*tree, self.cursor, word);
                }
                self.phase = UpsertPhase::Walk { word };
                UpsertStep::Pending
            },
            UpsertPhase::Walk { word } => self.walk(tree, word),
            UpsertPhase::Ask { old, word: _ } => UpsertStep::Ask { old, initial: self.new },
            UpsertPhase::Commit { old, new, word } => self.commit(tree, old, new, word),
            UpsertPhase::Replace { collapse } => self.replace(tree, collapse),
            UpsertPhase::Retreat { collapse } => self.retreat(tree, collapse),
            UpsertPhase::Done => vstd::pervasive::unreached(),
        }
    }
}

} // verus!
