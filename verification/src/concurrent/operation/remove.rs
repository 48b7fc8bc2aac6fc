//! Operations that remove a value.
use vstd::prelude::*;
use crate::bytes::lemma_common_len;
use crate::concurrent::cursor::{popped, trimmed, Cursor, Path};
use crate::concurrent::memory::{leads, null_link, Memory, Place, Target};
use crate::concurrent::operation::{descended, follow, lemma_sight, leads_to, value_at};
use crate::concurrent::tree::{changes, evolves, lookup, occupied, quiet, Tree, Word};
use crate::concurrent::walk::{
    collapse_step, collapsed, collapsing, fresh_at, fresh_from, held, inspect, lemma_collapsing,
    lemma_current, lemma_held, lemma_seen, lemma_stable, Collapse, Progress, Sight, Stage,
};
use crate::raw::edge::Meta;
use crate::raw::key::{Key, Read};
use crate::raw::shape::laws::lemma_descends;
use crate::raw::shape::descends;

verus! {

/// Outcome of a step down to the node that a cursor is to reach.
#[derive(Copy, Clone, Debug, PartialEq, Eq, Structural)]
pub enum Descent {
    /// The cursor went on to the next place.
    Next,
    /// The word leads to the goal, `len` bytes further.
    Found { len: usize },
    /// There is no node at the goal, which is `len` bytes away.
    Missing { len: usize },
}

/// One step down to the node whose path is the goal of the cursor.
pub fn traverse_node<K: Key, R: Read<Edge = K::Edge>>(
    tree: &Tree<K>,
    cursor: &mut Cursor<R>,
    word: Word<K::Edge>,
) -> (descent: Descent)
    requires
        tree.wf(),
        old(cursor).wf(tree.memory()),
        held::<K, R>(tree.memory(), *old(cursor), word),
    ensures
        final(cursor).wf(tree.memory()),
        final(cursor).goal == old(cursor).goal,
        final(cursor).path is Full == old(cursor).path is Full,
        match descent {
            Descent::Next => {
                &&& word.target is Node
                &&& descends(word.link().bytes, old(cursor).reader.bytes())
                &&& Some(final(cursor).place) == tree.memory().next(
                    word.link(),
                    old(cursor).reader.bytes(),
                )
                &&& descended(*old(cursor), *final(cursor), word.link(), final(cursor).place)
            },
            Descent::Found { len } => {
                &&& *final(cursor) == *old(cursor)
                &&& word.target is Node
                &&& word.link().bytes == old(cursor).reader.bytes()
                &&& len == old(cursor).reader.bytes().len()
            },
            Descent::Missing { len } => {
                &&& *final(cursor) == *old(cursor)
                &&& len == old(cursor).reader.bytes().len()
                &&& tree.memory().next(word.link(), old(cursor).reader.bytes()) is None
                &&& !(word.target is Node && word.link().bytes == old(cursor).reader.bytes())
            },
        },
{
    let ghost memory = tree.memory();
    let ghost key = cursor.reader.bytes();
    let ghost bytes = word.link().bytes;
    let total: usize = cursor.reader.len();
    let node: usize = match word.target {
        Target::Node(node) => node,
        _ => {
            return Descent::Missing { len: total };
        },
    };
    let len: usize = cursor.reader.match_prefix(&word.meta);
    proof {
        lemma_common_len(bytes, key);
        lemma_descends(bytes, key);
    }
    if len < word.meta.len() {
        proof {
            if bytes == key {
                lemma_common_len(key, key);
            }
        }
        return Descent::Missing { len: total };
    }
    match cursor.reader.get_byte(len) {
        None => {
            assert(bytes =~= key);
            Descent::Found { len }
        },
        Some(byte) => match tree.get(node, byte) {
            None => Descent::Missing { len: total },
            Some(slot) => {
                follow(tree, cursor, Ghost(0), word, len, node, byte, slot);
                Descent::Next
            },
        },
    }
}

/// State of an operation that removes a value.
pub enum RemovePhase<M> {
    /// Read the word at the cursor's place.
    Load,
    /// Look at a word that was read there.
    Walk { word: Word<M> },
    /// Wait for a decision.
    Ask { old: u64, word: Word<M> },
    /// Remove the value.
    Commit { old: u64, word: Word<M> },
    /// Replace a node on the path whose words are frozen.
    Retreat { collapse: Collapse<M> },
    /// The value is removed; go back to the previous place.
    Rise,
    /// Replace `node`, whose path is the goal of the cursor, and which was
    /// looked for from `from`.
    Shrink { collapse: Collapse<M>, node: usize, from: Place },
    /// Read the word at the cursor's place, on the way down to `node`.
    Sink { node: usize },
    /// Look at a word that was read there.
    Seek { node: usize, word: Word<M> },
    /// Nothing is left to do.
    Done,
}

impl<M: Meta> Copy for RemovePhase<M> {}

impl<M: Meta> Clone for RemovePhase<M> {
    fn clone(&self) -> (phase: Self)
        ensures
            phase == *self,
    {
        *self
    }
}

/// Outcome of a step of an operation that removes a value.
#[derive(Copy, Clone, Debug, PartialEq, Eq, Structural)]
pub enum RemoveStep {
    /// The operation goes on.
    Pending,
    /// The operation goes on, and this node, which `len` bytes lead to the
    /// edge of, is to be retired.
    Retire { len: usize, node: usize },
    /// The caller is to decide, see [`Remove::answer`].
    Ask { old: u64 },
    /// The value was removed.
    Success { old: u64 },
    /// Nodes without further use were replaced as well.
    Done,
    /// The caller broke the operation off.
    Break { old: u64 },
    /// There is no value.
    Absent,
    /// The operation has to be started again with a path that is retained.
    Retry,
}

/// Operation that removes a value.
pub struct Remove<K: Key, R> {
    pub cursor: Cursor<R>,
    pub phase: RemovePhase<K::Edge>,
    /// Whether nodes without further use are to be replaced.
    pub recursive: bool,
    pub key: Ghost<Seq<u8>>,
    pub start: Ghost<int>,
}

impl<M> RemovePhase<M> {
    /// The value is removed.
    pub open spec fn removed(self) -> bool {
        self is Rise || self is Shrink || self is Sink || self is Seek
    }
}

impl<K: Key, R: Read<Edge = K::Edge>> Remove<K, R> {
    /// The operation is in a state that it can go on from.
    pub open spec fn wf(self, tree: Tree<K>) -> bool {
        let memory = tree.memory();
        let key = self.cursor.reader.bytes();
        &&& self.cursor.wf(memory)
        &&& K::is_key(self.key@)
        &&& leads(self.cursor.goal@, self.key@)
        &&& 0 <= self.start@ < tree.history@.len()
        &&& self.recursive ==> self.cursor.path is Full
        &&& self.phase.removed() ==> self.recursive
        &&& !(self.phase.removed() || self.phase is Done) ==> self.cursor.goal == self.key
        &&& !(self.phase.removed() || self.phase is Retreat || self.phase is Done) ==> fresh_at(
            tree,
            self.cursor,
            self.start@,
        )
        &&& match self.phase {
            RemovePhase::Walk { word } => {
                &&& held::<K, R>(memory, self.cursor, word)
                &&& fresh_from(tree, self.cursor, self.start@, word.link())
            },
            RemovePhase::Ask { old, word } => {
                &&& held::<K, R>(memory, self.cursor, word)
                &&& leads_to(word.link(), key, old)
                &&& !word.frozen
                &&& tree.seen(self.start@, self.key@, Some(old))
            },
            RemovePhase::Commit { old, word } => {
                &&& held::<K, R>(memory, self.cursor, word)
                &&& leads_to(word.link(), key, old)
                &&& !word.frozen
            },
            RemovePhase::Retreat { collapse } => {
                &&& !collapse.once
                &&& collapsing::<K, R>(memory, self.cursor, collapse)
            },
            RemovePhase::Shrink { collapse, .. } => {
                &&& !collapse.once
                &&& collapsing::<K, R>(memory, self.cursor, collapse)
            },
            RemovePhase::Seek { word, .. } => held::<K, R>(memory, self.cursor, word),
            _ => true,
        }
    }

    /// One step of the operation: what it does to the memory, and how the
    /// operation goes on.
    pub open spec fn moves(
        self,
        next: Self,
        before: Memory,
        after: Memory,
        step: RemoveStep,
    ) -> bool {
        let place = self.cursor.place;
        let key = self.cursor.reader.bytes();
        match self.phase {
            RemovePhase::Load => {
                &&& after == before
                &&& step is Pending
                &&& next.cursor == self.cursor
                &&& next.phase matches RemovePhase::Walk { word } && word.link() == before.at(place)
            },
            RemovePhase::Walk { word } => {
                &&& after == before
                &&& match before.next(word.link(), key) {
                    Some(slot) => {
                        &&& step is Pending
                        &&& next.phase is Load
                        &&& descended(self.cursor, next.cursor, word.link(), slot)
                    },
                    None => {
                        &&& next.cursor == self.cursor
                        &&& match value_at(word.link(), key) {
                            None => step is Absent,
                            Some(old) => if word.frozen {
                                &&& step is Pending
                                &&& next.phase matches RemovePhase::Retreat { collapse }
                                    && collapse.stage is Pop
                            } else {
                                &&& step == (RemoveStep::Ask { old })
                                &&& next.phase == (RemovePhase::Ask { old, word })
                            },
                        }
                    },
                }
            },
            RemovePhase::Ask { old, .. } => {
                &&& after == before
                &&& step == (RemoveStep::Ask { old })
                &&& next == self
            },
            RemovePhase::Commit { old, word } => {
                &&& next.cursor == self.cursor
                &&& if before.at(place) == word.link() {
                    &&& after == before.write(place, null_link(), Seq::empty())
                    &&& step == (RemoveStep::Success { old })
                    &&& self.recursive ==> next.phase is Rise
                } else {
                    &&& after == before
                    &&& step is Pending
                    &&& next.phase matches RemovePhase::Walk { word: current } && current.link()
                        == before.at(place)
                }
            },
            RemovePhase::Rise => {
                &&& after == before
                &&& if self.cursor.path.segments().len() == 0 {
                    step is Done
                } else {
                    let segment = self.cursor.path.segments().last();
                    let block = before.blocks[segment.node as int];
                    &&& next.cursor.place == segment.place
                    &&& if occupied(block, block.links.len() as int) > 1 {
                        step is Done
                    } else {
                        &&& step is Pending
                        &&& exists|cursor: Cursor<R>| #[trigger]
                            popped(self.cursor, cursor) && trimmed(
                                cursor,
                                next.cursor,
                                key.len() as int + 1,
                            )
                        &&& next.phase matches RemovePhase::Shrink { collapse, node, from } && {
                            &&& node == segment.node
                            &&& from == segment.place
                            &&& collapse.stage is Read
                            &&& collapse.len == segment.len
                            &&& collapse.node == segment.node
                        }
                    }
                }
            },
            RemovePhase::Retreat { collapse } => exists|progress: Progress<K::Edge>| #[trigger]
                collapsed::<K, R>(before, after, self.cursor, next.cursor, collapse, progress)
                    && self.continues(next, progress, step),
            RemovePhase::Shrink { collapse, .. } => exists|progress: Progress<K::Edge>| #[trigger]
                collapsed::<K, R>(before, after, self.cursor, next.cursor, collapse, progress)
                    && self.continues(next, progress, step),
            RemovePhase::Sink { node } => {
                &&& after == before
                &&& step is Pending
                &&& next.cursor == self.cursor
                &&& next.phase matches RemovePhase::Seek { node: goal, word } && {
                    &&& goal == node
                    &&& word.link() == before.at(place)
                }
            },
            RemovePhase::Seek { node, word } => {
                &&& after == before
                &&& step is Pending
                &&& if word.target is Node && word.link().bytes == key {
                    &&& next.cursor == self.cursor
                    &&& next.phase == (RemovePhase::Shrink {
                        collapse: Collapse {
                            stage: Stage::Read,
                            len: key.len() as usize,
                            node,
                            word,
                            once: false,
                        },
                        node,
                        from: place,
                    })
                } else {
                    match before.next(word.link(), key) {
                        Some(slot) => {
                            &&& next.phase matches RemovePhase::Sink { node: goal } && goal == node
                            &&& descended(self.cursor, next.cursor, word.link(), slot)
                        },
                        None => {
                            &&& next.phase is Rise
                            &&& next.cursor == self.cursor
                        },
                    }
                }
            },
            RemovePhase::Done => true,
        }
    }

    /// How the operation goes on after a step of a replacement.
    ///
    /// Once the value is removed, a replacement that had to go back is
    /// followed by a walk down to the node again; otherwise the node itself
    /// was replaced.
    pub open spec fn continues(self, next: Self, progress: Progress<K::Edge>, step: RemoveStep) -> bool {
        match progress {
            Progress::Continue { collapse } => {
                &&& step is Pending
                &&& next.phase == (match self.phase {
                    RemovePhase::Shrink { node, from, .. } => RemovePhase::Shrink {
                        collapse,
                        node,
                        from,
                    },
                    _ => RemovePhase::Retreat { collapse },
                })
            },
            Progress::Success { old_node, word } => {
                &&& next.phase == (match self.phase {
                    RemovePhase::Shrink { node, from, .. } => if next.cursor.place == from {
                        RemovePhase::Rise
                    } else {
                        RemovePhase::Seek { node, word }
                    },
                    _ => RemovePhase::Walk { word },
                })
                &&& match old_node {
                    Some(node) => step == (RemoveStep::Retire {
                        len: next.cursor.path.counted() as usize,
                        node,
                    }),
                    None => step is Pending,
                }
            },
            Progress::Traverse { word } | Progress::Conflict { word } => {
                &&& step is Pending
                &&& next.phase == (match self.phase {
                    RemovePhase::Shrink { node, .. } => RemovePhase::Seek { node, word },
                    _ => RemovePhase::Walk { word },
                })
            },
            Progress::Stuck => step is Retry,
        }
    }

    /// Accesses of other operations do not disturb the operation.
    pub proof fn law_undisturbed(self, before: Tree<K>, after: Tree<K>)
        requires
            before.wf(),
            after.wf(),
            evolves(before, after),
            self.wf(before),
        ensures
            self.wf(after),
    {
        let word = match self.phase {
            RemovePhase::Walk { word } => word,
            RemovePhase::Ask { word, .. } => word,
            RemovePhase::Commit { word, .. } => word,
            RemovePhase::Seek { word, .. } => word,
            _ => arbitrary(),
        };
        lemma_stable(before, after, self.cursor, self.start@, word);
        match self.phase {
            RemovePhase::Ask { old, .. } => {
                lemma_seen(before, after, self.start@, self.key@, Some(old));
            },
            RemovePhase::Retreat { collapse } => {
                lemma_collapsing(before, after, self.cursor, collapse);
            },
            RemovePhase::Shrink { collapse, .. } => {
                lemma_collapsing(before, after, self.cursor, collapse);
            },
            _ => {},
        }
    }

    /// What a step of the operation does.
    pub open spec fn steps(
        self,
        next: Self,
        before: Tree<K>,
        after: Tree<K>,
        step: RemoveStep,
    ) -> bool {
        &&& next.wf(after)
        &&& next.start == self.start
        &&& next.key == self.key
        &&& next.recursive == self.recursive
        &&& next.cursor.path is Full == self.cursor.path is Full
        &&& !(self.phase is Rise) ==> next.cursor.goal == self.cursor.goal
        &&& self.moves(next, before.memory(), after.memory(), step)
        &&& match step {
            RemoveStep::Pending | RemoveStep::Retire { .. } => {
                &&& quiet(before, after)
                &&& !(next.phase is Done)
                &&& next.phase.removed() == self.phase.removed()
            },
            RemoveStep::Ask { old: value } => {
                &&& quiet(before, after)
                &&& next.phase is Ask
                &&& value == next.phase->Ask_old
                &&& after.seen(self.start@, self.key@, Some(value))
            },
            RemoveStep::Success { old: value } => {
                &&& self.phase is Commit
                &&& if self.recursive {
                    next.phase.removed()
                } else {
                    next.phase is Done
                }
                &&& Some(value) == lookup(before@, self.key@)
                &&& changes(before, after, before@.remove(self.key@))
            },
            RemoveStep::Done => {
                &&& quiet(before, after)
                &&& self.phase.removed()
                &&& next.phase is Done
            },
            RemoveStep::Absent => {
                &&& quiet(before, after)
                &&& next.phase is Done
                &&& after.seen(self.start@, self.key@, None)
            },
            RemoveStep::Break { .. } => false,
            RemoveStep::Retry => {
                &&& quiet(before, after)
                &&& next.phase is Done
                &&& self.cursor.path !is Full
            },
        }
    }

    /// Start an operation.
    pub fn new(tree: &Tree<K>, reader: R, path: Path<R>, recursive: bool) -> (remove: Self)
        requires
            tree.wf(),
            reader.valid(),
            K::is_key(reader.bytes()),
            path.segments().len() == 0,
            path.counted() == 0,
            recursive ==> path is Full,
        ensures
            remove.wf(*tree),
            remove.phase is Load,
            remove.key@ == reader.bytes(),
            remove.cursor.path == path,
            remove.start@ == tree.history@.len() - 1,
            remove.recursive == recursive,
    {
        let cursor = Cursor::new(reader, path);
        let ghost start = tree.history@.len() - 1;
        proof {
            assert(cursor.wf(tree.memory()));
            lemma_current(*tree, cursor, start);
        }
        let key: Ghost<Seq<u8>> = cursor.goal;
        assert(key@.take(key@.len() as int) =~= key@);
        Remove { cursor, phase: RemovePhase::Load, recursive, key, start: Ghost(start) }
    }

    /// Decide to remove the value, or to break the operation off.
    pub fn answer(&mut self, tree: &Tree<K>, remove: bool) -> (step: RemoveStep)
        requires
            tree.wf(),
            old(self).wf(*tree),
            old(self).phase is Ask,
        ensures
            final(self).wf(*tree),
            final(self).start == old(self).start,
            final(self).key == old(self).key,
            final(self).cursor == old(self).cursor,
            final(self).recursive == old(self).recursive,
            if remove {
                &&& step is Pending
                &&& final(self).phase == (RemovePhase::Commit {
                    old: old(self).phase->Ask_old,
                    word: old(self).phase->Ask_word,
                })
            } else {
                &&& step == (RemoveStep::Break { old: old(self).phase->Ask_old })
                &&& final(self).phase is Done
            },
    {
        match self.phase {
            RemovePhase::Ask { old, word } => {
                if remove {
                    self.phase = RemovePhase::Commit { old, word };
                    RemoveStep::Pending
                } else {
                    self.phase = RemovePhase::Done;
                    RemoveStep::Break { old }
                }
            },
            _ => vstd::pervasive::unreached(),
        }
    }

    /// Look at a word on the way to the key.
    fn walk(&mut self, tree: &mut Tree<K>, word: Word<K::Edge>) -> (step: RemoveStep)
        requires
            old(tree).wf(),
            old(self).wf(*old(tree)),
            old(self).phase == (RemovePhase::Walk { word }),
            old(tree).room(1),
        ensures
            old(self).steps(*final(self), *old(tree), *final(tree), step),
    {
        let ghost before = *tree;
        let ghost memory = tree.memory();
        let ghost start = self.start@;
        proof {
            memory.lemma_unchanged();
            assert(quiet(before, before));
        }
        let sight = inspect::<K, R>(Ghost(memory), &self.cursor, &word);
        proof {
            lemma_sight(memory, word.link(), self.cursor.reader.bytes(), sight);
        }
        match sight {
            Sight::Empty | Sight::Departs => {
                self.phase = RemovePhase::Done;
                RemoveStep::Absent
            },
            Sight::Value { value } => {
                if word.frozen {
                    self.phase = RemovePhase::Retreat { collapse: Collapse::pop() };
                    return RemoveStep::Pending;
                }
                self.phase = RemovePhase::Ask { old: value, word };
                RemoveStep::Ask { old: value }
            },
            Sight::Node { len, node, byte } => match tree.get(node, byte) {
                None => {
                    self.phase = RemovePhase::Done;
                    RemoveStep::Absent
                },
                Some(slot) => {
                    follow(
                        tree,
                        &mut self.cursor,
                        self.start,
                        word,
                        len,
                        node,
                        byte,
                        slot,
                    );
                    self.phase = RemovePhase::Load;
                    RemoveStep::Pending
                },
            },
        }
    }

    /// Change the word, if it is still the same.
    fn commit(&mut self, tree: &mut Tree<K>, value: u64, word: Word<K::Edge>) -> (step: RemoveStep)
        requires
            old(tree).wf(),
            old(self).wf(*old(tree)),
            old(self).phase == (RemovePhase::Commit { old: value, word }),
            old(tree).room(1),
        ensures
            old(self).steps(*final(self), *old(tree), *final(tree), step),
    {
        let ghost before = *tree;
        let ghost memory = tree.memory();
        let ghost start = self.start@;
        proof {
            memory.lemma_unchanged();
            assert(quiet(before, before));
        }
        match tree.compare_clear(self.cursor.place, word, self.cursor.goal) {
            Ok(()) => {
                proof {
                    lemma_stable(before, *tree, self.cursor, start, word);
                }
                self.phase = if self.recursive {
                    RemovePhase::Rise
                } else {
                    RemovePhase::Done
                };
                RemoveStep::Success { old: value }
            },
            Err(conflict) => {
                proof {
                    lemma_held(*tree, self.cursor, conflict);
                }
                self.phase = RemovePhase::Walk { word: conflict };
                RemoveStep::Pending
            },
        }
    }

    /// Replace a node on the path whose words are frozen.
    fn retreat(&mut self, tree: &mut Tree<K>, collapse: Collapse<K::Edge>) -> (step: RemoveStep)
        requires
            old(tree).wf(),
            old(self).wf(*old(tree)),
            old(self).phase == (RemovePhase::Retreat { collapse }),
            old(tree).room(1),
        ensures
            old(self).steps(*final(self), *old(tree), *final(tree), step),
    {
        let ghost before = *tree;
        let ghost memory = tree.memory();
        let ghost start = self.start@;
        proof {
            memory.lemma_unchanged();
            assert(quiet(before, before));
        }
        let progress = collapse_step(tree, &mut self.cursor, collapse);
        match progress {
            Progress::Continue { collapse } => {
                self.phase = RemovePhase::Retreat { collapse };
                RemoveStep::Pending
            },
            Progress::Success { old_node, word } => {
                proof {
                    lemma_current(*tree, self.cursor, start);
                }
                self.phase = RemovePhase::Walk { word };
                match old_node {
                    Some(node) => RemoveStep::Retire {
                        len: self.cursor.path.len(),
                        node,
                    },
                    None => RemoveStep::Pending,
                }
            },
            Progress::Traverse { word } => {
                proof {
                    lemma_current(*tree, self.cursor, start);
                }
                self.phase = RemovePhase::Walk { word };
                RemoveStep::Pending
            },
            Progress::Stuck => {
                self.phase = RemovePhase::Done;
                RemoveStep::Retry
            },
            Progress::Conflict { .. } => vstd::pervasive::unreached(),
        }
    }

    /// Go back to the previous place, whose node may have no further use.
    fn rise(&mut self, tree: &mut Tree<K>) -> (step: RemoveStep)
        requires
            old(tree).wf(),
            old(self).wf(*old(tree)),
            old(self).phase is Rise,
            old(tree).room(1),
        ensures
            old(self).steps(*final(self), *old(tree), *final(tree), step),
    {
        let ghost before = *tree;
        let ghost memory = tree.memory();
        let ghost start = self.start@;
        proof {
            memory.lemma_unchanged();
            assert(quiet(before, before));
        }
        let ghost from = self.cursor;
        let trim: usize = self.cursor.reader.len();
        match self.cursor.pop(Ghost(memory)) {
            Err(_) => vstd::pervasive::unreached(),
            Ok(None) => {
                self.phase = RemovePhase::Done;
                RemoveStep::Done
            },
            Ok(Some((len, node))) => {
                if tree.children(node) > 1 {
                    self.phase = RemovePhase::Done;
                    return RemoveStep::Done;
                }
                let ghost cursor = self.cursor;
                proof {
                    self.cursor.reader.lemma_len();
                }
                self.cursor.trim(tree, trim + 1);
                assert(popped(from, cursor));
                proof {
                    let goal = self.cursor.goal@;
                    assert(self.key@.take(goal.len() as int) =~= self.key@.take(
                        from.goal@.len() as int,
                    ).take(goal.len() as int));
                }
                self.phase = RemovePhase::Shrink {
                    collapse: Collapse {
                        stage: Stage::Read,
                        len,
                        node,
                        word: Word::null(),
                        once: false,
                    },
                    node,
                    from: self.cursor.place,
                };
                RemoveStep::Pending
            },
        }
    }

    /// Replace a node that may have no further use.
    fn shrink(
        &mut self,
        tree: &mut Tree<K>,
        collapse: Collapse<K::Edge>,
        goal: usize,
        from: Place,
    ) -> (step: RemoveStep)
        requires
            old(tree).wf(),
            old(self).wf(*old(tree)),
            old(self).phase == (RemovePhase::Shrink { collapse, node: goal, from }),
            old(tree).room(1),
        ensures
            old(self).steps(*final(self), *old(tree), *final(tree), step),
    {
        let ghost before = *tree;
        let ghost memory = tree.memory();
        let ghost start = self.start@;
        proof {
            memory.lemma_unchanged();
            assert(quiet(before, before));
        }
        let progress = collapse_step(tree, &mut self.cursor, collapse);
        match progress {
            Progress::Continue { collapse } => {
                self.phase = RemovePhase::Shrink { collapse, node: goal, from };
                RemoveStep::Pending
            },
            Progress::Success { old_node, word } => {
                // Without a pop, the node itself was replaced, by this
                // operation or by another one.
                self.phase = if self.cursor.place == from {
                    RemovePhase::Rise
                } else {
                    RemovePhase::Seek { node: goal, word }
                };
                match old_node {
                    Some(node) => RemoveStep::Retire {
                        len: self.cursor.path.len(),
                        node,
                    },
                    None => RemoveStep::Pending,
                }
            },
            Progress::Traverse { word } => {
                self.phase = RemovePhase::Seek { node: goal, word };
                RemoveStep::Pending
            },
            _ => vstd::pervasive::unreached(),
        }
    }

    /// Look at a word on the way to a node.
    fn seek(&mut self, tree: &mut Tree<K>, node: usize, word: Word<K::Edge>) -> (step: RemoveStep)
        requires
            old(tree).wf(),
            old(self).wf(*old(tree)),
            old(self).phase == (RemovePhase::Seek { node, word }),
            old(tree).room(1),
        ensures
            old(self).steps(*final(self), *old(tree), *final(tree), step),
    {
        let ghost before = *tree;
        let ghost memory = tree.memory();
        let ghost start = self.start@;
        proof {
            memory.lemma_unchanged();
            assert(quiet(before, before));
        }
        match traverse_node(tree, &mut self.cursor, word) {
            Descent::Next => {
                self.phase = RemovePhase::Sink { node };
            },
            Descent::Found { len } => {
                self.phase = RemovePhase::Shrink {
                    collapse: Collapse {
                        stage: Stage::Read,
                        len,
                        node,
                        word,
                        once: false,
                    },
                    node,
                    from: self.cursor.place,
                };
            },
            Descent::Missing { .. } => {
                // Go on with the closest node on the path.
                self.phase = RemovePhase::Rise;
            },
        }
        RemoveStep::Pending
    }

    /// Go on with the operation.
    ///
    /// The operation takes effect at the step that reports success; what
    /// follows does not change what the tree maps keys to. A caller is asked
    /// about a value that the key had at some time since the operation was
    /// started, and a key is reported to be absent that was absent at some
    /// time since then.
    pub fn step(&mut self, tree: &mut Tree<K>) -> (step: RemoveStep)
        requires
            old(tree).wf(),
            old(self).wf(*old(tree)),
            !(old(self).phase is Done),
            old(tree).room(1),
        ensures
            old(self).steps(*final(self), *old(tree), *final(tree), step),
    {
        let ghost before = *tree;
        let ghost memory = tree.memory();
        let ghost start = self.start@;
        proof {
            memory.lemma_unchanged();
            assert(quiet(before, before));
        }
        match self.phase {
            RemovePhase::Load => {
                let word = tree.load(self.cursor.place);
                proof {
                    lemma_held(*tree, self.cursor, word);
                }
                self.phase = RemovePhase::Walk { word };
                RemoveStep::Pending
            },
            RemovePhase::Walk { word } => self.walk(tree, word),
            RemovePhase::Ask { old, word: _ } => RemoveStep::Ask { old },
            RemovePhase::Commit { old, word } => self.commit(tree, old, word),
            RemovePhase::Retreat { collapse } => self.retreat(tree, collapse),
            RemovePhase::Rise => self.rise(tree),
            RemovePhase::Shrink { collapse, node: goal, from } => self.shrink(tree, collapse, goal, from),
            RemovePhase::Sink { node } => {
                let word = tree.load(self.cursor.place);
                proof {
                    lemma_held(*tree, self.cursor, word);
                }
                self.phase = RemovePhase::Seek { node, word };
                RemoveStep::Pending
            },
            RemovePhase::Seek { node, word } => self.seek(tree, node, word),
            RemovePhase::Done => vstd::pervasive::unreached(),
        }
    }
}

} // verus!
