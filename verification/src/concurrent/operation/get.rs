//! Lookups.
use vstd::prelude::*;
use crate::concurrent::cursor::{Cursor, Path};
use crate::concurrent::memory::Memory;
use crate::concurrent::operation::{descended, follow, lemma_sight, value_at};
use crate::concurrent::tree::{evolves, Tree, Word};
use crate::concurrent::walk::{
    fresh_at, fresh_from, held, inspect, lemma_current, lemma_held, lemma_stable, Sight,
};
use crate::raw::key::{Key, Read};
use crate::raw::shape::laws::lemma_descends;

verus! {

/// Outcome of a step of a lookup.
#[derive(Copy, Clone, Debug, PartialEq, Eq, Structural)]
pub enum GetStep {
    /// The lookup goes on.
    Pending,
    /// The value of the key.
    Ready { value: Option<u64> },
}

/// Lookup of a key.
pub struct Get<K: Key, R> {
    pub cursor: Cursor<R>,
    /// Word that was read at the cursor's place.
    pub word: Option<Word<K::Edge>>,
    pub start: Ghost<int>,
}

impl<K: Key, R: Read<Edge = K::Edge>> Get<K, R> {
    /// The lookup is in a state that it can go on from.
    pub open spec fn wf(self, tree: Tree<K>) -> bool {
        &&& self.cursor.wf(tree.memory())
        &&& K::is_key(self.cursor.goal@)
        &&& 0 <= self.start@ < tree.history@.len()
        &&& match self.word {
            None => fresh_at(tree, self.cursor, self.start@),
            Some(word) => {
                &&& held::<K, R>(tree.memory(), self.cursor, word)
                &&& fresh_from(tree, self.cursor, self.start@, word.link())
            },
        }
    }

    /// One step of a lookup, which changes no memory.
    pub open spec fn moves(self, next: Self, memory: Memory, step: GetStep) -> bool {
        let key = self.cursor.reader.bytes();
        match self.word {
            None => {
                &&& step is Pending
                &&& next.cursor == self.cursor
                &&& next.word matches Some(word) && word.link() == memory.at(self.cursor.place)
            },
            Some(word) => match memory.next(word.link(), key) {
                Some(place) => {
                    &&& step is Pending
                    &&& next.word is None
                    &&& descended(self.cursor, next.cursor, word.link(), place)
                },
                None => step == (GetStep::Ready { value: value_at(word.link(), key) }),
            },
        }
    }

    /// Bound on the number of steps that a lookup still takes.
    pub open spec fn distance(self) -> nat {
        2 * self.cursor.reader.bytes().len() + if self.word is None {
            2nat
        } else {
            1nat
        }
    }

    /// A lookup ends after a number of steps that its key bounds, whatever
    /// other operations do in between.
    pub proof fn law_ends(self, next: Self, memory: Memory, step: GetStep)
        requires
            self.moves(next, memory, step),
            step is Pending,
        ensures
            next.distance() < self.distance(),
    {
        if let Some(word) = self.word {
            lemma_descends(
                word.link().bytes,
                self.cursor.reader.bytes(),
            );
        }
    }

    /// Accesses of other operations do not disturb a lookup.
    pub proof fn law_undisturbed(self, before: Tree<K>, after: Tree<K>)
        requires
            before.wf(),
            after.wf(),
            evolves(before, after),
            self.wf(before),
        ensures
            self.wf(after),
    {
        let word = match self.word {
            Some(word) => word,
            None => arbitrary(),
        };
        lemma_stable(before, after, self.cursor, self.start@, word);
    }

    /// Start a lookup.
    pub fn new(tree: &Tree<K>, reader: R) -> (get: Self)
        requires
            tree.wf(),
            reader.valid(),
            K::is_key(reader.bytes()),
        ensures
            get.wf(*tree),
            get.cursor.goal@ == reader.bytes(),
            get.start@ == tree.history@.len() - 1,
    {
        let cursor = Cursor::new(reader, Path::Discard);
        let ghost start = tree.history@.len() - 1;
        proof {
            assert(cursor.wf(tree.memory()));
            lemma_current(*tree, cursor, start);
        }
        Get { cursor, word: None, start: Ghost(start) }
    }

    /// Go on with the lookup.
    ///
    /// The value is one that the key had at some time since the lookup was
    /// started.
    pub fn step(&mut self, tree: &Tree<K>) -> (step: GetStep)
        requires
            tree.wf(),
            old(self).wf(*tree),
        ensures
            final(self).start == old(self).start,
            final(self).cursor.goal == old(self).cursor.goal,
            old(self).moves(*final(self), tree.memory(), step),
            step is Pending ==> final(self).wf(*tree),
            step matches GetStep::Ready { value } ==> tree.seen(
                old(self).start@,
                old(self).cursor.goal@,
                value,
            ),
    {
        let ghost memory = tree.memory();
        match self.word {
            None => {
                let word = tree.load(self.cursor.place);
                proof {
                    lemma_held(*tree, self.cursor, word);
                }
                self.word = Some(word);
                GetStep::Pending
            },
            Some(word) => {
                let sight = inspect::<K, R>(Ghost(memory), &self.cursor, &word);
                proof {
                    lemma_sight(memory, word.link(), self.cursor.reader.bytes(), sight);
                }
                match sight {
                    Sight::Empty | Sight::Departs => GetStep::Ready { value: None },
                    Sight::Value { value } => GetStep::Ready { value: Some(value) },
                    Sight::Node { len, node, byte } => match tree.get(node, byte) {
                        None => GetStep::Ready { value: None },
                        Some(slot) => {
                            follow(
                                tree,
                                &mut self.cursor,
                                self.start,
                                word,
                                len,
                                node,
                                byte,
                                slot,
                            );
                            self.word = None;
                            GetStep::Pending
                        },
                    },
                }
            },
        }
    }
}

} // verus!
