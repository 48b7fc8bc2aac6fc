//! Tree traversal state of an operation on shared memory.
use vstd::prelude::*;
use crate::concurrent::memory::{grows, Memory, Place};
use crate::concurrent::tree::Tree;
use crate::raw::key::{Key, Read};

verus! {

/// One step of a path along the tree.
pub struct Segment<R> {
    /// Key before matching on the word at `place`.
    pub reader: R,
    /// Where the word to match is stored.
    pub place: Place,
    /// Number of bytes matched along the word.
    pub len: usize,
    /// Node underneath the word.
    pub node: usize,
}

/// What is kept of the path that a cursor has taken.
pub enum Path<R> {
    /// Discard all path information.
    Discard,
    /// Retain only length information.
    Len { len: usize },
    /// Retain the full path.
    Full { len: usize, segments: Vec<Segment<R>> },
}

/// The path was not retained.
#[derive(Copy, Clone, Debug, PartialEq, Eq, Structural)]
pub struct PopError;

/// Tree traversal state.
pub struct Cursor<R> {
    /// Bytes that are left between the current place and the goal.
    pub reader: R,
    /// Where the word that this cursor points to is stored.
    pub place: Place,
    /// Path that this cursor has taken.
    pub path: Path<R>,
    /// Bytes from the root to the goal.
    pub goal: Ghost<Seq<u8>>,
}

impl<R: Read> Segment<R> {
    /// The segment lies on the way to `goal`.
    pub open spec fn wf(self, memory: Memory, goal: Seq<u8>) -> bool {
        &&& self.reader.valid()
        &&& memory.valid(self.place)
        &&& memory.path(self.place) + self.reader.bytes() == goal
        &&& self.node < memory.blocks.len()
        &&& self.len < self.reader.bytes().len()
        &&& memory.blocks[self.node as int].path == memory.path(self.place)
            + self.reader.bytes().take(self.len as int)
    }
}

impl<R: Read> Path<R> {
    /// The retained segments.
    pub open spec fn segments(self) -> Seq<Segment<R>> {
        match self {
            Path::Full { segments, .. } => segments@,
            _ => Seq::empty(),
        }
    }

    /// Number of bytes that the path counts.
    pub open spec fn counted(self) -> nat {
        match self {
            Path::Discard => 0,
            Path::Len { len } => len as nat,
            Path::Full { len, .. } => len as nat,
        }
    }

    /// Number of bytes that the path counts.
    pub fn len(&self) -> (len: usize)
        ensures
            len == self.counted(),
    {
        match self {
            Path::Discard => 0,
            Path::Len { len } => *len,
            Path::Full { len, .. } => *len,
        }
    }
}

/// Going back to the previous place.
pub open spec fn popped<R: Read>(from: Cursor<R>, to: Cursor<R>) -> bool {
    let segment = from.path.segments().last();
    &&& to.place == segment.place
    &&& to.reader == segment.reader
    &&& to.path is Full == from.path is Full
    &&& to.path.segments() == from.path.segments().drop_last()
    &&& to.goal == from.goal
}

/// Moving the goal `len` bytes up.
pub open spec fn trimmed<R: Read>(from: Cursor<R>, to: Cursor<R>, len: int) -> bool {
    let before = from.path.segments();
    let after = to.path.segments();
    &&& to.place == from.place
    &&& to.path is Full == from.path is Full
    &&& to.goal@ == from.goal@.take(from.goal@.len() - len)
    &&& to.reader.bytes() == from.reader.bytes().take(from.reader.bytes().len() - len)
    &&& after.len() == before.len()
    &&& forall|i: int|
        0 <= i < before.len() ==> {
            &&& (#[trigger] after[i]).place == before[i].place
            &&& after[i].len == before[i].len
            &&& after[i].node == before[i].node
            &&& before[i].reader.bytes().len() >= len
            &&& after[i].reader.bytes() == before[i].reader.bytes().take(
                before[i].reader.bytes().len() - len,
            )
        }
}

impl<R: Read> Cursor<R> {
    /// Place that follows segment `i`.
    pub open spec fn after(self, i: int) -> Place {
        if i + 1 < self.path.segments().len() {
            self.path.segments()[i + 1].place
        } else {
            self.place
        }
    }

    /// The cursor stands in the memory, on the way to its goal.
    pub open spec fn wf(self, memory: Memory) -> bool {
        &&& self.reader.valid()
        &&& memory.valid(self.place)
        &&& memory.path(self.place) + self.reader.bytes() == self.goal@
        &&& self.goal@.len() <= usize::MAX
        &&& self.path !is Discard ==> self.path.counted() == memory.path(self.place).len()
        &&& forall|i: int|
            0 <= i < self.path.segments().len() ==> (#[trigger] self.path.segments()[i]).wf(
                memory,
                self.goal@,
            )
        &&& forall|i: int|
            0 <= i < self.path.segments().len() ==> (#[trigger] self.after(i)) is Slot
                && self.after(i)->node == self.path.segments()[i].node
        &&& self.path is Full ==> {
            if self.path.segments().len() == 0 {
                self.place is Root
            } else {
                self.path.segments()[0].place is Root
            }
        }
    }

    /// A cursor stays where it is when the memory changes.
    pub proof fn lemma_stable(self, before: Memory, after: Memory)
        requires
            self.wf(before),
            grows(before, after),
        ensures
            self.wf(after),
            after.path(self.place) == before.path(self.place),
    {
        assert forall|place: Place| #[trigger] before.valid(place) implies after.valid(place)
            && after.path(place) == before.path(place) by {
            if let Place::Slot { node, slot } = place {
                let old = before.blocks[node as int];
                assert(after.blocks[node as int].keys[slot as int] == old.keys[slot as int]);
            }
        }
        assert forall|i: int| 0 <= i < self.path.segments().len() implies (
        #[trigger] self.path.segments()[i]).wf(after, self.goal@) by {
            let segment = self.path.segments()[i];
            assert(segment.wf(before, self.goal@));
            let old = before.blocks[segment.node as int];
        }
    }

    /// Cursor at the root.
    pub fn new(reader: R, path: Path<R>) -> (cursor: Self)
        requires
            reader.valid(),
            path.segments().len() == 0,
            path.counted() == 0,
        ensures
            forall|memory: Memory| #[trigger] cursor.wf(memory),
            cursor.place is Root,
            cursor.reader == reader,
            cursor.goal@ == reader.bytes(),
            cursor.path == path,
    {
        let ghost goal = reader.bytes();
        proof {
            reader.lemma_len();
        }
        let cursor = Cursor { reader, place: Place::Root, path, goal: Ghost(goal) };
        assert forall|memory: Memory| #[trigger] cursor.wf(memory) by {
            assert(memory.path(cursor.place) + reader.bytes() =~= goal);
        }
        cursor
    }

    /// Go on to a slot of the node behind the current word.
    pub(crate) fn push(
        &mut self,
        memory: Ghost<Memory>,
        len: usize,
        node: usize,
        slot: u8,
    )
        requires
            old(self).wf(memory@),
            node < memory@.blocks.len(),
            memory@.valid(Place::Slot { node, slot }),
            len < old(self).reader.bytes().len(),
            memory@.blocks[node as int].path == memory@.path(old(self).place) + old(self).reader.bytes().take(len as int),
            memory@.blocks[node as int].keys[slot as int] == old(self).reader.bytes()[len as int],
        ensures
            final(self).wf(memory@),
            final(self).goal == old(self).goal,
            final(self).place == (Place::Slot { node, slot }),
            final(self).reader.bytes() == old(self).reader.bytes().skip(len + 1),
            final(self).path is Full == old(self).path is Full,
            final(self).path is Len == old(self).path is Len,
            final(self).path is Full ==> final(self).path.segments() == old(self).path.segments().push(
                Segment { reader: old(self).reader, place: old(self).place, len, node },
            ),
    {
        let ghost before = *self;
        let segment = Segment { reader: self.reader, place: self.place, len, node };
        proof {
            self.reader.lemma_len();
            let bytes = self.reader.bytes();
            assert(memory@.path(Place::Slot { node, slot }) =~= memory@.path(self.place)
                + bytes.take(len + 1));
            assert(memory@.path(Place::Slot { node, slot }) + bytes.skip(len + 1)
                =~= self.goal@);
        }
        match &mut self.path {
            Path::Discard => {},
            Path::Len { len: total } => {
                *total = *total + 1 + len;
            },
            Path::Full { len: total, segments } => {
                *total = *total + 1 + len;
                segments.push(segment);
            },
        }
        self.reader = self.reader.suffix(len + 1);
        self.place = Place::Slot { node, slot };
        proof {
            let old_segments = before.path.segments();
            let new_segments = self.path.segments();
            if self.path is Full {
                assert(new_segments == old_segments.push(segment));
            }
            assert forall|i: int| 0 <= i < new_segments.len() implies (
            #[trigger] new_segments[i]).wf(memory@, self.goal@) by {
                if i < old_segments.len() {
                    assert(old_segments[i].wf(memory@, self.goal@));
                }
            }
            assert forall|i: int| 0 <= i < new_segments.len() implies (#[trigger] self.after(i)) is Slot
                && self.after(i)->node == new_segments[i].node by {
                if i < old_segments.len() {
                    assert(before.after(i) is Slot && before.after(i)->node
                        == old_segments[i].node);
                }
            }
        }
    }

    /// Go back to the previous place, if there is one.
    ///
    /// Returns the length of the word there and the node behind it.
    pub(crate) fn pop(&mut self, memory: Ghost<Memory>) -> (segment: Result<
        Option<(usize, usize)>,
        PopError,
    >)
        requires
            old(self).wf(memory@),
        ensures
            final(self).wf(memory@),
            final(self).goal == old(self).goal,
            final(self).path is Full == old(self).path is Full,
            segment is Err <==> old(self).path !is Full,
            segment is Err ==> *final(self) == *old(self),
            segment matches Ok(None) ==> {
                &&& old(self).place is Root
                &&& final(self).place is Root
                &&& final(self).reader == old(self).reader
                &&& old(self).path.segments().len() == 0
                &&& final(self).path.segments().len() == 0
            },
            segment matches Ok(Some((len, node))) ==> {
                &&& old(self).place is Slot
                &&& node < memory@.blocks.len()
                &&& memory@.blocks[node as int].path == memory@.path(final(self).place) + final(self).reader.bytes().take(len as int)
                &&& final(self).reader.bytes().len() == len + 1 + old(self).reader.bytes().len()
                &&& old(self).path.segments().len() > 0
                &&& final(self).path.segments() == old(self).path.segments().drop_last()
                &&& old(self).path.segments().last() == (Segment {
                    reader: final(self).reader,
                    place: final(self).place,
                    len,
                    node,
                })
            },
    {
        let ghost before = *self;
        match &mut self.path {
            Path::Full { len: total, segments } => match segments.pop() {
                None => Ok(None),
                Some(segment) => {
                    proof {
                        let last = before.path.segments().len() - 1;
                        assert(before.path.segments()[last].wf(memory@, before.goal@));
                        assert(before.after(last) is Slot && before.after(last)->node
                            == before.path.segments()[last].node);
                        assert(memory@.path(before.place).len()
                            == memory@.blocks[segment.node as int].path.len() + 1);
                    }
                    *total = *total - 1 - segment.len;
                    self.reader = segment.reader;
                    self.place = segment.place;
                    proof {
                        let old_segments = before.path.segments();
                        let new_segments = self.path.segments();
                        assert(new_segments == old_segments.drop_last());
                        assert forall|i: int| 0 <= i < new_segments.len() implies (
                        #[trigger] new_segments[i]).wf(memory@, self.goal@) by {
                            assert(old_segments[i].wf(memory@, self.goal@));
                        }
                        assert forall|i: int|
                            0 <= i < new_segments.len() implies (#[trigger] self.after(i)) is Slot
                && self.after(i)->node == new_segments[i].node by {
                            assert(before.after(i) is Slot && before.after(i)->node
                                == old_segments[i].node);
                        }
                    }
                    Ok(Some((segment.len, segment.node)))
                },
            },
            _ => Err(PopError),
        }
    }

    /// Move the goal `len` bytes up.
    pub fn trim<K: Key>(&mut self, tree: &Tree<K>, len: usize)
        requires
            old(self).wf(tree.memory()),
            len <= old(self).reader.bytes().len(),
        ensures
            final(self).wf(tree.memory()),
            trimmed(*old(self), *final(self), len as int),
    {
        let ghost memory = tree.memory();
        let ghost before = *self;
        let ghost goal = self.goal@.take(self.goal@.len() - len);
        proof {
            let bytes = self.reader.bytes();
            assert(memory.path(self.place) + bytes.take(bytes.len() - len) =~= goal);
            before.lemma_lens(memory);
        }
        let keep: usize = self.reader.len() - len;
        self.reader = self.reader.prefix(keep);
        if let Path::Full { segments, .. } = &mut self.path {
            let ghost old_segments = before.path.segments();
            let mut i: usize = 0;
            while i < segments.len()
                invariant
                    before.wf(memory),
                    goal == before.goal@.take(before.goal@.len() - len),
                    len <= before.reader.bytes().len(),
                    old_segments == before.path.segments(),
                    segments@.len() == old_segments.len(),
                    i <= segments@.len(),
                    forall|j: int|
                        0 <= j < old_segments.len() ==> (
                        #[trigger] old_segments[j]).reader.bytes().len() - len
                            > old_segments[j].len && old_segments[j].reader.bytes().len() >= len,
                    forall|j: int|
                        0 <= j < i ==> {
                            &&& (#[trigger] segments@[j]).wf(memory, goal)
                            &&& segments@[j].place == old_segments[j].place
                            &&& segments@[j].len == old_segments[j].len
                            &&& segments@[j].node == old_segments[j].node
                            &&& segments@[j].reader.bytes() == old_segments[j].reader.bytes().take(
                                old_segments[j].reader.bytes().len() - len,
                            )
                        },
                    forall|j: int| i <= j < segments@.len() ==> segments@[j] == old_segments[j],
                decreases segments@.len() - i,
            {
                proof {
                    let old_segment = old_segments[i as int];
                    assert(old_segment.wf(memory, before.goal@));
                    let bytes = old_segment.reader.bytes();
                    assert(memory.path(old_segment.place) + bytes.take(bytes.len() - len)
                        =~= goal);
                    assert(bytes.take(bytes.len() - len).take(old_segment.len as int)
                        =~= bytes.take(old_segment.len as int));
                }
                let reader = segments[i].reader;
                let keep: usize = reader.len() - len;
                segments[i].reader = reader.prefix(keep);
                i += 1;
            }
        }
        self.goal = Ghost(goal);
        proof {
            let old_segments = before.path.segments();
            let new_segments = self.path.segments();
            assert(new_segments.len() == old_segments.len());
            assert forall|i: int| 0 <= i < new_segments.len() implies (#[trigger] self.after(i)) is Slot
                && self.after(i)->node == new_segments[i].node by {
                assert(before.after(i) is Slot && before.after(i)->node == old_segments[i].node);
                assert(new_segments[i].wf(memory, goal));
                if i + 1 < new_segments.len() {
                    assert(new_segments[i + 1].wf(memory, goal));
                }
            }
        }
    }

    /// Every segment reaches past the node behind it.
    proof fn lemma_lens(self, memory: Memory)
        requires
            self.wf(memory),
        ensures
            forall|j: int|
                0 <= j < self.path.segments().len() ==> (
                #[trigger] self.path.segments()[j]).reader.bytes().len() >= self.reader.bytes().len()
                    + self.path.segments()[j].len + 1,
    {
        self.lemma_lens_from(memory, self.path.segments().len() as int);
    }

    proof fn lemma_lens_from(self, memory: Memory, n: int)
        requires
            self.wf(memory),
            0 <= n <= self.path.segments().len(),
        ensures
            forall|j: int|
                self.path.segments().len() - n <= j < self.path.segments().len() ==> (
                #[trigger] self.path.segments()[j]).reader.bytes().len() >= self.reader.bytes().len()
                    + self.path.segments()[j].len + 1,
        decreases n,
    {
        if n > 0 {
            self.lemma_lens_from(memory, n - 1);
            let segments = self.path.segments();
            let j = segments.len() - n;
            assert(segments[j].wf(memory, self.goal@));
            assert(self.after(j) is Slot && self.after(j)->node == segments[j].node);
            assert(memory.path(self.after(j)).len() == memory.path(segments[j].place).len()
                + segments[j].len + 1);
            if j + 1 < segments.len() {
                assert(segments[j + 1].wf(memory, self.goal@));
            }
        }
    }
}

} // verus!
