//! What the operations on shared memory have in common: looking at words, and
//! replacing nodes that stand in the way.
use vstd::prelude::*;
use crate::bytes::{common_len, diverge, lemma_common_len, lemma_diverge_at};
use crate::concurrent::cursor::Cursor;
use crate::concurrent::memory::{grows, inner, Link, Memory, Place, Target};
use crate::concurrent::memory::replace::Outcome;
use crate::concurrent::tree::{came_of, evolves, key_set, lookup, quiet, Tree, Word};
use crate::raw::edge::Meta;
use crate::raw::key::{Key, Read};
use crate::raw::shape::laws::lemma_descends;
use crate::raw::shape::descends;
use crate::raw::Smo;

verus! {

/// A word that was read at the cursor's place, now or earlier.
pub open spec fn held<K: Key, R: Read<Edge = K::Edge>>(
    memory: Memory,
    cursor: Cursor<R>,
    word: Word<K::Edge>,
) -> bool {
    &&& word.meta.valid()
    &&& word.link().wf(K::Edge::max())
    &&& word.frozen ==> cursor.place is Slot
    &&& memory.fits(memory.path(cursor.place), word.link())
    &&& word.target is Value ==> K::is_key(memory.path(cursor.place) + word.link().bytes)
}

/// Since the change numbered `start`, the goal had the value that a walk from
/// `link` finds now.
pub open spec fn fresh_from<K: Key, R: Read<Edge = K::Edge>>(
    tree: Tree<K>,
    cursor: Cursor<R>,
    start: int,
    link: Link,
) -> bool {
    tree.seen(start, cursor.goal@, tree.memory().get(link, cursor.reader.bytes()))
}

/// Since the change numbered `start`, the goal had the value that a walk from
/// the cursor's place finds now.
pub open spec fn fresh_at<K: Key, R: Read<Edge = K::Edge>>(
    tree: Tree<K>,
    cursor: Cursor<R>,
    start: int,
) -> bool {
    fresh_from(tree, cursor, start, tree.memory().at(cursor.place))
}

/// What was seen stays seen.
pub proof fn lemma_seen<K: Key>(
    before: Tree<K>,
    after: Tree<K>,
    start: int,
    key: Seq<u8>,
    value: Option<u64>,
)
    requires
        evolves(before, after),
        before.seen(start, key, value),
    ensures
        after.seen(start, key, value),
{
    let i = choose|i: int|
        start <= i < before.history@.len() && 0 <= i && lookup(
            #[trigger] before.history@[i],
            key,
        ) == value;
    assert(after.history@[i] == before.history@[i]);
}

/// What a key has now is seen.
pub proof fn lemma_now<K: Key>(tree: Tree<K>, start: int, key: Seq<u8>)
    requires
        tree.wf(),
        start < tree.history@.len(),
        K::is_key(key),
    ensures
        tree.seen(start, key, tree.memory().get(tree.memory().root, key)),
        lookup(tree@, key) == tree.memory().get(tree.memory().root, key),
{
    let i = tree.history@.len() - 1;
    assert(tree.history@[i] == tree@);
    assert(lookup(tree.history@[i], key) == tree.memory().get(tree.memory().root, key));
}

/// Accesses of other operations do not invalidate what an operation holds.
pub proof fn lemma_stable<K: Key, R: Read<Edge = K::Edge>>(
    before: Tree<K>,
    after: Tree<K>,
    cursor: Cursor<R>,
    start: int,
    word: Word<K::Edge>,
)
    requires
        evolves(before, after),
        after.wf(),
        cursor.wf(before.memory()),
    ensures
        cursor.wf(after.memory()),
        after.memory().path(cursor.place) == before.memory().path(cursor.place),
        held::<K, R>(before.memory(), cursor, word) ==> held::<K, R>(
            after.memory(),
            cursor,
            word,
        ),
        K::is_key(cursor.goal@) && start < before.history@.len() && fresh_at(before, cursor, start)
            ==> fresh_at(after, cursor, start),
        K::is_key(cursor.goal@) && start < before.history@.len() && held::<K, R>(
            before.memory(),
            cursor,
            word,
        ) && fresh_from(before, cursor, start, word.link()) ==> fresh_from(
            after,
            cursor,
            start,
            word.link(),
        ),
{
    let m = before.memory();
    let n = after.memory();
    cursor.lemma_stable(m, n);
    let key = cursor.goal@;
    let bytes = cursor.reader.bytes();
    let path = m.path(cursor.place);
    if held::<K, R>(m, cursor, word) {
        if let Target::Node(node) = word.target {
            let old = m.blocks[node as int];
        }
    }
    if K::is_key(key) && start < before.history@.len() {
        lemma_now(after, start, key);
        if fresh_at(before, cursor, start) {
            lemma_seen(before, after, start, key, m.get(m.at(cursor.place), bytes));
            assert(n.get(n.at(cursor.place), bytes) == m.get(m.at(cursor.place), bytes) || n.get(
                n.at(cursor.place),
                bytes,
            ) == n.get(n.root, path + bytes));
        }
        if held::<K, R>(m, cursor, word) && fresh_from(before, cursor, start, word.link()) {
            lemma_seen(before, after, start, key, m.get(word.link(), bytes));
            assert(m.fits(path, word.link()));
            assert(n.get(word.link(), bytes) == m.get(word.link(), bytes) || n.get(
                word.link(),
                bytes,
            ) == n.get(n.root, path + bytes));
        }
    }
}

/// The word at the cursor's place is one that the cursor can hold.
pub proof fn lemma_held<K: Key, R: Read<Edge = K::Edge>>(
    tree: Tree<K>,
    cursor: Cursor<R>,
    word: Word<K::Edge>,
)
    requires
        tree.wf(),
        cursor.wf(tree.memory()),
        word.meta.valid(),
        word.link() == tree.memory().at(cursor.place),
    ensures
        held::<K, R>(tree.memory(), cursor, word),
{
    let memory = tree.memory();
    memory.lemma_at(cursor.place);
    memory.lemma_stored(key_set::<K>(), cursor.place);
    if let Place::Slot { node, slot } = cursor.place {
        assert(memory.blocks[node as int].wf(K::Edge::max()));
    }
}

/// A word that is not frozen is part of the tree, so that a walk from it finds
/// what its key has now.
pub proof fn lemma_current<K: Key, R: Read<Edge = K::Edge>>(
    tree: Tree<K>,
    cursor: Cursor<R>,
    start: int,
)
    requires
        tree.wf(),
        cursor.wf(tree.memory()),
        !tree.memory().at(cursor.place).frozen,
        K::is_key(cursor.goal@),
        start < tree.history@.len(),
    ensures
        fresh_at(tree, cursor, start),
        tree.memory().get(tree.memory().at(cursor.place), cursor.reader.bytes()) == lookup(
            tree@,
            cursor.goal@,
        ),
{
    let memory = tree.memory();
    let path = memory.path(cursor.place);
    memory.lemma_unfrozen(cursor.place);
    assert(cursor.goal@.take(path.len() as int) =~= path);
    assert(cursor.goal@.skip(path.len() as int) =~= cursor.reader.bytes());
    memory.lemma_pass(K::Edge::max(), cursor.place, cursor.goal@);
    lemma_now(tree, start, cursor.goal@);
}

/// What a word says about the key of a cursor.
#[derive(Copy, Clone, Debug, PartialEq, Eq, Structural)]
pub enum Sight {
    /// The word has no child.
    Empty,
    /// The key departs from the word.
    Departs,
    /// The key goes on behind a node.
    Node { len: usize, node: usize, byte: u8 },
    /// The word leads to the value of the key.
    Value { value: u64 },
}

/// What a word says about a key.
pub open spec fn sight_of(link: Link, key: Seq<u8>, sight: Sight) -> bool {
    match sight {
        Sight::Empty => link.target is Null,
        Sight::Departs => link.target !is Null && diverge(link.bytes, key),
        Sight::Node { len, node, byte } => {
            &&& link.target == Target::Node(node)
            &&& len == link.bytes.len()
            &&& descends(link.bytes, key)
            &&& byte == key[len as int]
        },
        Sight::Value { value } => link.target == Target::Value(value) && link.bytes == key,
    }
}

/// Look at a word.
///
/// No key ends at a node or runs past a value.
pub(crate) fn inspect<K: Key, R: Read<Edge = K::Edge>>(
    memory: Ghost<Memory>,
    cursor: &Cursor<R>,
    word: &Word<K::Edge>,
) -> (sight: Sight)
    requires
        memory@.keyed(key_set::<K>()),
        cursor.wf(memory@),
        held::<K, R>(memory@, *cursor, *word),
        K::is_key(cursor.goal@),
    ensures
        sight_of(word.link(), cursor.reader.bytes(), sight),
{
    let ghost bytes = word.link().bytes;
    let ghost key = cursor.reader.bytes();
    let ghost path = memory@.path(cursor.place);
    proof {
        lemma_common_len(bytes, key);
    }
    match word.target {
        Target::Null => Sight::Empty,
        Target::Node(node) => {
            let len: usize = cursor.reader.match_prefix(&word.meta);
            proof {
                let is_key = key_set::<K>();
                assert(is_key(cursor.goal@));
                assert(inner(memory@.blocks[node as int].path, cursor.goal@));
                lemma_strip(path, bytes, key);
            }
            if len < word.meta.len() {
                return Sight::Departs;
            }
            let byte: u8 = match cursor.reader.get_byte(len) {
                Some(byte) => byte,
                None => {
                    proof {
                        lemma_descends(bytes, key);
                    }
                    vstd::pervasive::unreached()
                },
            };
            proof {
                lemma_descends(bytes, key);
            }
            Sight::Node { len, node, byte }
        },
        Target::Value(value) => {
            let len: usize = cursor.reader.match_prefix(&word.meta);
            proof {
                K::lemma_prefix_property(path + bytes, cursor.goal@);
                lemma_strip(path, bytes, key);
            }
            if len < word.meta.len() {
                proof {
                    if path + bytes == cursor.goal@ {
                        assert(bytes =~= (path + bytes).skip(path.len() as int));
                        assert(key =~= (path + key).skip(path.len() as int));
                    }
                }
                return Sight::Departs;
            }
            proof {
                if path + bytes == cursor.goal@ {
                    assert(bytes =~= (path + bytes).skip(path.len() as int));
                    assert(key =~= (path + key).skip(path.len() as int));
                }
            }
            Sight::Value { value }
        },
    }
}

/// Sequences diverge behind a common prefix exactly where they diverge.
proof fn lemma_strip(path: Seq<u8>, a: Seq<u8>, b: Seq<u8>)
    ensures
        diverge(path + a, path + b) ==> diverge(a, b),
        descends(path + a, path + b) ==> descends(a, b),
{
    lemma_common_len(path + a, path + b);
    lemma_common_len(a, b);
    if diverge(path + a, path + b) {
        let n = common_len(path + a, path + b) as int;
        if n < path.len() {
            assert((path + a)[n] == (path + b)[n]);
        }
        assert(a[n - path.len()] == (path + a)[n]);
        assert(b[n - path.len()] == (path + b)[n]);
        lemma_diverge_at(a, b, n - path.len());
    }
    if descends(path + a, path + b) {
        lemma_descends(path + a, path + b);
        assert forall|i: int| 0 <= i < a.len() implies a[i] == b[i] by {
            assert((path + a)[i + path.len()] == (path + b)[i + path.len()]);
        }
        lemma_descends(a, b);
    }
}

/// How far the replacement of a node has come.
#[derive(Copy, Clone, Debug, PartialEq, Eq, Structural)]
pub enum Stage {
    /// Go back to the previous place.
    Pop,
    /// Read the word at the cursor's place.
    Read,
    /// Stop keys from being added to the node.
    Close,
    /// Freeze the words of the node, from this slot on.
    Freeze { slot: usize },
    /// Replace the node.
    Swap,
}

/// Replacement of a node that stands in the way.
pub struct Collapse<M> {
    pub stage: Stage,
    /// Number of bytes between the cursor's place and the node.
    pub len: usize,
    /// The node.
    pub node: usize,
    /// Word that leads to the node.
    pub word: Word<M>,
    /// Whether to give up if the word has changed.
    pub once: bool,
}

impl<M: Meta> Copy for Collapse<M> {}

impl<M: Meta> Clone for Collapse<M> {
    fn clone(&self) -> (collapse: Self)
        ensures
            collapse == *self,
    {
        *self
    }
}

/// Outcome of a step of a replacement.
pub enum Progress<M> {
    /// The replacement goes on.
    Continue { collapse: Collapse<M> },
    /// The node was replaced, either by this operation, in which case it is
    /// to be retired, or by another one.
    Success { old_node: Option<usize>, word: Word<M> },
    /// A concurrent edge expansion was detected, so that the caller must
    /// traverse to the node again.
    Traverse { word: Word<M> },
    /// The word has changed.
    Conflict { word: Word<M> },
    /// The path was not retained.
    Stuck,
}

impl<M: Meta> Collapse<M> {
    /// Replace the node behind the previous place.
    pub fn pop() -> (collapse: Self)
        ensures
            collapse.stage is Pop,
            !collapse.once,
    {
        Collapse { stage: Stage::Pop, len: 0, node: 0, word: Word::null(), once: false }
    }
}

/// The replacement is in a state that it can go on from.
pub open spec fn collapsing<K: Key, R: Read<Edge = K::Edge>>(
    memory: Memory,
    cursor: Cursor<R>,
    collapse: Collapse<K::Edge>,
) -> bool {
    &&& collapse.stage is Pop ==> cursor.place is Slot
    &&& collapse.once ==> !(collapse.stage is Pop) && !(collapse.stage is Read)
    &&& (collapse.stage is Close || collapse.stage is Freeze || collapse.stage is Swap) ==> {
        &&& held::<K, R>(memory, cursor, collapse.word)
        &&& collapse.word.target == Target::Node(collapse.node)
        &&& !collapse.word.frozen
    }
    &&& collapse.stage is Freeze ==> {
        let block = memory.blocks[collapse.node as int];
        &&& block.closed || block.kind is Node256
        &&& collapse.stage->slot <= block.keys.len()
        &&& forall|i: int| 0 <= i < collapse.stage->slot ==> (#[trigger] block.links[i]).frozen
    }
    &&& collapse.stage is Swap ==> memory.blocks[collapse.node as int].fixed()
}

/// Accesses of other operations do not disturb a replacement.
pub proof fn lemma_collapsing<K: Key, R: Read<Edge = K::Edge>>(
    before: Tree<K>,
    after: Tree<K>,
    cursor: Cursor<R>,
    collapse: Collapse<K::Edge>,
)
    requires
        evolves(before, after),
        before.wf(),
        after.wf(),
        cursor.wf(before.memory()),
        collapsing::<K, R>(before.memory(), cursor, collapse),
    ensures
        collapsing::<K, R>(after.memory(), cursor, collapse),
{
    lemma_stable(before, after, cursor, 0, collapse.word);
    let m = before.memory();
    let n = after.memory();
    if collapse.stage is Freeze || collapse.stage is Swap {
        let old = m.blocks[collapse.node as int];
        let new = n.blocks[collapse.node as int];
        assert(old.wf(K::Edge::max()));
        assert(new.wf(K::Edge::max()));
        assert(grows(m, n));
        if old.kind is Node256 {
            assert(new.keys == old.keys);
        }
        assert(new.keys =~= old.keys);
        if collapse.stage is Freeze {
            assert forall|i: int| 0 <= i < collapse.stage->slot implies (
            #[trigger] new.links[i]).frozen by {
                assert(old.links[i].frozen);
            }
        } else {
            assert forall|i: int| 0 <= i < new.keys.len() implies (
            #[trigger] new.links[i]).frozen by {
                assert(old.links[i].frozen);
            }
        }
    }
}

/// What follows from the word at the cursor's place, which should lead to the
/// node.
pub open spec fn decided<M: Meta>(link: Link, collapse: Collapse<M>, progress: Progress<M>) -> bool {
    if link.frozen {
        progress == (Progress::Continue { collapse: Collapse { stage: Stage::Pop, ..collapse } })
    } else if link.target == Target::Node(collapse.node) {
        progress matches Progress::Continue { collapse: next } && {
            &&& next == Collapse { stage: Stage::Close, word: next.word, ..collapse }
            &&& next.word.link() == link
        }
    } else if link.target is Node && link.bytes.len() < collapse.len {
        progress matches Progress::Traverse { word } && word.link() == link
    } else {
        progress matches Progress::Success { old_node, word } && {
            &&& old_node is None
            &&& word.link() == link
        }
    }
}

/// One step of a replacement: what it does to the memory and to the cursor,
/// and how the replacement goes on.
pub open spec fn collapsed<K: Key, R: Read<Edge = K::Edge>>(
    before: Memory,
    after: Memory,
    from: Cursor<R>,
    to: Cursor<R>,
    collapse: Collapse<K::Edge>,
    progress: Progress<K::Edge>,
) -> bool {
    let link = before.at(from.place);
    let block = before.blocks[collapse.node as int];
    match collapse.stage {
        Stage::Pop => {
            &&& after == before
            &&& if from.path is Full {
                let segment = from.path.segments().last();
                &&& to.place == segment.place
                &&& to.reader == segment.reader
                &&& to.path.segments() == from.path.segments().drop_last()
                &&& progress == (Progress::Continue {
                    collapse: Collapse {
                        stage: Stage::Read,
                        len: segment.len,
                        node: segment.node,
                        ..collapse
                    },
                })
            } else {
                to == from && progress is Stuck
            }
        },
        Stage::Read => {
            &&& to == from
            &&& after == before
            &&& decided(link, collapse, progress)
        },
        Stage::Close => {
            &&& to == from
            &&& after == (if block.kind is Node256 {
                before
            } else {
                before.close(collapse.node as int)
            })
            &&& progress == (Progress::Continue {
                collapse: Collapse { stage: Stage::Freeze { slot: 0 }, ..collapse },
            })
        },
        Stage::Freeze { slot } => {
            let place = Place::Slot { node: collapse.node, slot: slot as u8 };
            &&& to == from
            &&& if slot < block.keys.len() {
                &&& after == before.write(place, before.at(place).freeze(), Seq::empty())
                &&& progress == (Progress::Continue {
                    collapse: Collapse {
                        stage: Stage::Freeze { slot: (slot + 1) as usize },
                        ..collapse
                    },
                })
            } else {
                &&& after == before
                &&& progress == (Progress::Continue {
                    collapse: Collapse { stage: Stage::Swap, ..collapse },
                })
            }
        },
        Stage::Swap => {
            &&& to == from
            &&& if link == collapse.word.link() {
                &&& exists|outcome: Outcome, smo: Smo|
                    #[trigger] came_of::<K>(before, from.place, outcome, smo, after)
                &&& progress matches Progress::Success { old_node, word } && {
                    &&& old_node == Some(collapse.node)
                    &&& word.link() == after.at(from.place)
                }
            } else {
                &&& after == before
                &&& if collapse.once {
                    progress matches Progress::Conflict { word } && word.link() == link
                } else {
                    decided(link, collapse, progress)
                }
            }
        },
    }
}

/// Decide what to do about the word that should lead to the node.
///
/// A frozen word cannot be replaced, so that the closest place whose word is
/// not frozen has to be found first. If the word leads elsewhere, another
/// operation was faster: a shorter word means that it was expanded, and the
/// node is to be found again; otherwise the node is gone.
fn decide<K: Key, R: Read<Edge = K::Edge>>(
    tree: &Tree<K>,
    cursor: &Cursor<R>,
    collapse: Collapse<K::Edge>,
    word: Word<K::Edge>,
) -> (progress: Progress<K::Edge>)
    requires
        tree.wf(),
        cursor.wf(tree.memory()),
        !collapse.once,
        word.meta.valid(),
        word.link() == tree.memory().at(cursor.place),
    ensures
        held::<K, R>(tree.memory(), *cursor, word),
        decided(word.link(), collapse, progress),
        match progress {
            Progress::Continue { collapse: next } => {
                &&& collapsing::<K, R>(tree.memory(), *cursor, next)
                &&& !next.once
            },
            Progress::Success { word: new, .. } => new == word,
            Progress::Traverse { word: new } => new == word,
            _ => false,
        },
{
    proof {
        lemma_held(*tree, *cursor, word);
    }
    if word.frozen {
        return Progress::Continue { collapse: Collapse { stage: Stage::Pop, ..collapse } };
    }
    match word.target {
        Target::Node(node) => {
            if node == collapse.node {
                Progress::Continue {
                    collapse: Collapse { stage: Stage::Close, word, ..collapse },
                }
            } else if word.meta.len() < collapse.len {
                Progress::Traverse { word }
            } else {
                Progress::Success { old_node: None, word }
            }
        },
        _ => Progress::Success { old_node: None, word },
    }
}

/// One step of the replacement of the closest node on the cursor's path whose
/// word is not frozen.
pub(crate) fn collapse_step<K: Key, R: Read<Edge = K::Edge>>(
    tree: &mut Tree<K>,
    cursor: &mut Cursor<R>,
    collapse: Collapse<K::Edge>,
) -> (progress: Progress<K::Edge>)
    requires
        old(tree).wf(),
        old(tree).room(1),
        old(cursor).wf(old(tree).memory()),
        collapsing::<K, R>(old(tree).memory(), *old(cursor), collapse),
    ensures
        quiet(*old(tree), *final(tree)),
        final(tree).nodes@.len() <= old(tree).nodes@.len() + 1,
        final(cursor).wf(final(tree).memory()),
        final(cursor).goal == old(cursor).goal,
        final(cursor).path is Full == old(cursor).path is Full,
        collapsed::<K, R>(
            old(tree).memory(),
            final(tree).memory(),
            *old(cursor),
            *final(cursor),
            collapse,
            progress,
        ),
        match progress {
            Progress::Continue { collapse: next } => {
                &&& collapsing::<K, R>(final(tree).memory(), *final(cursor), next)
                &&& next.once == collapse.once
            },
            Progress::Success { old_node, word } => {
                &&& old_node matches Some(node) ==> node == collapse.node
                &&& held::<K, R>(final(tree).memory(), *final(cursor), word)
                &&& word.link() == final(tree).memory().at(final(cursor).place)
                &&& !word.frozen
            },
            Progress::Traverse { word } => {
                &&& !collapse.once
                &&& held::<K, R>(final(tree).memory(), *final(cursor), word)
                &&& word.link() == final(tree).memory().at(final(cursor).place)
                &&& !word.frozen
            },
            Progress::Conflict { word } => {
                &&& collapse.once
                &&& held::<K, R>(final(tree).memory(), *final(cursor), word)
                &&& word.link() == final(tree).memory().at(final(cursor).place)
            },
            Progress::Stuck => collapse.stage is Pop && old(cursor).path !is Full,
        },
{
    let ghost before = *tree;
    let ghost memory = tree.memory();
    proof {
        memory.lemma_unchanged();
        assert(quiet(before, before));
    }
    match collapse.stage {
        Stage::Pop => match cursor.pop(Ghost(memory)) {
            Err(_) => Progress::Stuck,
            Ok(None) => vstd::pervasive::unreached(),
            Ok(Some((len, node))) => Progress::Continue {
                collapse: Collapse { stage: Stage::Read, len, node, ..collapse },
            },
        },
        Stage::Read => {
            let word = tree.load(cursor.place);
            decide(tree, cursor, collapse, word)
        },
        Stage::Close => {
            tree.close(collapse.node);
            proof {
                lemma_stable(before, *tree, *cursor, 0, collapse.word);
                assert(tree.memory().blocks[collapse.node as int].wf(K::Edge::max()));
            }
            Progress::Continue {
                collapse: Collapse { stage: Stage::Freeze { slot: 0 }, ..collapse },
            }
        },
        Stage::Freeze { slot } => {
            proof {
                assert(memory.blocks[collapse.node as int].wf(K::Edge::max()));
                assert(tree.nodes@[collapse.node as int].wf());
            }
            if slot >= tree.nodes[collapse.node].header.len() {
                return Progress::Continue {
                    collapse: Collapse { stage: Stage::Swap, ..collapse },
                };
            }
            tree.freeze(collapse.node, slot as u8);
            proof {
                lemma_stable(before, *tree, *cursor, 0, collapse.word);
                let old_block = memory.blocks[collapse.node as int];
                let new_block = tree.memory().blocks[collapse.node as int];
                assert(new_block.wf(K::Edge::max()));
                assert forall|i: int| 0 <= i < slot + 1 implies (
                #[trigger] new_block.links[i]).frozen by {
                    if i < slot {
                        assert(old_block.links[i].frozen);
                    } else {
                        assert(new_block.links[i] == tree.memory().at(
                            Place::Slot { node: collapse.node, slot: slot as u8 },
                        ));
                    }
                }
            }
            Progress::Continue {
                collapse: Collapse { stage: Stage::Freeze { slot: slot + 1 }, ..collapse },
            }
        },
        Stage::Swap => match tree.compare_replace(cursor.place, collapse.word) {
            Ok((_, word)) => {
                proof {
                    lemma_stable(before, *tree, *cursor, 0, word);
                    lemma_held(*tree, *cursor, word);
                }
                Progress::Success { old_node: Some(collapse.node), word }
            },
            Err(word) => {
                proof {
                    lemma_held(*tree, *cursor, word);
                }
                if collapse.once {
                    Progress::Conflict { word }
                } else {
                    decide(tree, cursor, collapse, word)
                }
            },
        },
    }
}

} // verus!
