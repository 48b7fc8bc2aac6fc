//! Operations on shared memory, one atomic access at a time.
//!
//! An operation is a state machine. A step makes at most one access to the
//! tree, so that the steps of any number of operations can be interleaved.
//! Where a decision is up to the caller, the operation asks for it. Every
//! operation takes effect at one step, or reports a value that its key had at
//! some time since the operation was started.
use vstd::prelude::*;
use crate::bytes::lemma_common_len;
use crate::concurrent::cursor::{Cursor, Segment};
use crate::concurrent::memory::change::growable;
use crate::concurrent::memory::{lemma_slot, Link, Memory, Place, Target};
use crate::concurrent::tree::{Tree, Word};
use crate::concurrent::walk::{fresh_at, fresh_from, held, sight_of, Sight};
use crate::raw::edge::Meta;
use crate::raw::key::{Key, Read};
use crate::raw::shape::laws::lemma_descends;
use crate::raw::shape::rest;

pub mod get;
pub mod remove;
pub mod update;
pub mod upsert;

pub use crate::concurrent::operation::get::{Get, GetStep};
pub use crate::concurrent::operation::remove::{traverse_node, Descent, Remove, RemoveStep};
pub use crate::concurrent::operation::update::{Update, UpdateStep};
pub use crate::concurrent::operation::upsert::{Upsert, UpsertStep};

verus! {

/// The value of the key, if it can be stored at the word.
pub open spec fn value_at(link: Link, key: Seq<u8>) -> Option<u64> {
    match link.target {
        Target::Value(value) => if link.bytes == key {
            Some(value)
        } else {
            None
        },
        _ => None,
    }
}

/// What an operation does about the slot of a radix byte that it may add.
pub open spec fn opened(memory: Memory, node: int, byte: u8) -> Memory {
    let block = memory.blocks[node];
    if block.keys.contains(byte) || block.closed || block.keys.len() == block.kind.slots() {
        memory
    } else {
        memory.open_slot(node, byte)
    }
}

/// The cursor goes on behind a word.
pub open spec fn descended<R: Read>(from: Cursor<R>, to: Cursor<R>, link: Link, place: Place) -> bool {
    &&& to.place == place
    &&& to.reader.bytes() == rest(link.bytes, from.reader.bytes())
    &&& to.path is Full ==> to.path.segments() == from.path.segments().push(
        Segment {
            reader: from.reader,
            place: from.place,
            len: link.bytes.len() as usize,
            node: link.target->Node_0,
        },
    )
}

/// The word leads to the value of the key.
pub open spec fn leads_to(link: Link, key: Seq<u8>, value: u64) -> bool {
    link.target == Target::Value(value) && link.bytes == key
}

/// What a walk finds where a word says all about the key.
pub(crate) proof fn lemma_sight(memory: Memory, link: Link, key: Seq<u8>, sight: Sight)
    requires
        sight_of(link, key, sight),
    ensures
        sight is Empty || sight is Departs ==> memory.get(link, key) is None,
        sight matches Sight::Value { value } ==> memory.get(link, key) == Some(value),
        sight matches Sight::Node { node, byte, .. } ==> node < memory.blocks.len()
            && !memory.blocks[node as int].keys.contains(byte) ==> memory.get(link, key) is None
            && memory.next(link, key) is None,
        !(sight is Node) ==> memory.next(link, key) is None && memory.get(link, key) == value_at(
            link,
            key,
        ),
{
    if let Sight::Departs = sight {
        lemma_common_len(link.bytes, key);
        lemma_common_len(key, key);
        lemma_descends(link.bytes, key);
    }
}

/// Follow a word to a slot of the node behind it.
pub(crate) fn follow<K: Key, R: Read<Edge = K::Edge>>(
    tree: &Tree<K>,
    cursor: &mut Cursor<R>,
    start: Ghost<int>,
    word: Word<K::Edge>,
    len: usize,
    node: usize,
    byte: u8,
    slot: u8,
)
    requires
        tree.wf(),
        old(cursor).wf(tree.memory()),
        held::<K, R>(tree.memory(), *old(cursor), word),
        sight_of(word.link(), old(cursor).reader.bytes(), Sight::Node { len, node, byte }),
        tree.memory().valid(Place::Slot { node, slot }),
        tree.memory().blocks[node as int].keys[slot as int] == byte,
    ensures
        final(cursor).wf(tree.memory()),
        final(cursor).goal == old(cursor).goal,
        final(cursor).path is Full == old(cursor).path is Full,
        final(cursor).path is Full ==> final(cursor).path.segments()
            == old(cursor).path.segments().push(
            Segment { reader: old(cursor).reader, place: old(cursor).place, len, node },
        ),
        final(cursor).place == (Place::Slot { node, slot }),
        tree.memory().next(word.link(), old(cursor).reader.bytes()) == Some(final(cursor).place),
        final(cursor).reader.bytes() == rest(word.link().bytes, old(cursor).reader.bytes()),
        fresh_from(*tree, *old(cursor), start@, word.link()) ==> fresh_at(
            *tree,
            *final(cursor),
            start@,
        ),
{
    let ghost memory = tree.memory();
    let ghost key = cursor.reader.bytes();
    proof {
        lemma_descends(word.link().bytes, key);
        assert(key.take(len as int) =~= word.link().bytes);
        assert(memory.blocks[node as int].wf(K::Edge::max()));
        lemma_slot(memory.blocks[node as int].keys, slot as int);
        assert(memory.next(word.link(), key) == Some(Place::Slot { node, slot }));
    }
    cursor.push(Ghost(memory), len, node, slot);
    proof {
        assert(rest(word.link().bytes, key) =~= cursor.reader.bytes());
    }
}

/// A walk goes no further than a word at which the key can be stored.
pub(crate) proof fn lemma_growable(memory: Memory, link: Link, key: Seq<u8>)
    requires
        growable(link, key),
    ensures
        memory.get(link, key) == value_at(link, key),
{
    lemma_common_len(link.bytes, key);
    lemma_common_len(key, key);
    lemma_descends(link.bytes, key);
}

} // verus!
