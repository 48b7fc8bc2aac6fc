//! Progress of operations that run alone.
//!
//! An operation that runs alone ends, whatever state others have left the
//! tree in. Words that others have frozen stand in its way; it replaces their
//! nodes, and meets fewer of them every time.
//!
//! Operations that take turns need not end: a slot that an insertion has added
//! and not filled yet is dropped when another insertion replaces the node, so
//! that two of them can undo each other's work.
use vstd::prelude::*;
use crate::bytes::lemma_diverge_at;
use crate::concurrent::cursor::{popped, trimmed, Cursor, Segment};
use crate::concurrent::memory::change::growable;
use crate::concurrent::memory::replace::{child, replaced, Outcome};
use crate::concurrent::memory::{lemma_slot, null_link, Block, Link, Memory, Place, Target};
use crate::concurrent::operation::descended;
use crate::concurrent::operation::remove::{Remove, RemovePhase, RemoveStep};
use crate::concurrent::operation::update::{Update, UpdatePhase, UpdateStep};
use crate::concurrent::operation::upsert::{Upsert, UpsertPhase, UpsertStep};
use crate::concurrent::tree::{came_of, offspring, Tree};
use crate::concurrent::walk::{collapsed, collapsing, Collapse, Progress, Stage};
use crate::raw::edge::Meta;
use crate::raw::key::{Key, Read};
use crate::raw::node::iter::slot_of;
use crate::raw::node::node_256::all_keys;
use crate::raw::shape::laws::lemma_descends;
use crate::raw::shape::{descends, rest};
use crate::raw::Smo;

verus! {

/// One if the word is frozen.
pub open spec fn hurdle(link: Link) -> nat {
    if link.frozen {
        1
    } else {
        0
    }
}

/// Number of frozen words that a walk along `key` meets behind a word.
pub open spec fn hurdles_behind(memory: Memory, link: Link, key: Seq<u8>) -> nat
    decreases key.len(),
{
    match memory.next(link, key) {
        Some(next) => if descends(link.bytes, key) {
            hurdle(memory.at(next)) + hurdles_behind(
                memory,
                memory.at(next),
                rest(link.bytes, key),
            )
        } else {
            0
        },
        None => 0,
    }
}

/// Number of frozen words at the places of a path.
pub open spec fn hurdles_passed<R>(memory: Memory, segments: Seq<Segment<R>>) -> nat
    decreases segments.len(),
{
    if segments.len() == 0 {
        0
    } else {
        hurdles_passed(memory, segments.drop_last()) + hurdle(memory.at(segments.last().place))
    }
}

/// Number of frozen words on the way of a cursor.
pub open spec fn hurdles<R: Read>(memory: Memory, cursor: Cursor<R>) -> nat {
    hurdles_passed(memory, cursor.path.segments()) + hurdle(memory.at(cursor.place))
        + hurdles_behind(memory, memory.at(cursor.place), cursor.reader.bytes())
}

/// Bytes that are left behind segment `i`.
pub open spec fn left_after<R: Read>(cursor: Cursor<R>, i: int) -> Seq<u8> {
    if i + 1 < cursor.path.segments().len() {
        cursor.path.segments()[i + 1].reader.bytes()
    } else {
        cursor.reader.bytes()
    }
}

/// A walk that begins at segment `i` now goes on to where the cursor went.
pub open spec fn leads_on<R: Read>(memory: Memory, cursor: Cursor<R>, i: int) -> bool {
    let segment = cursor.path.segments()[i];
    let link = memory.at(segment.place);
    let key = segment.reader.bytes();
    &&& memory.next(link, key) == Some(cursor.after(i))
    &&& link.target == Target::Node(segment.node)
    &&& rest(link.bytes, key) == left_after(cursor, i)
}

/// The path of the cursor is the one that a walk takes now.
pub open spec fn on_route<R: Read>(memory: Memory, cursor: Cursor<R>) -> bool {
    &&& cursor.path is Full
    &&& forall|i: int| 0 <= i < cursor.path.segments().len() ==> #[trigger] leads_on(memory, cursor, i)
}

/// Places from some depth on hold the same words, and nodes from there on have
/// the same keys.
pub open spec fn same_below(before: Memory, after: Memory, depth: nat) -> bool {
    &&& before.blocks.len() <= after.blocks.len()
    &&& forall|place: Place| #[trigger]
        before.valid(place) && before.path(place).len() >= depth ==> after.at(place) == before.at(
            place,
        )
    &&& forall|node: int|
        0 <= node < before.blocks.len() && before.blocks[node].path.len() >= depth ==> (
        #[trigger] after.blocks[node]).keys == before.blocks[node].keys
}

/// A walk that goes through nothing that has changed goes as before.
proof fn lemma_behind_same(
    before: Memory,
    after: Memory,
    max: nat,
    path: Seq<u8>,
    link: Link,
    key: Seq<u8>,
)
    requires
        before.blocks_wf(max),
        before.consistent(),
        before.fits(path, link),
        same_below(before, after, path.len() + link.bytes.len()),
    ensures
        after.next(link, key) == before.next(link, key),
        hurdles_behind(after, link, key) == hurdles_behind(before, link, key),
    decreases key.len(),
{
    before.lemma_next(max, path, link, key);
    if let Target::Node(node) = link.target {
        assert(before.blocks[node as int].path == path + link.bytes);
        assert(after.blocks[node as int].keys == before.blocks[node as int].keys);
    }
    if let Some(next) = before.next(link, key) {
        assert(after.at(next) == before.at(next));
        before.lemma_at(next);
        lemma_behind_same(
            before,
            after,
            max,
            before.path(next),
            before.at(next),
            rest(link.bytes, key),
        );
    }
}

/// What is frozen at places that have not changed.
proof fn lemma_passed_same<R>(before: Memory, after: Memory, segments: Seq<Segment<R>>)
    requires
        forall|i: int|
            0 <= i < segments.len() ==> after.at((#[trigger] segments[i]).place) == before.at(
                segments[i].place,
            ),
    ensures
        hurdles_passed(after, segments) == hurdles_passed(before, segments),
    decreases segments.len(),
{
    if segments.len() > 0 {
        assert forall|i: int| 0 <= i < segments.drop_last().len() implies after.at(
            (#[trigger] segments.drop_last()[i]).place,
        ) == before.at(segments.drop_last()[i].place) by {
            assert(segments.drop_last()[i] == segments[i]);
        }
        lemma_passed_same(before, after, segments.drop_last());
        assert(segments[segments.len() - 1] == segments.last());
    }
}

/// A place whose keys are those of before is the next one on the same walks.
proof fn lemma_next_kept(before: Memory, after: Memory, max: nat, link: Link, key: Seq<u8>)
    requires
        before.blocks_wf(max),
        after.blocks_wf(max),
        before.blocks.len() <= after.blocks.len(),
        forall|node: int|
            0 <= node < before.blocks.len() ==> {
                &&& before.blocks[node].keys.len() <= (#[trigger] after.blocks[node]).keys.len()
                &&& before.blocks[node].keys == after.blocks[node].keys.take(
                    before.blocks[node].keys.len() as int,
                )
            },
        before.next(link, key) is Some,
    ensures
        after.next(link, key) == before.next(link, key),
{
    let node = link.target->Node_0;
    let old = before.blocks[node as int];
    let new = after.blocks[node as int];
    let b = key[link.bytes.len() as int];
    assert(old.wf(max));
    assert(new.wf(max));
    assert(new.keys.take(old.keys.len() as int) == old.keys);
    let s = slot_of(old.keys, b);
    assert(0 <= s < old.keys.len() && old.keys[s] == b);
    assert(new.keys[s] == b) by {
        assert(new.keys.take(old.keys.len() as int)[s] == new.keys[s]);
    }
    lemma_slot(new.keys, s);
}

/// The path of a segment is shorter than that of the cursor's place.
pub proof fn lemma_segment_depth<R: Read>(memory: Memory, max: nat, cursor: Cursor<R>, i: int)
    requires
        memory.blocks_wf(max),
        memory.consistent(),
        cursor.wf(memory),
        on_route(memory, cursor),
        0 <= i < cursor.path.segments().len(),
    ensures
        memory.valid(cursor.path.segments()[i].place),
        memory.path(cursor.path.segments()[i].place).len() < memory.path(cursor.place).len(),
    decreases cursor.path.segments().len() - i,
{
    let segments = cursor.path.segments();
    let segment = segments[i];
    assert(segment.wf(memory, cursor.goal@));
    assert(leads_on(memory, cursor, i));
    memory.lemma_at(segment.place);
    memory.lemma_next(max, memory.path(segment.place), memory.at(segment.place), segment.reader.bytes());
    if i + 1 < segments.len() {
        lemma_segment_depth(memory, max, cursor, i + 1);
    }
}

/// Words above the cursor's place that have not changed lead there as before.
proof fn lemma_route_kept<R: Read>(before: Memory, after: Memory, max: nat, cursor: Cursor<R>)
    requires
        before.blocks_wf(max),
        before.consistent(),
        after.blocks_wf(max),
        cursor.wf(before),
        on_route(before, cursor),
        before.blocks.len() <= after.blocks.len(),
        forall|node: int|
            0 <= node < before.blocks.len() ==> {
                &&& before.blocks[node].keys.len() <= (#[trigger] after.blocks[node]).keys.len()
                &&& before.blocks[node].keys == after.blocks[node].keys.take(
                    before.blocks[node].keys.len() as int,
                )
            },
        forall|place: Place| #[trigger]
            before.valid(place) && before.path(place).len() < before.path(cursor.place).len()
                ==> after.at(place) == before.at(place),
    ensures
        on_route(after, cursor),
        hurdles_passed(after, cursor.path.segments()) == hurdles_passed(
            before,
            cursor.path.segments(),
        ),
{
    let segments = cursor.path.segments();
    assert forall|i: int| 0 <= i < segments.len() implies after.at((#[trigger] segments[i]).place)
        == before.at(segments[i].place) by {
        lemma_segment_depth(before, max, cursor, i);
    }
    lemma_passed_same(before, after, segments);
    assert forall|i: int| 0 <= i < segments.len() implies #[trigger] leads_on(after, cursor, i) by {
        assert(leads_on(before, cursor, i));
        assert(after.at(segments[i].place) == before.at(segments[i].place));
        lemma_next_kept(
            before,
            after,
            max,
            before.at(segments[i].place),
            segments[i].reader.bytes(),
        );
    }
}

/// Going on behind a word keeps the number of frozen words on the way.
proof fn lemma_push<R: Read>(memory: Memory, max: nat, from: Cursor<R>, to: Cursor<R>)
    requires
        memory.blocks_wf(max),
        memory.consistent(),
        from.wf(memory),
        on_route(memory, from),
        to.path is Full,
        memory.next(memory.at(from.place), from.reader.bytes()) == Some(to.place),
        to.path.segments().len() == from.path.segments().len() + 1,
        to.path.segments().drop_last() == from.path.segments(),
        to.path.segments().last().place == from.place,
        to.path.segments().last().reader == from.reader,
        memory.at(from.place).target == Target::Node(to.path.segments().last().node),
        to.reader.bytes() == rest(memory.at(from.place).bytes, from.reader.bytes()),
    ensures
        on_route(memory, to),
        hurdles(memory, to) == hurdles(memory, from),
{
    let n = from.path.segments().len() as int;
    memory.lemma_at(from.place);
    memory.lemma_next(
        max,
        memory.path(from.place),
        memory.at(from.place),
        from.reader.bytes(),
    );
    assert forall|i: int| 0 <= i < to.path.segments().len() implies #[trigger] leads_on(
        memory,
        to,
        i,
    ) by {
        if i < n {
            assert(leads_on(memory, from, i));
            assert(to.path.segments()[i] == to.path.segments().drop_last()[i]);
            if i + 1 < n {
                assert(to.path.segments()[i + 1] == to.path.segments().drop_last()[i + 1]);
            }
        }
    }
}

/// Going back keeps the number of frozen words on the way.
proof fn lemma_pop<R: Read>(memory: Memory, max: nat, from: Cursor<R>, to: Cursor<R>)
    requires
        memory.blocks_wf(max),
        memory.consistent(),
        from.wf(memory),
        on_route(memory, from),
        from.path.segments().len() > 0,
        to.path is Full,
        to.path.segments() == from.path.segments().drop_last(),
        to.place == from.path.segments().last().place,
        to.reader == from.path.segments().last().reader,
    ensures
        on_route(memory, to),
        hurdles(memory, to) == hurdles(memory, from),
        memory.next(memory.at(to.place), to.reader.bytes()) == Some(from.place),
        memory.at(to.place).target == Target::Node(from.path.segments().last().node),
        rest(memory.at(to.place).bytes, to.reader.bytes()) == from.reader.bytes(),
{
    let n = from.path.segments().len() - 1;
    let last = from.path.segments()[n];
    assert(leads_on(memory, from, n));
    assert(last.wf(memory, from.goal@));
    memory.lemma_at(last.place);
    memory.lemma_next(
        max,
        memory.path(last.place),
        memory.at(last.place),
        last.reader.bytes(),
    );
    assert forall|i: int| 0 <= i < to.path.segments().len() implies #[trigger] leads_on(
        memory,
        to,
        i,
    ) by {
        assert(leads_on(memory, from, i));
        assert(to.path.segments()[i] == from.path.segments()[i]);
        if i + 1 < n {
            assert(to.path.segments()[i + 1] == from.path.segments()[i + 1]);
        }
    }
}

/// Closing a node keeps the number of frozen words on the way.
proof fn lemma_closed<R: Read>(memory: Memory, max: nat, cursor: Cursor<R>, node: int)
    requires
        memory.blocks_wf(max),
        memory.consistent(),
        memory.close(node).blocks_wf(max),
        cursor.wf(memory),
        on_route(memory, cursor),
        0 <= node < memory.blocks.len(),
    ensures
        on_route(memory.close(node), cursor),
        hurdles(memory.close(node), cursor) == hurdles(memory, cursor),
        memory.close(node).at(cursor.place) == memory.at(cursor.place),
        forall|key: Seq<u8>| #[trigger]
            memory.close(node).next(memory.at(cursor.place), key) == memory.next(
                memory.at(cursor.place),
                key,
            ),
        forall|place: Place| #[trigger]
            memory.valid(place) ==> memory.close(node).at(place) == memory.at(place),
{
    let after = memory.close(node);
    assert forall|i: int| 0 <= i < memory.blocks.len() implies {
        &&& memory.blocks[i].keys.len() <= (#[trigger] after.blocks[i]).keys.len()
        &&& memory.blocks[i].keys == after.blocks[i].keys.take(memory.blocks[i].keys.len() as int)
    } by {
        assert(memory.blocks[i].keys =~= after.blocks[i].keys.take(
            memory.blocks[i].keys.len() as int,
        ));
    }
    assert forall|place: Place| #[trigger] memory.valid(place) implies after.at(place)
        == memory.at(place) by {}
    lemma_route_kept(memory, after, max, cursor);
    assert(memory.valid(cursor.place));
    memory.lemma_at(cursor.place);
    lemma_behind_same(
        memory,
        after,
        max,
        memory.path(cursor.place),
        memory.at(cursor.place),
        cursor.reader.bytes(),
    );
    assert forall|key: Seq<u8>| #[trigger] after.next(memory.at(cursor.place), key)
        == memory.next(memory.at(cursor.place), key) by {
        lemma_behind_same(
            memory,
            after,
            max,
            memory.path(cursor.place),
            memory.at(cursor.place),
            key,
        );
    }
}

/// A slot that is added for the key of the cursor is not frozen.
proof fn lemma_opened<R: Read>(memory: Memory, max: nat, cursor: Cursor<R>, node: usize, byte: u8)
    requires
        memory.blocks_wf(max),
        memory.consistent(),
        cursor.wf(memory),
        on_route(memory, cursor),
        memory.open_slot(node as int, byte).blocks_wf(max),
        memory.at(cursor.place).target == Target::Node(node),
        descends(memory.at(cursor.place).bytes, cursor.reader.bytes()),
        byte == cursor.reader.bytes()[memory.at(cursor.place).bytes.len() as int],
        !memory.blocks[node as int].keys.contains(byte),
        memory.blocks[node as int].keys.len() < memory.blocks[node as int].kind.slots(),
    ensures
        ({
            let after = memory.open_slot(node as int, byte);
            let place = Place::Slot {
                node,
                slot: memory.blocks[node as int].keys.len() as u8,
            };
            &&& on_route(after, cursor)
            &&& hurdles(after, cursor) == hurdles(memory, cursor)
            &&& after.at(cursor.place) == memory.at(cursor.place)
            &&& after.next(memory.at(cursor.place), cursor.reader.bytes()) == Some(place)
            &&& after.at(place) == null_link()
        }),
{
    let after = memory.open_slot(node as int, byte);
    let link = memory.at(cursor.place);
    let key = cursor.reader.bytes();
    let old = memory.blocks[node as int];
    let new = after.blocks[node as int];
    memory.lemma_at(cursor.place);
    assert(old.wf(max));
    assert(new.wf(max));
    assert(old.kind.slots() <= 256);
    assert forall|i: int| 0 <= i < memory.blocks.len() implies {
        &&& memory.blocks[i].keys.len() <= (#[trigger] after.blocks[i]).keys.len()
        &&& memory.blocks[i].keys == after.blocks[i].keys.take(memory.blocks[i].keys.len() as int)
    } by {
        assert(memory.blocks[i].keys =~= after.blocks[i].keys.take(
            memory.blocks[i].keys.len() as int,
        ));
    }
    assert forall|place: Place| #[trigger] memory.valid(place) implies after.at(place)
        == memory.at(place) by {}
    lemma_route_kept(memory, after, max, cursor);
    let s = old.keys.len() as int;
    assert(new.keys[s] == byte);
    lemma_slot(new.keys, s);
    assert(memory.next(link, key) is None);
    let place = Place::Slot { node, slot: s as u8 };
    assert(after.next(link, key) == Some(place));
    assert(after.at(place) == null_link());
    assert(hurdles_behind(after, null_link(), rest(link.bytes, key)) == 0);
}

/// Freezing a word of the node that is to be replaced keeps the number of
/// frozen words on the way: the way ends at the node, or the word on it is
/// frozen already.
proof fn lemma_frozen<R: Read>(memory: Memory, max: nat, cursor: Cursor<R>, node: usize, slot: u8)
    requires
        memory.blocks_wf(max),
        memory.consistent(),
        cursor.wf(memory),
        on_route(memory, cursor),
        memory.at(cursor.place).target == Target::Node(node),
        memory.valid(Place::Slot { node, slot }),
        memory.write(
            Place::Slot { node, slot },
            memory.at(Place::Slot { node, slot }).freeze(),
            Seq::empty(),
        ).blocks_wf(max),
        memory.next(memory.at(cursor.place), cursor.reader.bytes()) matches Some(next)
            ==> memory.at(next).frozen,
    ensures
        ({
            let place = Place::Slot { node, slot };
            let after = memory.write(place, memory.at(place).freeze(), Seq::empty());
            &&& on_route(after, cursor)
            &&& hurdles(after, cursor) == hurdles(memory, cursor)
            &&& after.at(cursor.place) == memory.at(cursor.place)
            &&& after.next(memory.at(cursor.place), cursor.reader.bytes()) == memory.next(
                memory.at(cursor.place),
                cursor.reader.bytes(),
            )
            &&& memory.next(memory.at(cursor.place), cursor.reader.bytes()) matches Some(next)
                ==> after.at(next).frozen
        }),
{
    let written = Place::Slot { node, slot };
    let after = memory.write(written, memory.at(written).freeze(), Seq::empty());
    let link = memory.at(cursor.place);
    let key = cursor.reader.bytes();
    memory.lemma_at(cursor.place);
    assert(memory.blocks[node as int].wf(max));
    assert(after.blocks.len() == memory.blocks.len());
    assert forall|i: int| 0 <= i < memory.blocks.len() implies {
        &&& memory.blocks[i].keys.len() <= (#[trigger] after.blocks[i]).keys.len()
        &&& memory.blocks[i].keys == after.blocks[i].keys.take(memory.blocks[i].keys.len() as int)
        &&& after.blocks[i].keys == memory.blocks[i].keys
    } by {
        assert(memory.blocks[i].keys =~= after.blocks[i].keys.take(
            memory.blocks[i].keys.len() as int,
        ));
    }
    assert forall|place: Place| #[trigger] memory.valid(place) && place != written implies after.at(
        place,
    ) == memory.at(place) by {}
    assert(memory.path(written).len() > memory.path(cursor.place).len());
    lemma_route_kept(memory, after, max, cursor);
    memory.lemma_next(max, memory.path(cursor.place), link, key);
    assert(memory.valid(cursor.place));
    assert(after.next(link, key) == memory.next(link, key));
    if let Some(next) = memory.next(link, key) {
        let below = memory.at(next);
        if next == written {
            assert(below.freeze() =~= below);
        }
        assert(after.at(next) == below);
        memory.lemma_at(next);
        assert(same_below(memory, after, (memory.path(written).len() + 1) as nat));
        lemma_behind_deeper(
            memory,
            after,
            max,
            memory.path(next),
            below,
            rest(link.bytes, key),
        );
    }
}

/// A walk behind a word goes on at places that are deeper than the word.
proof fn lemma_behind_deeper(
    before: Memory,
    after: Memory,
    max: nat,
    path: Seq<u8>,
    link: Link,
    key: Seq<u8>,
)
    requires
        before.blocks_wf(max),
        before.consistent(),
        before.fits(path, link),
        same_below(before, after, path.len() + 1),
        before.blocks.len() <= after.blocks.len(),
        link.target matches Target::Node(node) ==> after.blocks[node as int].keys
            == before.blocks[node as int].keys,
    ensures
        after.next(link, key) == before.next(link, key),
        hurdles_behind(after, link, key) == hurdles_behind(before, link, key),
{
    before.lemma_next(max, path, link, key);
    if let Some(next) = before.next(link, key) {
        before.lemma_at(next);
        lemma_behind_same(
            before,
            after,
            max,
            before.path(next),
            before.at(next),
            rest(link.bytes, key),
        );
    }
}

/// The node behind a word has a slot for the key, or room for one.
pub open spec fn ready(memory: Memory, link: Link, key: Seq<u8>) -> bool {
    let block = memory.blocks[link.target->Node_0 as int];
    ||| block.keys.contains(key[link.bytes.len() as int])
    ||| !block.closed && block.keys.len() < block.kind.slots()
}

/// Words with the same bytes and child lead to the same places.
proof fn lemma_same_child(memory: Memory, a: Link, b: Link, key: Seq<u8>)
    requires
        a.bytes == b.bytes,
        a.target == b.target,
    ensures
        memory.next(a, key) == memory.next(b, key),
        hurdles_behind(memory, a, key) == hurdles_behind(memory, b, key),
{
}

/// Replacing the node behind the cursor's word: if the way ended at the node,
/// it still does, and the key can be stored there or the node has room. If it
/// went on at a frozen word, there is one frozen word less.
proof fn lemma_swapped<K: Key, R: Read<Edge = K::Edge>>(
    memory: Memory,
    after: Memory,
    cursor: Cursor<R>,
    outcome: Outcome,
    smo: Smo,
)
    requires
        memory.blocks_wf(K::Edge::max()),
        memory.consistent(),
        after.blocks_wf(K::Edge::max()),
        cursor.wf(memory),
        on_route(memory, cursor),
        memory.at(cursor.place).target is Node,
        !memory.at(cursor.place).frozen,
        descends(memory.at(cursor.place).bytes, cursor.reader.bytes()),
        came_of::<K>(memory, cursor.place, outcome, smo, after),
        memory.blocks.len() < usize::MAX,
    ensures
        on_route(after, cursor),
        !after.at(cursor.place).frozen,
        match memory.next(memory.at(cursor.place), cursor.reader.bytes()) {
            None => {
                &&& hurdles(after, cursor) == hurdles(memory, cursor)
                &&& if outcome is Replace {
                    &&& after.at(cursor.place).bytes == memory.at(cursor.place).bytes
                    &&& after.at(cursor.place).target is Node
                    &&& ready(after, after.at(cursor.place), cursor.reader.bytes())
                } else {
                    growable(after.at(cursor.place), cursor.reader.bytes())
                }
            },
            Some(next) => memory.at(next).frozen ==> hurdles(after, cursor) < hurdles(
                memory,
                cursor,
            ),
        },
{
    let max = K::Edge::max();
    let place = cursor.place;
    let link = memory.at(place);
    let key = cursor.reader.bytes();
    let node = link.target->Node_0;
    let block = memory.blocks[node as int];
    let b = key[link.bytes.len() as int];
    let tail = rest(link.bytes, key);
    let base = memory.blocks.len();
    let (new, fresh) = replaced(link, block, base, outcome);
    assert(after == memory.write(place, new, fresh));
    memory.lemma_at(place);
    lemma_descends(link.bytes, key);
    memory.lemma_next(max, memory.path(place), link, key);
    assert(block.wf(max));
    assert(after.blocks.len() == base + fresh.len());
    if let Place::Slot { node: above, slot } = place {
        assert(memory.blocks[above as int].wf(max));
        assert(memory.blocks[above as int].path.len() < block.path.len());
    }
    assert forall|i: int| 0 <= i < memory.blocks.len() implies {
        &&& memory.blocks[i].keys.len() <= (#[trigger] after.blocks[i]).keys.len()
        &&& memory.blocks[i].keys == after.blocks[i].keys.take(memory.blocks[i].keys.len() as int)
        &&& after.blocks[i].keys == memory.blocks[i].keys
    } by {
        assert((memory.blocks + fresh)[i] == memory.blocks[i]);
        assert(memory.blocks[i].keys =~= after.blocks[i].keys.take(
            memory.blocks[i].keys.len() as int,
        ));
    }
    assert forall|other: Place| #[trigger] memory.valid(other) && other != place implies after.at(
        other,
    ) == memory.at(other) by {
        if let Place::Slot { node: n, slot: s } = other {
            assert((memory.blocks + fresh)[n as int] == memory.blocks[n as int]);
        }
    }
    assert(after.at(place) == new);
    assert(!new.frozen);
    lemma_route_kept(memory, after, max, cursor);
    assert(same_below(memory, after, (memory.path(place).len() + 1) as nat));
    // What lies behind the slot of the key, if there is one.
    let below = child(block, b);
    let found = memory.next(link, key);
    if let Some(next) = found {
        let s = slot_of(block.keys, b);
        assert(0 <= s < block.keys.len() && block.keys[s] == b);
        assert(next == Place::Slot { node, slot: s as u8 });
        assert(memory.at(next) == block.links[s]);
        memory.lemma_at(next);
        lemma_same_child(memory, block.links[s], block.links[s].thaw(), tail);
        lemma_behind_deeper(memory, after, max, memory.path(next), block.links[s], tail);
        lemma_same_child(after, block.links[s], block.links[s].thaw(), tail);
        assert(below == null_link() || below == block.links[s].thaw());
        assert(hurdles_behind(after, below, tail) <= hurdles_behind(
            memory,
            block.links[s],
            tail,
        ));
    } else {
        assert(!block.keys.contains(b));
        assert(below == null_link());
    }
    assert(hurdles_behind(after, null_link(), tail) == 0);
    match outcome {
        Outcome::Delete => {
            assert(hurdles_behind(after, new, key) == 0);
        },
        Outcome::Compress { byte } => {
            let c = child(block, byte);
            let n = link.bytes.len() as int;
            assert(new.bytes[n] == byte);
            if b == byte {
                lemma_joined(after, link.bytes, byte, c, new, key);
                assert(found is Some);
            } else {
                lemma_diverge_at(new.bytes, key, n);
                lemma_descends(new.bytes, key);
                assert(after.next(new, key) is None);
                assert(hurdles_behind(after, new, key) == 0);
            }
        },
        Outcome::Replace { block: fresh_block } => {
            assert(after.blocks[base as int] == fresh_block) by {
                assert((memory.blocks + fresh)[base as int] == fresh[0]);
            }
            assert(fresh_block.wf(max));
            assert(child(fresh_block, b) == child(block, b));
            assert(ready(after, new, key)) by {
                if fresh_block.kind is Node256 {
                    assert(all_keys()[b as int] == b);
                } else {
                    assert(fresh_block.keys.len() == offspring(block).len());
                }
            }
            if fresh_block.keys.contains(b) {
                let t = slot_of(fresh_block.keys, b);
                assert(0 <= t < fresh_block.keys.len() && fresh_block.keys[t] == b);
                assert(fresh_block.kind.slots() <= 256);
                let slot = Place::Slot { node: base as usize, slot: t as u8 };
                assert(after.next(new, key) == Some(slot));
                assert(after.at(slot) == fresh_block.links[t]);
                assert(!fresh_block.links[t].frozen);
                if fresh_block.links[t].target is Null {
                    assert(hurdles_behind(after, fresh_block.links[t], tail) == 0);
                } else {
                    lemma_same_child(after, fresh_block.links[t], fresh_block.links[t].thaw(), tail);
                }
                assert(hurdles_behind(after, new, key) == hurdles_behind(after, below, tail));
            } else {
                assert(after.next(new, key) is None);
                assert(hurdles_behind(after, new, key) == 0);
            }
        },
    }
}

/// A walk along a word that was joined from two goes on as it did behind the
/// second one.
proof fn lemma_joined(
    memory: Memory,
    bytes: Seq<u8>,
    byte: u8,
    second: Link,
    joined: Link,
    key: Seq<u8>,
)
    requires
        descends(bytes, key),
        key[bytes.len() as int] == byte,
        joined.bytes == bytes.push(byte) + second.bytes,
        joined.target == second.target,
    ensures
        memory.next(joined, key) == memory.next(second, rest(bytes, key)),
        hurdles_behind(memory, joined, key) == hurdles_behind(memory, second, rest(bytes, key)),
{
    let tail = rest(bytes, key);
    let n = bytes.len() as int;
    lemma_descends(bytes, key);
    lemma_descends(second.bytes, tail);
    lemma_descends(joined.bytes, key);
    if descends(second.bytes, tail) {
        assert forall|i: int| 0 <= i < joined.bytes.len() implies joined.bytes[i] == key[i] by {
            if i > n {
                assert(joined.bytes[i] == second.bytes[i - n - 1]);
                assert(tail[i - n - 1] == key[i]);
            }
        }
        assert(descends(joined.bytes, key));
        assert(tail[second.bytes.len() as int] == key[joined.bytes.len() as int]);
        assert(rest(second.bytes, tail) =~= rest(joined.bytes, key));
    }
    if descends(joined.bytes, key) {
        assert forall|i: int| 0 <= i < second.bytes.len() implies second.bytes[i] == tail[i] by {
            assert(joined.bytes[n + 1 + i] == second.bytes[i]);
            assert(key[n + 1 + i] == tail[i]);
        }
        assert(descends(second.bytes, tail));
    }
}

/// How far a replacement is from its end.
pub open spec fn stage_rank(stage: Stage) -> nat {
    match stage {
        Stage::Read => 1000,
        Stage::Close => 900,
        Stage::Freeze { slot } => if slot <= 256 {
            (800 - slot) as nat
        } else {
            0
        },
        Stage::Swap => 100,
        Stage::Pop => 50,
    }
}

/// The way goes through a node, at a word that is frozen.
pub open spec fn blocked<R: Read>(memory: Memory, cursor: Cursor<R>, node: usize) -> bool {
    let link = memory.at(cursor.place);
    &&& link.target == Target::Node(node)
    &&& memory.next(link, cursor.reader.bytes()) matches Some(next) && memory.at(next).frozen
}

/// The replacement of a node that blocks the way is up to date.
pub open spec fn retreating<R: Read, M: Meta>(
    memory: Memory,
    cursor: Cursor<R>,
    collapse: Collapse<M>,
) -> bool {
    match collapse.stage {
        Stage::Pop => memory.at(cursor.place).frozen,
        Stage::Read => blocked(memory, cursor, collapse.node),
        _ => {
            &&& blocked(memory, cursor, collapse.node)
            &&& collapse.word.link() == memory.at(cursor.place)
        },
    }
}

/// A replacement that is not disturbed comes closer to its end with every
/// step, and its end is that fewer words are frozen.
proof fn lemma_retreat<K: Key, R: Read<Edge = K::Edge>>(
    before: Memory,
    after: Memory,
    from: Cursor<R>,
    to: Cursor<R>,
    collapse: Collapse<K::Edge>,
    progress: Progress<K::Edge>,
)
    requires
        before.blocks_wf(K::Edge::max()),
        before.consistent(),
        before.blocks.len() < usize::MAX,
        after.blocks_wf(K::Edge::max()),
        !before.root.frozen,
        from.wf(before),
        to.path is Full,
        on_route(before, from),
        collapsing::<K, R>(before, from, collapse),
        !collapse.once,
        retreating(before, from, collapse),
        collapsed::<K, R>(before, after, from, to, collapse, progress),
    ensures
        on_route(after, to),
        match progress {
            Progress::Continue { collapse: next } => {
                &&& retreating(after, to, next)
                &&& hurdles(after, to) == hurdles(before, from)
                &&& if collapse.stage is Pop {
                    to.path.segments().len() < from.path.segments().len()
                } else {
                    &&& to.path.segments().len() == from.path.segments().len()
                    &&& stage_rank(next.stage) < stage_rank(collapse.stage)
                }
            },
            Progress::Success { word, .. } => {
                &&& hurdles(after, to) < hurdles(before, from)
                &&& word.link() == after.at(to.place)
            },
            _ => false,
        },
{
    let max = K::Edge::max();
    let link = before.at(from.place);
    let key = from.reader.bytes();
    before.lemma_at(from.place);
    match collapse.stage {
        Stage::Pop => {
            if from.path.segments().len() == 0 {
                assert(from.place is Root);
            }
            lemma_pop(before, max, from, to);
        },
        Stage::Read => {},
        Stage::Close => {
            before.lemma_next(max, before.path(from.place), link, key);
            let next = before.next(link, key)->0;
            let block = before.blocks[collapse.node as int];
            if !(block.kind is Node256) {
                lemma_closed(before, max, from, collapse.node as int);
                assert(before.valid(next));
                assert(after.next(link, key) == before.next(link, key));
            }
        },
        Stage::Freeze { slot } => {
            let block = before.blocks[collapse.node as int];
            assert(block.wf(max));
            assert(block.kind.slots() <= 256);
            if slot < block.keys.len() {
                assert(before.valid(Place::Slot { node: collapse.node, slot: slot as u8 }));
                lemma_frozen(before, max, from, collapse.node, slot as u8);
            }
        },
        Stage::Swap => {
            before.lemma_next(max, before.path(from.place), link, key);
            let (outcome, smo) = choose|outcome: Outcome, smo: Smo|
                #[trigger] came_of::<K>(before, from.place, outcome, smo, after);
            lemma_swapped::<K, R>(before, after, from, outcome, smo);
        },
    }
}

/// The replacement of a node without room that is not disturbed comes closer
/// to its end with every step, and its end is that there is room.
proof fn lemma_expand<K: Key, R: Read<Edge = K::Edge>>(
    before: Memory,
    after: Memory,
    cursor: Cursor<R>,
    collapse: Collapse<K::Edge>,
    progress: Progress<K::Edge>,
)
    requires
        before.blocks_wf(K::Edge::max()),
        before.consistent(),
        before.blocks.len() < usize::MAX,
        after.blocks_wf(K::Edge::max()),
        cursor.wf(before),
        on_route(before, cursor),
        collapsing::<K, R>(before, cursor, collapse),
        collapse.once,
        collapse.word.link() == before.at(cursor.place),
        descends(before.at(cursor.place).bytes, cursor.reader.bytes()),
        before.next(before.at(cursor.place), cursor.reader.bytes()) is None,
        collapsed::<K, R>(before, after, cursor, cursor, collapse, progress),
    ensures
        on_route(after, cursor),
        hurdles(after, cursor) == hurdles(before, cursor),
        match progress {
            Progress::Continue { collapse: next } => {
                &&& next.once
                &&& next.word == collapse.word
                &&& after.at(cursor.place) == before.at(cursor.place)
                &&& after.next(before.at(cursor.place), cursor.reader.bytes()) is None
                &&& stage_rank(next.stage) < stage_rank(collapse.stage)
            },
            Progress::Success { word, .. } => {
                let link = after.at(cursor.place);
                &&& word.link() == link
                &&& growable(link, cursor.reader.bytes()) || {
                    &&& link.bytes == before.at(cursor.place).bytes
                    &&& link.target is Node
                    &&& ready(after, link, cursor.reader.bytes())
                }
            },
            _ => false,
        },
{
    let max = K::Edge::max();
    let link = before.at(cursor.place);
    before.lemma_at(cursor.place);
    match collapse.stage {
        Stage::Close => {
            let block = before.blocks[collapse.node as int];
            if !(block.kind is Node256) {
                lemma_closed(before, max, cursor, collapse.node as int);
            }
        },
        Stage::Freeze { slot } => {
            let block = before.blocks[collapse.node as int];
            assert(block.wf(max));
            assert(block.kind.slots() <= 256);
            if slot < block.keys.len() {
                assert(before.valid(Place::Slot { node: collapse.node, slot: slot as u8 }));
                lemma_frozen(before, max, cursor, collapse.node, slot as u8);
            }
        },
        Stage::Swap => {
            let (outcome, smo) = choose|outcome: Outcome, smo: Smo|
                #[trigger] came_of::<K>(before, cursor.place, outcome, smo, after);
            lemma_swapped::<K, R>(before, after, cursor, outcome, smo);
        },
        _ => {},
    }
}

/// Number of bytes that are left behind a word, unless the key can be stored
/// there.
pub open spec fn remaining(link: Link, key: Seq<u8>) -> nat {
    if growable(link, key) || key.len() < link.bytes.len() {
        0
    } else {
        (key.len() - link.bytes.len()) as nat
    }
}

impl<K: Key, R: Read<Edge = K::Edge>> Upsert<K, R> {
    /// What the operation knows of the tree is up to date, and it retains its
    /// path.
    pub open spec fn alone(self, tree: Tree<K>) -> bool {
        let memory = tree.memory();
        let link = memory.at(self.cursor.place);
        let key = self.cursor.reader.bytes();
        &&& self.wf(tree)
        &&& on_route(memory, self.cursor)
        &&& match self.phase {
            UpsertPhase::Load => true,
            UpsertPhase::Walk { word } => word.link() == link,
            UpsertPhase::Ask { word, .. } => word.link() == link,
            UpsertPhase::Commit { word, .. } => word.link() == link,
            UpsertPhase::Replace { collapse } => {
                &&& collapse.word.link() == link
                &&& descends(link.bytes, key)
                &&& memory.next(link, key) is None
            },
            UpsertPhase::Retreat { collapse } => retreating(memory, self.cursor, collapse),
            UpsertPhase::Done => true,
        }
    }

    /// Whether the operation is on its way down.
    pub open spec fn mode(self) -> nat {
        if self.phase is Retreat {
            0
        } else {
            1
        }
    }

    /// Bytes or segments that are still to be covered.
    pub open spec fn major(self, tree: Tree<K>) -> nat {
        if self.phase is Retreat {
            self.cursor.path.segments().len()
        } else {
            remaining(tree.memory().at(self.cursor.place), self.cursor.reader.bytes())
        }
    }

    /// Steps that are still to be made at the place.
    pub open spec fn minor(self, tree: Tree<K>) -> nat {
        let memory = tree.memory();
        let link = memory.at(self.cursor.place);
        let key = self.cursor.reader.bytes();
        let wait = !growable(link, key) && !ready(memory, link, key);
        match self.phase {
            UpsertPhase::Load => if wait {
                2001
            } else {
                5
            },
            UpsertPhase::Walk { .. } => if wait {
                2000
            } else {
                4
            },
            UpsertPhase::Ask { .. } => 3,
            UpsertPhase::Commit { .. } => 2,
            UpsertPhase::Replace { collapse } => 1000 + stage_rank(collapse.stage),
            UpsertPhase::Retreat { collapse } => stage_rank(collapse.stage),
            UpsertPhase::Done => 0,
        }
    }

    /// An operation that has just been started, and retains its path, is up to
    /// date.
    pub proof fn law_starts_alone(self, tree: Tree<K>)
        requires
            self.wf(tree),
            self.phase is Load,
            self.cursor.path is Full,
            self.cursor.path.segments().len() == 0,
        ensures
            self.alone(tree),
    {
    }

    /// With every step that it makes alone, an operation comes closer to its
    /// end: fewer words are frozen, or it begins to replace a node, or fewer
    /// bytes are left, or fewer steps at the same place.
    #[verifier::rlimit(40)]
    pub proof fn law_alone(self, next: Self, before: Tree<K>, after: Tree<K>, step: UpsertStep)
        requires
            before.wf(),
            before.room(1),
            self.alone(before),
            !(self.phase is Ask || self.phase is Done),
            after.wf(),
            self.steps(next, before, after, step),
            !(step is Success),
        ensures
            next.alone(after),
            decreases_to!(
                hurdles(before.memory(), self.cursor),
                self.mode(),
                self.major(before),
                self.minor(before) =>
                hurdles(after.memory(), next.cursor),
                next.mode(),
                next.major(after),
                next.minor(after)
            ),
    {
        let m = before.memory();
        let n = after.memory();
        let max = K::Edge::max();
        let link = m.at(self.cursor.place);
        let key = self.cursor.reader.bytes();
        m.lemma_at(self.cursor.place);
        match self.phase {
            UpsertPhase::Load => {},
            UpsertPhase::Walk { word } => {
                if !growable(link, key) {
                    let node = link.target->Node_0;
                    let byte = key[link.bytes.len() as int];
                    let block = m.blocks[node as int];
                    assert(block.wf(max));
                    lemma_descends(link.bytes, key);
                    if n != m {
                        lemma_opened(m, max, self.cursor, node, byte);
                    }
                    if n.blocks[node as int].keys.contains(byte) {
                        n.lemma_at(self.cursor.place);
                        n.lemma_next(max, n.path(self.cursor.place), link, key);
                        assert(next.cursor.path.segments().drop_last()
                            =~= self.cursor.path.segments());
                        assert(self.cursor.wf(n));
                        lemma_push(n, max, self.cursor, next.cursor);
                        assert(next.cursor.reader.bytes().len() < key.len() - link.bytes.len());
                    }
                }
            },
            UpsertPhase::Ask { .. } => {},
            UpsertPhase::Commit { .. } => {},
            UpsertPhase::Replace { collapse } => {
                let progress = choose|progress: Progress<K::Edge>| #[trigger]
                    collapsed::<K, R>(m, n, self.cursor, next.cursor, collapse, progress)
                        && self.continues(next, progress, step);
                lemma_expand::<K, R>(m, n, self.cursor, collapse, progress);
                assert(!growable(link, key)) by {
                    lemma_descends(link.bytes, key);
                }
            },
            UpsertPhase::Retreat { collapse } => {
                let progress = choose|progress: Progress<K::Edge>| #[trigger]
                    collapsed::<K, R>(m, n, self.cursor, next.cursor, collapse, progress)
                        && self.continues(next, progress, step);
                lemma_retreat::<K, R>(m, n, self.cursor, next.cursor, collapse, progress);
            },
            UpsertPhase::Done => {},
        }
    }

    /// An answer brings an operation that runs alone closer to its end.
    pub proof fn law_answered(self, next: Self, tree: Tree<K>, new: u64)
        requires
            tree.wf(),
            self.alone(tree),
            self.phase is Ask,
            next.wf(tree),
            next.cursor == self.cursor,
            if self.phase->Ask_word.frozen {
                next.phase matches UpsertPhase::Retreat { collapse } && collapse.stage is Pop
            } else {
                next.phase == (UpsertPhase::Commit {
                    old: self.phase->Ask_old,
                    new,
                    word: self.phase->Ask_word,
                })
            },
        ensures
            next.alone(tree),
            decreases_to!(
                hurdles(tree.memory(), self.cursor),
                self.mode(),
                self.major(tree),
                self.minor(tree) =>
                hurdles(tree.memory(), next.cursor),
                next.mode(),
                next.major(tree),
                next.minor(tree)
            ),
    {
    }
}

impl<K: Key, R: Read<Edge = K::Edge>> Update<K, R> {
    /// What the operation knows of the tree is up to date, and it retains its
    /// path.
    pub open spec fn alone(self, tree: Tree<K>) -> bool {
        let memory = tree.memory();
        let link = memory.at(self.cursor.place);
        &&& self.wf(tree)
        &&& on_route(memory, self.cursor)
        &&& match self.phase {
            UpdatePhase::Load => true,
            UpdatePhase::Walk { word } => word.link() == link,
            UpdatePhase::Ask { word, .. } => word.link() == link,
            UpdatePhase::Commit { word, .. } => word.link() == link,
            UpdatePhase::Retreat { collapse } => retreating(memory, self.cursor, collapse),
            UpdatePhase::Done => true,
        }
    }

    /// Whether the operation is on its way down.
    pub open spec fn mode(self) -> nat {
        if self.phase is Retreat {
            0
        } else {
            1
        }
    }

    /// Bytes or segments that are still to be covered.
    pub open spec fn major(self) -> nat {
        if self.phase is Retreat {
            self.cursor.path.segments().len()
        } else {
            self.cursor.reader.bytes().len()
        }
    }

    /// Steps that are still to be made at the place.
    pub open spec fn minor(self) -> nat {
        match self.phase {
            UpdatePhase::Load => 4,
            UpdatePhase::Walk { .. } => 3,
            UpdatePhase::Ask { .. } => 2,
            UpdatePhase::Commit { .. } => 1,
            UpdatePhase::Retreat { collapse } => stage_rank(collapse.stage),
            _ => 0,
        }
    }

    /// An operation that has just been started, and retains its path, is up to
    /// date.
    pub proof fn law_starts_alone(self, tree: Tree<K>)
        requires
            self.wf(tree),
            self.phase is Load,
            self.cursor.path is Full,
            self.cursor.path.segments().len() == 0,
        ensures
            self.alone(tree),
    {
    }

    /// With every step that it makes alone, an operation comes closer to its
    /// end: fewer words are frozen, or it begins to replace a node, or fewer
    /// bytes are left, or fewer steps at the same place.
    pub proof fn law_alone(self, next: Self, before: Tree<K>, after: Tree<K>, step: UpdateStep)
        requires
            before.wf(),
            before.room(1),
            self.alone(before),
            self.phase is Load || self.phase is Walk || self.phase is Commit || self.phase is Retreat,
            after.wf(),
            self.steps(next, before, after, step),
            !(step is Success || step is Absent),
        ensures
            next.alone(after),
            decreases_to!(
                hurdles(before.memory(), self.cursor),
                self.mode(),
                self.major(),
                self.minor() =>
                hurdles(after.memory(), next.cursor),
                next.mode(),
                next.major(),
                next.minor()
            ),
    {
        let m = before.memory();
        let n = after.memory();
        let max = K::Edge::max();
        let link = m.at(self.cursor.place);
        let key = self.cursor.reader.bytes();
        m.lemma_at(self.cursor.place);
        match self.phase {
            UpdatePhase::Walk { word } => {
                if m.next(link, key) is Some {
                    m.lemma_next(max, m.path(self.cursor.place), link, key);
                    lemma_descends(link.bytes, key);
                    assert(next.cursor.path.segments().drop_last() =~= self.cursor.path.segments());
                    lemma_push(m, max, self.cursor, next.cursor);
                    assert(next.cursor.reader.bytes().len() < key.len());
                }
            },
            UpdatePhase::Retreat { collapse } => {
                let progress = choose|progress: Progress<K::Edge>| #[trigger]
                    collapsed::<K, R>(m, n, self.cursor, next.cursor, collapse, progress)
                        && self.continues(next, progress, step);
                lemma_retreat::<K, R>(m, n, self.cursor, next.cursor, collapse, progress);
            },
            _ => {},
        }
    }

    /// An answer brings an operation that runs alone closer to its end.
    pub proof fn law_answered(self, next: Self, tree: Tree<K>, new: u64)
        requires
            tree.wf(),
            self.alone(tree),
            self.phase is Ask,
            next.wf(tree),
            next.cursor == self.cursor,
            next.phase == (UpdatePhase::Commit {
                old: self.phase->Ask_old,
                new,
                word: self.phase->Ask_word,
            }),
        ensures
            next.alone(tree),
            decreases_to!(
                hurdles(tree.memory(), self.cursor),
                self.mode(),
                self.major(),
                self.minor() =>
                hurdles(tree.memory(), next.cursor),
                next.mode(),
                next.major(),
                next.minor()
            ),
    {
    }
}

/// Changing the word at the cursor's place keeps the way there.
proof fn lemma_written<R: Read>(
    memory: Memory,
    max: nat,
    cursor: Cursor<R>,
    link: Link,
    fresh: Seq<Block>,
)
    requires
        memory.blocks_wf(max),
        memory.consistent(),
        memory.write(cursor.place, link, fresh).blocks_wf(max),
        cursor.wf(memory),
        on_route(memory, cursor),
    ensures
        on_route(memory.write(cursor.place, link, fresh), cursor),
{
    let after = memory.write(cursor.place, link, fresh);
    assert forall|i: int| 0 <= i < memory.blocks.len() implies {
        &&& memory.blocks[i].keys.len() <= (#[trigger] after.blocks[i]).keys.len()
        &&& memory.blocks[i].keys == after.blocks[i].keys.take(memory.blocks[i].keys.len() as int)
    } by {
        assert((memory.blocks + fresh)[i] == memory.blocks[i]);
        assert(memory.blocks[i].keys =~= after.blocks[i].keys.take(
            memory.blocks[i].keys.len() as int,
        ));
    }
    assert forall|other: Place| #[trigger]
        memory.valid(other) && memory.path(other).len() < memory.path(
            cursor.place,
        ).len() implies after.at(other) == memory.at(other) by {
        if let Place::Slot { node, slot } = other {
            assert((memory.blocks + fresh)[node as int] == memory.blocks[node as int]);
        }
    }
    lemma_route_kept(memory, after, max, cursor);
}

/// Moving the goal up keeps the way there.
proof fn lemma_trimmed<R: Read>(memory: Memory, from: Cursor<R>, to: Cursor<R>, len: int)
    requires
        on_route(memory, from),
        trimmed(from, to, len),
        0 <= len <= from.reader.bytes().len(),
    ensures
        on_route(memory, to),
{
    let before = from.path.segments();
    let after = to.path.segments();
    assert forall|i: int| 0 <= i < after.len() implies #[trigger] leads_on(memory, to, i) by {
        assert(leads_on(memory, from, i));
        assert(after[i].place == before[i].place);
        let link = memory.at(before[i].place);
        let key = before[i].reader.bytes();
        let n = link.bytes.len() as int;
        if i + 1 < after.len() {
            assert(after[i + 1].place == before[i + 1].place);
        }
        assert(left_after(from, i).len() >= len);
        assert(left_after(to, i) == left_after(from, i).take(left_after(from, i).len() - len));
        lemma_descends(link.bytes, key);
        let short = key.take(key.len() - len);
        assert(n + 1 + left_after(from, i).len() == key.len());
        assert(short[n] == key[n]);
        assert(link.bytes =~= short.take(n));
        lemma_descends(link.bytes, short);
        assert(rest(link.bytes, short) =~= left_after(to, i));
    }
}

/// The word at the cursor's place leads to the node at its goal, and the
/// replacement of the node is up to date.
pub open spec fn shrinking<R: Read, M: Meta>(
    memory: Memory,
    cursor: Cursor<R>,
    collapse: Collapse<M>,
) -> bool {
    let link = memory.at(cursor.place);
    &&& link.target is Node
    &&& link.bytes == cursor.reader.bytes()
    &&& match collapse.stage {
        Stage::Pop => false,
        Stage::Read => collapse.len == link.bytes.len(),
        _ => collapse.word.link() == link,
    }
}

/// The replacement of a node without further use that is not disturbed comes
/// closer to its end with every step.
proof fn lemma_shrink<K: Key, R: Read<Edge = K::Edge>>(
    before: Memory,
    after: Memory,
    from: Cursor<R>,
    to: Cursor<R>,
    collapse: Collapse<K::Edge>,
    progress: Progress<K::Edge>,
)
    requires
        before.blocks_wf(K::Edge::max()),
        before.consistent(),
        after.blocks_wf(K::Edge::max()),
        from.wf(before),
        on_route(before, from),
        collapsing::<K, R>(before, from, collapse),
        !collapse.once,
        shrinking(before, from, collapse),
        collapsed::<K, R>(before, after, from, to, collapse, progress),
    ensures
        on_route(after, to),
        to == from,
        match progress {
            Progress::Continue { collapse: next } => {
                &&& hurdles(after, to) == hurdles(before, from)
                &&& if next.stage is Pop {
                    after.at(to.place).frozen
                } else {
                    &&& shrinking(after, to, next)
                    &&& stage_rank(next.stage) < stage_rank(collapse.stage)
                }
            },
            Progress::Success { .. } => true,
            _ => false,
        },
{
    let max = K::Edge::max();
    let link = before.at(from.place);
    before.lemma_at(from.place);
    lemma_descends(link.bytes, from.reader.bytes());
    match collapse.stage {
        Stage::Close => {
            if !(before.blocks[collapse.node as int].kind is Node256) {
                lemma_closed(before, max, from, collapse.node as int);
            }
        },
        Stage::Freeze { slot } => {
            let block = before.blocks[collapse.node as int];
            assert(block.wf(max));
            assert(block.kind.slots() <= 256);
            if slot < block.keys.len() {
                assert(before.valid(Place::Slot { node: collapse.node, slot: slot as u8 }));
                lemma_frozen(before, max, from, collapse.node, slot as u8);
            }
        },
        Stage::Swap => {
            let (outcome, smo) = choose|outcome: Outcome, smo: Smo|
                #[trigger] came_of::<K>(before, from.place, outcome, smo, after);
            let block = before.blocks[collapse.node as int];
            let (new, fresh) = replaced(link, block, before.blocks.len(), outcome);
            lemma_written(before, max, from, new, fresh);
        },
        _ => {},
    }
}

impl<K: Key, R: Read<Edge = K::Edge>> Remove<K, R> {
    /// The node at the goal of the cursor is being replaced, and not one that
    /// stands in the way.
    pub open spec fn near(self) -> bool {
        self.phase matches RemovePhase::Shrink { collapse, from, .. } && self.cursor.place == from
            && collapse.stage !is Pop
    }

    /// What the operation knows of the tree is up to date, and it retains its
    /// path.
    pub open spec fn alone(self, tree: Tree<K>) -> bool {
        let memory = tree.memory();
        let link = memory.at(self.cursor.place);
        &&& self.wf(tree)
        &&& on_route(memory, self.cursor)
        &&& match self.phase {
            RemovePhase::Walk { word } => word.link() == link,
            RemovePhase::Ask { word, .. } => word.link() == link,
            RemovePhase::Commit { word, .. } => word.link() == link,
            RemovePhase::Retreat { collapse } => retreating(memory, self.cursor, collapse),
            RemovePhase::Shrink { collapse, from, .. } => {
                &&& memory.valid(from)
                &&& memory.path(self.cursor.place).len() <= memory.path(from).len()
                &&& if self.near() {
                    shrinking(memory, self.cursor, collapse)
                } else {
                    retreating(memory, self.cursor, collapse)
                }
            },
            RemovePhase::Seek { word, .. } => word.link() == link,
            _ => true,
        }
    }

    /// Whether the value is still to be removed.
    pub open spec fn due(self) -> nat {
        if self.phase.removed() {
            0
        } else {
            1
        }
    }

    /// Length of the path to the node that may have no further use.
    pub open spec fn span(self) -> nat {
        if self.phase is Rise {
            2 * self.cursor.goal@.len()
        } else {
            2 * self.cursor.goal@.len() + 1
        }
    }

    /// Whether the operation is on its way down, at its goal, or on its way
    /// back.
    pub open spec fn mode(self) -> nat {
        if self.phase is Retreat || self.phase is Shrink && !self.near() {
            0
        } else if self.phase is Shrink {
            1
        } else {
            2
        }
    }

    /// Bytes or segments that are still to be covered.
    pub open spec fn major(self) -> nat {
        if self.phase is Retreat || self.phase is Shrink {
            self.cursor.path.segments().len()
        } else {
            self.cursor.reader.bytes().len()
        }
    }

    /// Steps that are still to be made at the place.
    pub open spec fn minor(self) -> nat {
        match self.phase {
            RemovePhase::Load | RemovePhase::Sink { .. } => 4,
            RemovePhase::Walk { .. } | RemovePhase::Seek { .. } => 3,
            RemovePhase::Ask { .. } => 2,
            RemovePhase::Commit { .. } => 1,
            RemovePhase::Retreat { collapse } => stage_rank(collapse.stage),
            RemovePhase::Shrink { collapse, .. } => stage_rank(collapse.stage),
            _ => 0,
        }
    }

    /// An operation that has just been started, and retains its path, is up to
    /// date.
    pub proof fn law_starts_alone(self, tree: Tree<K>)
        requires
            self.wf(tree),
            self.phase is Load,
            self.cursor.path is Full,
            self.cursor.path.segments().len() == 0,
        ensures
            self.alone(tree),
    {
    }

    /// With every step that it makes alone, an operation comes closer to its
    /// end: the value is removed, or the path that is left to clear up becomes
    /// shorter, or fewer words are frozen, or it begins to replace a node, or
    /// fewer bytes are left, or fewer steps at the same place.
    pub proof fn law_alone(self, next: Self, before: Tree<K>, after: Tree<K>, step: RemoveStep)
        requires
            before.wf(),
            before.room(1),
            self.alone(before),
            !(self.phase is Ask || self.phase is Done),
            after.wf(),
            self.steps(next, before, after, step),
            !(next.phase is Done),
        ensures
            next.alone(after),
            decreases_to!(
                self.due(),
                self.span(),
                hurdles(before.memory(), self.cursor),
                self.mode(),
                self.major(),
                self.minor() =>
                next.due(),
                next.span(),
                hurdles(after.memory(), next.cursor),
                next.mode(),
                next.major(),
                next.minor()
            ),
    {
        let m = before.memory();
        let n = after.memory();
        let max = K::Edge::max();
        let link = m.at(self.cursor.place);
        let key = self.cursor.reader.bytes();
        m.lemma_at(self.cursor.place);
        match self.phase {
            RemovePhase::Walk { .. } => {
                if m.next(link, key) is Some {
                    self.lemma_down(next, before);
                }
            },
            RemovePhase::Commit { .. } => {
                if step is Success {
                    lemma_written(m, max, self.cursor, null_link(), Seq::empty());
                }
            },
            RemovePhase::Retreat { collapse } => {
                let progress = choose|progress: Progress<K::Edge>| #[trigger]
                    collapsed::<K, R>(m, n, self.cursor, next.cursor, collapse, progress)
                        && self.continues(next, progress, step);
                lemma_retreat::<K, R>(m, n, self.cursor, next.cursor, collapse, progress);
            },
            RemovePhase::Rise => {
                self.lemma_rise(next, before);
            },
            RemovePhase::Shrink { .. } => {
                self.lemma_clear(next, before, after, step);
            },
            RemovePhase::Seek { word, .. } => {
                if !(word.target is Node && link.bytes == key) && m.next(link, key) is Some {
                    self.lemma_down(next, before);
                }
            },
            _ => {},
        }
    }

    /// A step down.
    proof fn lemma_down(self, next: Self, tree: Tree<K>)
        requires
            tree.wf(),
            self.alone(tree),
            next.cursor.path is Full,
            tree.memory().next(
                tree.memory().at(self.cursor.place),
                self.cursor.reader.bytes(),
            ) == Some(next.cursor.place),
            descended(
                self.cursor,
                next.cursor,
                tree.memory().at(self.cursor.place),
                next.cursor.place,
            ),
        ensures
            on_route(tree.memory(), next.cursor),
            hurdles(tree.memory(), next.cursor) == hurdles(tree.memory(), self.cursor),
            next.cursor.reader.bytes().len() < self.cursor.reader.bytes().len(),
    {
        let m = tree.memory();
        let max = K::Edge::max();
        let link = m.at(self.cursor.place);
        let key = self.cursor.reader.bytes();
        m.lemma_at(self.cursor.place);
        m.lemma_next(max, m.path(self.cursor.place), link, key);
        lemma_descends(link.bytes, key);
        assert(next.cursor.path.segments().drop_last() =~= self.cursor.path.segments());
        lemma_push(m, max, self.cursor, next.cursor);
    }

    /// Going back to the previous node.
    proof fn lemma_rise(self, next: Self, tree: Tree<K>)
        requires
            tree.wf(),
            self.alone(tree),
            self.phase is Rise,
            next.wf(tree),
            next.cursor.path is Full,
            self.moves(next, tree.memory(), tree.memory(), RemoveStep::Pending),
        ensures
            next.alone(tree),
            next.span() < self.span(),
    {
        let m = tree.memory();
        let max = K::Edge::max();
        let key = self.cursor.reader.bytes();
        let cursor = choose|cursor: Cursor<R>| #[trigger]
            popped(self.cursor, cursor) && trimmed(cursor, next.cursor, key.len() as int + 1);
        let last = self.cursor.path.segments().len() - 1;
        let segment = self.cursor.path.segments()[last];
        let link = m.at(segment.place);
        assert(segment.wf(m, self.cursor.goal@));
        lemma_pop(m, max, self.cursor, cursor);
        m.lemma_at(segment.place);
        lemma_descends(link.bytes, cursor.reader.bytes());
        assert(segment.len == link.bytes.len()) by {
            assert(m.blocks[segment.node as int].path == m.path(segment.place) + link.bytes);
            assert(m.blocks[segment.node as int].path.len() == m.path(segment.place).len()
                + segment.len);
        }
        lemma_trimmed(m, cursor, next.cursor, key.len() as int + 1);
        assert(next.cursor.reader.bytes() =~= link.bytes);
        assert(next.cursor.goal@.len() < self.cursor.goal@.len());
    }

    /// A step of the replacement of a node without further use.
    proof fn lemma_clear(self, next: Self, before: Tree<K>, after: Tree<K>, step: RemoveStep)
        requires
            before.wf(),
            before.room(1),
            self.alone(before),
            self.phase is Shrink,
            after.wf(),
            self.steps(next, before, after, step),
            !(next.phase is Done),
        ensures
            next.alone(after),
            next.phase is Rise || {
                &&& next.span() == self.span()
                &&& decreases_to!(
                    hurdles(before.memory(), self.cursor),
                    self.mode(),
                    self.major(),
                    self.minor() =>
                    hurdles(after.memory(), next.cursor),
                    next.mode(),
                    next.major(),
                    next.minor()
                )
            },
    {
        let m = before.memory();
        let n = after.memory();
        let max = K::Edge::max();
        let collapse = self.phase->Shrink_collapse;
        let progress = choose|progress: Progress<K::Edge>| #[trigger]
            collapsed::<K, R>(m, n, self.cursor, next.cursor, collapse, progress)
                && self.continues(next, progress, step);
        self.cursor.lemma_stable(m, n);
        if self.near() {
            lemma_shrink::<K, R>(m, n, self.cursor, next.cursor, collapse, progress);
        } else {
            if collapse.stage is Pop {
                lemma_segment_depth(
                    m,
                    max,
                    self.cursor,
                    self.cursor.path.segments().len() - 1,
                );
            }
            lemma_retreat::<K, R>(m, n, self.cursor, next.cursor, collapse, progress);
        }
    }

    /// An answer brings an operation that runs alone closer to its end.
    pub proof fn law_answered(self, next: Self, tree: Tree<K>)
        requires
            tree.wf(),
            self.alone(tree),
            self.phase is Ask,
            next.wf(tree),
            next.cursor == self.cursor,
            next.phase == (RemovePhase::Commit {
                old: self.phase->Ask_old,
                word: self.phase->Ask_word,
            }),
        ensures
            next.alone(tree),
            decreases_to!(
                self.due(),
                self.span(),
                hurdles(tree.memory(), self.cursor),
                self.mode(),
                self.major(),
                self.minor() =>
                next.due(),
                next.span(),
                hurdles(tree.memory(), next.cursor),
                next.mode(),
                next.major(),
                next.minor()
            ),
    {
    }
}

} // verus!
