//! Mathematical model of a tree whose words are shared between operations.
//!
//! Nodes are blocks that are never given up: a node that was replaced stays
//! readable, with every word frozen. The memory is described by what a walk
//! from some word finds, so that operations which still hold on to replaced
//! nodes are covered.
use vstd::prelude::*;
use crate::bytes::diverge;
use crate::raw::node::iter::slot_of;
use crate::raw::node::node_256::all_keys;
use crate::raw::node::Type;
use crate::raw::shape::laws::lemma_descends;
use crate::raw::shape::{descends, rest};

pub mod change;
pub mod live;
pub mod replace;

verus! {

/// What an edge word leads to.
#[derive(Copy, Clone, Debug, PartialEq, Eq, Structural)]
pub enum Target {
    /// No child.
    Null,
    /// An inline or type-erased value.
    Value(u64),
    /// The node with this number.
    Node(usize),
}

/// Where an edge word is stored.
#[derive(Copy, Clone, Debug, PartialEq, Eq, Structural)]
pub enum Place {
    /// The root edge.
    Root,
    /// A slot of a node.
    Slot { node: usize, slot: u8 },
}

/// An edge word: compressed bytes, child and freeze flag.
#[verifier::ext_equal]
pub struct Link {
    pub bytes: Seq<u8>,
    pub target: Target,
    pub frozen: bool,
}

/// A node: the radix byte of each slot in use, and one word per slot.
#[verifier::ext_equal]
pub struct Block {
    pub kind: Type,
    pub keys: Seq<u8>,
    /// No key can be added any more.
    pub closed: bool,
    pub links: Seq<Link>,
    /// Bytes that lead from the root to the node.
    pub path: Seq<u8>,
}

/// The root edge and all nodes.
#[verifier::ext_equal]
pub struct Memory {
    pub root: Link,
    pub blocks: Seq<Block>,
}

/// Word without a child.
pub open spec fn null_link() -> Link {
    Link { bytes: Seq::empty(), target: Target::Null, frozen: false }
}

impl Link {
    /// Structural validity, where one edge holds at most `max` bytes.
    pub open spec fn wf(self, max: nat) -> bool {
        &&& self.bytes.len() <= max
        &&& self.target is Null ==> self.bytes == Seq::<u8>::empty()
    }

    /// The same word, with the freeze flag set.
    pub open spec fn freeze(self) -> Link {
        Link { frozen: true, ..self }
    }

    /// The same word, with the freeze flag cleared.
    pub open spec fn thaw(self) -> Link {
        Link { frozen: false, ..self }
    }
}

impl Block {
    /// Structural validity, where one edge holds at most `max` bytes.
    pub open spec fn wf(self, max: nat) -> bool {
        &&& self.keys.no_duplicates()
        &&& self.keys.len() <= self.kind.slots()
        &&& self.links.len() == self.kind.slots()
        &&& self.kind is Node256 ==> self.keys == all_keys()
        &&& forall|i: int| 0 <= i < self.links.len() ==> (#[trigger] self.links[i]).wf(max)
        &&& forall|i: int|
            self.keys.len() <= i < self.links.len() ==> #[trigger] self.links[i] == null_link()
    }

    /// No word of the node can change any more.
    pub open spec fn fixed(self) -> bool {
        &&& self.closed || self.kind is Node256
        &&& forall|i: int| 0 <= i < self.keys.len() ==> (#[trigger] self.links[i]).frozen
    }
}

impl Memory {
    /// The place exists.
    pub open spec fn valid(self, place: Place) -> bool {
        match place {
            Place::Root => true,
            Place::Slot { node, slot } => node < self.blocks.len() && slot
                < self.blocks[node as int].keys.len(),
        }
    }

    /// The word at a place.
    pub open spec fn at(self, place: Place) -> Link {
        match place {
            Place::Root => self.root,
            Place::Slot { node, slot } => self.blocks[node as int].links[slot as int],
        }
    }

    /// Bytes that lead from the root to a place.
    pub open spec fn path(self, place: Place) -> Seq<u8> {
        match place {
            Place::Root => Seq::empty(),
            Place::Slot { node, slot } => self.blocks[node as int].path.push(
                self.blocks[node as int].keys[slot as int],
            ),
        }
    }

    /// Where a walk along `key` continues after `link`.
    pub open spec fn next(self, link: Link, key: Seq<u8>) -> Option<Place> {
        match link.target {
            Target::Node(node) => if node < self.blocks.len() && descends(link.bytes, key)
                && self.blocks[node as int].keys.contains(key[link.bytes.len() as int]) {
                Some(
                    Place::Slot {
                        node,
                        slot: slot_of(
                            self.blocks[node as int].keys,
                            key[link.bytes.len() as int],
                        ) as u8,
                    },
                )
            } else {
                None
            },
            _ => None,
        }
    }

    /// The value that a walk along `key` from `link` finds.
    pub open spec fn get(self, link: Link, key: Seq<u8>) -> Option<u64>
        decreases key.len(),
    {
        match link.target {
            Target::Null => None,
            Target::Value(value) => if link.bytes == key {
                Some(value)
            } else {
                None
            },
            Target::Node(_) => match self.next(link, key) {
                Some(place) => if descends(link.bytes, key) {
                    self.get(self.at(place), rest(link.bytes, key))
                } else {
                    None
                },
                None => None,
            },
        }
    }

    /// The walk along `path` from `link` ends at node `node`.
    pub open spec fn reaches(self, link: Link, path: Seq<u8>, node: int) -> bool
        decreases path.len(),
    {
        if link.target == Target::Node(node as usize) && 0 <= node <= usize::MAX && link.bytes
            == path {
            true
        } else {
            match self.next(link, path) {
                Some(place) => if descends(link.bytes, path) {
                    self.reaches(self.at(place), rest(link.bytes, path), node)
                } else {
                    false
                },
                None => false,
            }
        }
    }

    /// A node that the word leads to is where it should be, if the word is
    /// stored behind `path`.
    pub open spec fn fits(self, path: Seq<u8>, link: Link) -> bool {
        link.target matches Target::Node(node) ==> node < self.blocks.len()
            && self.blocks[node as int].path == path + link.bytes
    }

    /// Every word leads to nodes that are where they should be.
    pub open spec fn consistent(self) -> bool {
        &&& self.fits(Seq::empty(), self.root)
        &&& forall|node: int, slot: int|
            0 <= node < self.blocks.len() && 0 <= slot < self.blocks[node].keys.len() ==> self.fits(
                self.blocks[node].path.push(self.blocks[node].keys[slot]),
                #[trigger] self.blocks[node].links[slot],
            )
    }

    /// Each node is structurally valid.
    pub open spec fn blocks_wf(self, max: nat) -> bool {
        &&& self.blocks.len() <= usize::MAX
        &&& self.root.wf(max)
        &&& forall|node: int| 0 <= node < self.blocks.len() ==> (#[trigger] self.blocks[node]).wf(max)
    }

    /// The node is part of the tree.
    pub open spec fn live(self, node: int) -> bool {
        self.reaches(self.root, self.blocks[node].path, node)
    }

    /// Each node is part of the tree or cannot change any more.
    pub open spec fn settled(self) -> bool {
        forall|node: int|
            0 <= node < self.blocks.len() ==> self.live(node) || (#[trigger] self.blocks[node]).fixed()
    }

    /// No key ends at a node, and every value is stored under a key.
    pub open spec fn keyed(self, is_key: spec_fn(Seq<u8>) -> bool) -> bool {
        &&& self.root.target is Value ==> is_key(self.root.bytes)
        &&& forall|node: int, key: Seq<u8>|
            0 <= node < self.blocks.len() && #[trigger] is_key(key) ==> inner(
                (#[trigger] self.blocks[node]).path,
                key,
            )
        &&& forall|node: int, slot: int|
            0 <= node < self.blocks.len() && 0 <= slot < self.blocks[node].keys.len() && (
            #[trigger] self.blocks[node].links[slot]).target is Value ==> is_key(
                self.blocks[node].path.push(self.blocks[node].keys[slot])
                    + self.blocks[node].links[slot].bytes,
            )
    }

    /// The invariant of shared memory.
    pub open spec fn sound(self, is_key: spec_fn(Seq<u8>) -> bool, max: nat) -> bool {
        &&& self.blocks_wf(max)
        &&& self.consistent()
        &&& self.settled()
        &&& self.keyed(is_key)
        &&& !self.root.frozen
    }

    /// The memory after one word was written and fresh nodes were added.
    pub open spec fn write(self, place: Place, link: Link, fresh: Seq<Block>) -> Memory {
        match place {
            Place::Root => Memory { root: link, blocks: self.blocks + fresh },
            Place::Slot { node, slot } => Memory {
                root: self.root,
                blocks: (self.blocks + fresh).update(
                    node as int,
                    Block {
                        links: self.blocks[node as int].links.update(slot as int, link),
                        ..self.blocks[node as int]
                    },
                ),
            },
        }
    }
}

/// A key either goes on behind `path` or departs from it.
pub open spec fn inner(path: Seq<u8>, key: Seq<u8>) -> bool {
    descends(path, key) || diverge(path, key)
}

/// `prefix` leads to a place that the walk along `key` passes.
pub open spec fn leads(prefix: Seq<u8>, key: Seq<u8>) -> bool {
    prefix.len() <= key.len() && prefix == key.take(prefix.len() as int)
}

/// A sequence of distinct bytes has one slot per byte.
pub proof fn lemma_slot(keys: Seq<u8>, slot: int)
    requires
        keys.no_duplicates(),
        0 <= slot < keys.len(),
    ensures
        keys.contains(keys[slot]),
        slot_of(keys, keys[slot]) == slot,
{
    assert(keys.contains(keys[slot]));
    let s = slot_of(keys, keys[slot]);
    assert(0 <= s < keys.len() && keys[s] == keys[slot]);
}

impl Memory {
    /// Where a walk continues is a place, whose path lies on the walk.
    pub proof fn lemma_next(self, max: nat, path: Seq<u8>, link: Link, key: Seq<u8>)
        requires
            self.blocks_wf(max),
            self.fits(path, link),
        ensures
            self.next(link, key) matches Some(place) ==> {
                &&& place is Slot
                &&& self.valid(place)
                &&& descends(link.bytes, key)
                &&& link.target == Target::Node(place->node)
                &&& self.path(place) == path + link.bytes.push(key[link.bytes.len() as int])
                &&& self.path(place) + rest(link.bytes, key) == path + key
                &&& self.path(place).len() == path.len() + link.bytes.len() + 1
            },
    {
        if let Some(place) = self.next(link, key) {
            let node = link.target->Node_0;
            let block = self.blocks[node as int];
            let b = key[link.bytes.len() as int];
            assert(block.wf(max));
            let s = slot_of(block.keys, b);
            assert(0 <= s < block.keys.len() && block.keys[s] == b);
            assert(block.kind.slots() <= 256);
            assert(place->slot == s);
            lemma_descends(link.bytes, key);
            assert(self.path(place) =~= path + link.bytes.push(b));
            assert(self.path(place) + rest(link.bytes, key) =~= path + key);
        }
    }

    /// Places that exist hold words that fit.
    pub proof fn lemma_at(self, place: Place)
        requires
            self.consistent(),
            self.valid(place),
        ensures
            self.fits(self.path(place), self.at(place)),
    {
        match place {
            Place::Root => {},
            Place::Slot { node, slot } => {
                let link = self.blocks[node as int].links[slot as int];
                assert(self.fits(
                    self.blocks[node as int].path.push(self.blocks[node as int].keys[slot as int]),
                    link,
                ));
            },
        }
    }

    /// What a walk that passes a node finds depends on the node alone.
    pub proof fn lemma_through(self, link: Link, path: Seq<u8>, node: int, key: Seq<u8>)
        requires
            self.reaches(link, path, node),
            0 <= node < self.blocks.len(),
            descends(path, key),
        ensures
            self.get(link, key) == ({
                let found = Link { bytes: path, target: Target::Node(node as usize), frozen: false };
                self.get(found, key)
            }),
            forall|other: int|
                self.reaches(link, key, other) == self.reaches(
                    Link { bytes: path, target: Target::Node(node as usize), frozen: false },
                    key,
                    other,
                ),
        decreases path.len(),
    {
        let found = Link { bytes: path, target: Target::Node(node as usize), frozen: false };
        lemma_descends(path, key);
        if link.target == Target::Node(node as usize) && link.bytes == path {
            assert(self.next(link, key) == self.next(found, key));
            assert forall|other: int| self.reaches(link, key, other) == self.reaches(
                found,
                key,
                other,
            ) by {
                assert(link.bytes != key);
            }
        } else {
            let place = self.next(link, path)->0;
            let tail = rest(link.bytes, path);
            lemma_descends(link.bytes, path);
            lemma_descends(link.bytes, key);
            assert(descends(link.bytes, key));
            assert(key[link.bytes.len() as int] == path[link.bytes.len() as int]);
            assert(self.next(link, key) == Some(place));
            let key_tail = rest(link.bytes, key);
            lemma_descends(tail, key_tail);
            assert(descends(tail, key_tail));
            self.lemma_through(self.at(place), tail, node, key_tail);
            let found_tail = Link {
                bytes: tail,
                target: Target::Node(node as usize),
                frozen: false,
            };
            assert(key_tail[tail.len() as int] == key[path.len() as int]);
            assert(rest(tail, key_tail) =~= rest(path, key));
            assert(self.next(found, key) == self.next(found_tail, key_tail));
            assert(self.get(found, key) == self.get(found_tail, key_tail));
            assert forall|other: int| self.reaches(link, key, other) == self.reaches(
                found,
                key,
                other,
            ) by {
                assert(link.bytes != key);
                assert(path != key);
                assert(tail != key_tail);
                assert(self.reaches(self.at(place), key_tail, other) == self.reaches(
                    found_tail,
                    key_tail,
                    other,
                ));
            }
        }
    }
}

impl Memory {
    /// The place is part of the tree.
    pub open spec fn current(self, place: Place) -> bool {
        match place {
            Place::Root => true,
            Place::Slot { node, .. } => self.live(node as int),
        }
    }

    /// A walk from the root passes the places on its path that are part of
    /// the tree.
    pub proof fn lemma_pass(self, max: nat, place: Place, key: Seq<u8>)
        requires
            self.blocks_wf(max),
            self.valid(place),
            self.current(place),
            leads(self.path(place), key),
        ensures
            self.get(self.root, key) == self.get(
                self.at(place),
                key.skip(self.path(place).len() as int),
            ),
            forall|node: int|
                self.reaches(self.root, key, node) == self.reaches(
                    self.at(place),
                    key.skip(self.path(place).len() as int),
                    node,
                ),
    {
        match place {
            Place::Root => {
                assert(key.skip(0) =~= key);
            },
            Place::Slot { node, slot } => {
                let block = self.blocks[node as int];
                assert(block.wf(max));
                let path = block.path;
                let whole = self.path(place);
                assert forall|i: int| 0 <= i < path.len() implies path[i] == key[i] by {
                    assert(whole[i] == key.take(whole.len() as int)[i]);
                }
                assert(whole[path.len() as int] == key.take(whole.len() as int)[path.len() as int]);
                assert(key[path.len() as int] == block.keys[slot as int]);
                lemma_descends(path, key);
                self.lemma_through(self.root, path, node as int, key);
                lemma_slot(block.keys, slot as int);
                let found = Link { bytes: path, target: Target::Node(node), frozen: false };
                assert(self.next(found, key) == Some(place));
                assert(rest(path, key) =~= key.skip(whole.len() as int));
                assert forall|other: int| self.reaches(self.root, key, other) == self.reaches(
                    self.at(place),
                    key.skip(whole.len() as int),
                    other,
                ) by {
                    assert(self.reaches(self.root, key, other) == self.reaches(found, key, other));
                    assert(path != key);
                }
            },
        }
    }

    /// A write changes what a walk finds only if the walk passes the word.
    pub proof fn lemma_frame(
        self,
        max: nat,
        place: Place,
        new: Link,
        fresh: Seq<Block>,
        path: Seq<u8>,
        link: Link,
        key: Seq<u8>,
    )
        requires
            self.blocks_wf(max),
            self.consistent(),
            self.valid(place),
            self.fits(path, link),
        ensures
            self.write(place, new, fresh).get(link, key) == self.get(link, key) || ({
                let end = self.path(place);
                let written = self.write(place, new, fresh);
                &&& place is Slot
                &&& path.len() < end.len()
                &&& leads(end, path + key)
                &&& written.get(link, key) == written.get(new, (path + key).skip(end.len() as int))
            }),
            forall|node: int|
                #![trigger self.write(place, new, fresh).reaches(link, key, node)]
                self.write(place, new, fresh).reaches(link, key, node) == self.reaches(
                    link,
                    key,
                    node,
                ) || ({
                    let end = self.path(place);
                    let written = self.write(place, new, fresh);
                    &&& place is Slot
                    &&& path.len() < end.len()
                    &&& leads(end, path + key)
                    &&& written.reaches(link, key, node) == written.reaches(
                        new,
                        (path + key).skip(end.len() as int),
                        node,
                    )
                }),
        decreases key.len(),
    {
        let written = self.write(place, new, fresh);
        self.lemma_next(max, path, link, key);
        assert(written.next(link, key) == self.next(link, key));
        if let Some(step) = self.next(link, key) {
            let tail = rest(link.bytes, key);
            let end = self.path(step);
            if step == place {
                assert(written.at(step) == new);
                assert(leads(end, path + key)) by {
                    assert(end =~= (end + tail).take(end.len() as int));
                }
                assert((path + key).skip(end.len() as int) =~= tail) by {
                    assert((end + tail).skip(end.len() as int) =~= tail);
                }
            } else {
                assert(written.at(step) == self.at(step));
                self.lemma_at(step);
                self.lemma_frame(max, place, new, fresh, end, self.at(step), tail);
                assert(end + tail == path + key);
                assert forall|node: int|
                    #![trigger written.reaches(link, key, node)]
                    written.reaches(link, key, node) == self.reaches(link, key, node) || ({
                        let end = self.path(place);
                        &&& place is Slot
                        &&& path.len() < end.len()
                        &&& leads(end, path + key)
                        &&& written.reaches(link, key, node) == written.reaches(
                            new,
                            (path + key).skip(end.len() as int),
                            node,
                        )
                    }) by {
                    lemma_descends(link.bytes, key);
                    assert(link.bytes != key);
                    assert(written.reaches(link, key, node) == written.reaches(
                        self.at(step),
                        tail,
                        node,
                    ));
                    assert(self.reaches(link, key, node) == self.reaches(
                        self.at(step),
                        tail,
                        node,
                    ));
                }
            }
        }
    }

    /// A place whose word is not frozen is part of the tree.
    pub proof fn lemma_unfrozen(self, place: Place)
        requires
            self.settled(),
            self.valid(place),
            !self.at(place).frozen,
        ensures
            self.current(place),
    {
        if let Place::Slot { node, slot } = place {
            assert(!self.blocks[node as int].fixed()) by {
                assert(!self.blocks[node as int].links[slot as int].frozen);
            }
        }
    }

    /// What holds of a word and fresh nodes that are written to a place.
    pub open spec fn writable(
        self,
        is_key: spec_fn(Seq<u8>) -> bool,
        max: nat,
        place: Place,
        new: Link,
        fresh: Seq<Block>,
    ) -> bool {
        let written = self.write(place, new, fresh);
        let end = self.path(place);
        &&& written.blocks.len() <= usize::MAX
        &&& new.wf(max)
        &&& place is Root ==> !new.frozen
        &&& written.fits(end, new)
        &&& new.target is Value ==> is_key(end + new.bytes)
        &&& forall|node: int|
            self.blocks.len() <= node < written.blocks.len() ==> fresh_wf(
                written,
                is_key,
                max,
                end,
                new,
                node,
            )
        &&& forall|path: Seq<u8>, node: int|
            0 <= node < self.blocks.len() && #[trigger] self.reaches(self.at(place), path, node)
                ==> written.reaches(new, path, node) || self.blocks[node].fixed()
    }
}

/// What holds of a fresh node that is written behind a place.
pub open spec fn fresh_wf(
    written: Memory,
    is_key: spec_fn(Seq<u8>) -> bool,
    max: nat,
    end: Seq<u8>,
    new: Link,
    node: int,
) -> bool {
    let block = written.blocks[node];
    &&& block.wf(max)
    &&& leads(end, block.path)
    &&& written.reaches(new, block.path.skip(end.len() as int), node)
    &&& forall|key: Seq<u8>| #[trigger] is_key(key) ==> inner(block.path, key)
    &&& forall|slot: int|
        0 <= slot < block.keys.len() ==> {
            &&& written.fits(block.path.push(block.keys[slot]), #[trigger] block.links[slot])
            &&& block.links[slot].target is Value ==> is_key(
                block.path.push(block.keys[slot]) + block.links[slot].bytes,
            )
        }
}

/// Nodes persist, and what is frozen stays as it is.
pub open spec fn grows(before: Memory, after: Memory) -> bool {
    &&& before.blocks.len() <= after.blocks.len()
    &&& forall|node: int|
        0 <= node < before.blocks.len() ==> block_grows(
            #[trigger] before.blocks[node],
            after.blocks[node],
        )
}

/// A node keeps its kind, its path, its keys and its frozen words.
pub open spec fn block_grows(before: Block, after: Block) -> bool {
    &&& after.kind == before.kind
    &&& after.path == before.path
    &&& before.closed ==> after.closed && after.keys == before.keys
    &&& before.keys.len() <= after.keys.len()
    &&& before.keys.len() <= before.links.len() <= after.links.len()
    &&& forall|slot: int|
        0 <= slot < before.keys.len() ==> #[trigger] after.keys[slot] == before.keys[slot]
    &&& forall|slot: int|
        0 <= slot < before.keys.len() && (#[trigger] before.links[slot]).frozen
            ==> after.links[slot] == before.links[slot]
}

/// What a walk finds is what it found before, or what a walk from the root
/// finds now.
pub open spec fn reads_on(before: Memory, after: Memory) -> bool {
    &&& forall|path: Seq<u8>, link: Link, key: Seq<u8>|
        #![trigger before.fits(path, link), after.get(link, key)]
        before.fits(path, link) ==> after.get(link, key) == before.get(link, key) || after.get(
            link,
            key,
        ) == after.get(after.root, path + key)
    &&& forall|place: Place, key: Seq<u8>|
        #![trigger after.get(after.at(place), key)]
        before.valid(place) ==> after.get(after.at(place), key) == before.get(
            before.at(place),
            key,
        ) || after.get(after.at(place), key) == after.get(after.root, before.path(place) + key)
}

impl Memory {
    /// Writing a word that was not frozen keeps the memory sound.
    #[verifier::rlimit(60)]
    pub proof fn lemma_write(
        self,
        is_key: spec_fn(Seq<u8>) -> bool,
        max: nat,
        place: Place,
        new: Link,
        fresh: Seq<Block>,
    )
        requires
            self.sound(is_key, max),
            self.valid(place),
            !self.at(place).frozen,
            self.writable(is_key, max, place, new, fresh),
        ensures
            self.write(place, new, fresh).sound(is_key, max),
            grows(self, self.write(place, new, fresh)),
            reads_on(self, self.write(place, new, fresh)),
            forall|key: Seq<u8>|
                #![trigger self.write(place, new, fresh).get(self.write(place, new, fresh).root, key)]
                self.write(place, new, fresh).get(self.write(place, new, fresh).root, key) == (
                if leads(self.path(place), key) {
                    self.write(place, new, fresh).get(
                        new,
                        key.skip(self.path(place).len() as int),
                    )
                } else {
                    self.get(self.root, key)
                }),
            forall|key: Seq<u8>|
                leads(self.path(place), key) ==> #[trigger] self.get(self.root, key) == self.get(
                    self.at(place),
                    key.skip(self.path(place).len() as int),
                ),
    {
        let written = self.write(place, new, fresh);
        let end = self.path(place);
        self.lemma_unfrozen(place);
        assert(written.blocks_wf(max)) by {
            assert forall|node: int| 0 <= node < written.blocks.len() implies (
            #[trigger] written.blocks[node]).wf(max) by {
                if node >= self.blocks.len() {
                    assert(fresh_wf(written, is_key, max, end, new, node));
                } else {
                    assert(self.blocks[node].wf(max));
                }
            }
        }
        assert(written.path(place) == end);
        assert(written.at(place) == new);
        assert(written.valid(place));
        assert(written.consistent()) by {
            assert forall|node: int, slot: int|
                0 <= node < written.blocks.len() && 0 <= slot
                    < written.blocks[node].keys.len() implies written.fits(
                written.blocks[node].path.push(written.blocks[node].keys[slot]),
                #[trigger] written.blocks[node].links[slot],
            ) by {
                if node >= self.blocks.len() {
                    assert(fresh_wf(written, is_key, max, end, new, node));
                } else {
                    assert(self.blocks[node].wf(max));
                    let old = self.blocks[node].links[slot];
                    assert(self.fits(
                        self.blocks[node].path.push(self.blocks[node].keys[slot]),
                        old,
                    ));
                }
            }
        }
        assert(written.current(place)) by {
            if let Place::Slot { node, slot } = place {
                let path = self.blocks[node as int].path;
                self.lemma_frame(max, place, new, fresh, Seq::empty(), self.root, path);
                assert(Seq::<u8>::empty() + path =~= path);
                assert(written.reaches(self.root, path, node as int));
            }
        }
        assert(written.settled()) by {
            assert forall|node: int| 0 <= node < written.blocks.len() implies written.live(node)
                || (#[trigger] written.blocks[node]).fixed() by {
                if node >= self.blocks.len() {
                    assert(fresh_wf(written, is_key, max, end, new, node));
                    written.lemma_pass(max, place, written.blocks[node].path);
                } else if place == (Place::Slot { node: node as usize, slot: place->slot }) {
                    assert(written.current(place));
                } else if self.blocks[node].fixed() {
                    assert(written.blocks[node] == self.blocks[node]);
                } else {
                    assert(written.blocks[node] == self.blocks[node]);
                    let path = self.blocks[node].path;
                    assert(self.live(node));
                    self.lemma_frame(max, place, new, fresh, Seq::empty(), self.root, path);
                    assert(Seq::<u8>::empty() + path =~= path);
                    if leads(end, path) {
                        self.lemma_pass(max, place, path);
                        written.lemma_pass(max, place, path);
                        assert(self.reaches(self.at(place), path.skip(end.len() as int), node));
                    } else {
                        assert(place is Slot) by {
                            assert(path.take(0) =~= Seq::<u8>::empty());
                        }
                        assert(written.reaches(self.root, path, node));
                    }
                }
            }
        }
        assert(written.keyed(is_key)) by {
            assert forall|node: int, key: Seq<u8>|
                0 <= node < written.blocks.len() && #[trigger] is_key(key) implies inner(
                (#[trigger] written.blocks[node]).path,
                key,
            ) by {
                if node >= self.blocks.len() {
                    assert(fresh_wf(written, is_key, max, end, new, node));
                } else {
                    assert(inner(self.blocks[node].path, key));
                }
            }
            assert forall|node: int, slot: int|
                0 <= node < written.blocks.len() && 0 <= slot < written.blocks[node].keys.len() && (
                #[trigger] written.blocks[node].links[slot]).target is Value implies is_key(
                written.blocks[node].path.push(written.blocks[node].keys[slot])
                    + written.blocks[node].links[slot].bytes,
            ) by {
                if node >= self.blocks.len() {
                    assert(fresh_wf(written, is_key, max, end, new, node));
                } else {
                    assert(self.blocks[node].wf(max));
                    let old = self.blocks[node].links[slot];
                }
            }
            assert(Seq::<u8>::empty() + new.bytes =~= new.bytes);
        }
        assert(grows(self, written)) by {
            assert forall|node: int| 0 <= node < self.blocks.len() implies block_grows(
                #[trigger] self.blocks[node],
                written.blocks[node],
            ) by {
                assert(self.blocks[node].wf(max));
            }
        }
        assert forall|key: Seq<u8>|
            leads(end, key) implies #[trigger] self.get(self.root, key) == self.get(
            self.at(place),
            key.skip(end.len() as int),
        ) by {
            self.lemma_pass(max, place, key);
        }
        assert forall|key: Seq<u8>| #[trigger] written.get(written.root, key) == (if leads(
            end,
            key,
        ) {
            written.get(new, key.skip(end.len() as int))
        } else {
            self.get(self.root, key)
        }) by {
            if leads(end, key) {
                written.lemma_pass(max, place, key);
            } else {
                assert(place is Slot) by {
                    assert(key.take(0) =~= Seq::<u8>::empty());
                }
                self.lemma_frame(max, place, new, fresh, Seq::empty(), self.root, key);
                assert(Seq::<u8>::empty() + key =~= key);
            }
        }
        assert(reads_on(self, written)) by {
            assert forall|path: Seq<u8>, link: Link, key: Seq<u8>|
                #![trigger self.fits(path, link), written.get(link, key)]
                self.fits(path, link) implies written.get(link, key) == self.get(link, key)
                || written.get(link, key) == written.get(written.root, path + key) by {
                self.lemma_frame(max, place, new, fresh, path, link, key);
            }
            assert forall|other: Place, key: Seq<u8>|
                #![trigger written.get(written.at(other), key)]
                self.valid(other) implies written.get(written.at(other), key) == self.get(
                self.at(other),
                key,
            ) || written.get(written.at(other), key) == written.get(
                written.root,
                self.path(other) + key,
            ) by {
                if other == place {
                    assert(leads(end, end + key)) by {
                        assert((end + key).take(end.len() as int) =~= end);
                    }
                    assert((end + key).skip(end.len() as int) =~= key);
                } else {
                    assert(written.at(other) == self.at(other));
                    self.lemma_at(other);
                    self.lemma_frame(max, place, new, fresh, self.path(other), self.at(other), key);
                }
            }
        }
    }
}

} // verus!
