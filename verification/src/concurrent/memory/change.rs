//! The changes that operations make to shared memory.
use vstd::prelude::*;
use crate::bytes::{common_len, diverge, lemma_common_len, lemma_diverge_at};
use crate::concurrent::memory::{
    block_grows, fresh_wf, grows, inner, leads, lemma_slot, null_link, reads_on, Block, Link,
    Memory, Place, Target,
};
use crate::raw::node::iter::slot_of;
use crate::raw::node::node_256::all_keys;
use crate::raw::node::Type;
use crate::raw::shape::laws::lemma_descends;
use crate::raw::shape::{descends, rest};

verus! {

/// The nodes are the same, up to keys without a child and closed headers.
pub open spec fn alike(before: Memory, after: Memory) -> bool {
    &&& after.root == before.root
    &&& after.blocks.len() == before.blocks.len()
    &&& forall|node: int|
        0 <= node < before.blocks.len() ==> block_alike(
            #[trigger] before.blocks[node],
            after.blocks[node],
        )
}

/// The node is the same, up to keys without a child.
pub open spec fn block_alike(before: Block, after: Block) -> bool {
    &&& after.path == before.path
    &&& after.links == before.links
    &&& before.keys.len() <= after.keys.len() <= 256
    &&& after.keys.no_duplicates()
    &&& forall|slot: int|
        0 <= slot < before.keys.len() ==> #[trigger] after.keys[slot] == before.keys[slot]
    &&& forall|slot: int|
        before.keys.len() <= slot < after.keys.len() ==> #[trigger] after.links[slot] == null_link()
}

/// Walks do not see keys without a child.
pub proof fn lemma_alike(before: Memory, after: Memory, link: Link, key: Seq<u8>)
    requires
        alike(before, after),
    ensures
        after.get(link, key) == before.get(link, key),
        forall|node: int|
            #![trigger after.reaches(link, key, node)]
            #![trigger before.reaches(link, key, node)]
            after.reaches(link, key, node) == before.reaches(link, key, node),
    decreases key.len(),
{
    if let Target::Node(n) = link.target {
        if n < before.blocks.len() && descends(link.bytes, key) {
            let b = key[link.bytes.len() as int];
            let old = before.blocks[n as int];
            let new = after.blocks[n as int];
            assert(block_alike(old, new));
            let tail = rest(link.bytes, key);
            if old.keys.contains(b) {
                let s = slot_of(old.keys, b);
                assert(0 <= s < old.keys.len() && old.keys[s] == b);
                assert(new.keys[s] == b);
                lemma_slot(new.keys, s);
                let place = before.next(link, key)->0;
                assert(after.next(link, key) == Some(place));
                assert(after.at(place) == before.at(place));
                lemma_alike(before, after, before.at(place), tail);
                assert forall|node: int|
                    #![trigger after.reaches(link, key, node)]
                    #![trigger before.reaches(link, key, node)]
                    after.reaches(link, key, node) == before.reaches(link, key, node) by {
                    assert(after.reaches(before.at(place), tail, node) == before.reaches(
                        before.at(place),
                        tail,
                        node,
                    ));
                }
            } else if new.keys.contains(b) {
                let s = slot_of(new.keys, b);
                assert(0 <= s < new.keys.len() && new.keys[s] == b);
                if s < old.keys.len() {
                    assert(old.keys[s] == b);
                }
                assert(new.links[s] == null_link());
                let place = after.next(link, key)->0;
                assert(after.at(place) == null_link());
                assert(after.get(null_link(), tail) is None);
                assert(before.next(link, key) is None);
                assert forall|node: int|
                    #![trigger after.reaches(link, key, node)]
                    #![trigger before.reaches(link, key, node)]
                    after.reaches(link, key, node) == before.reaches(link, key, node) by {
                    assert(!after.reaches(null_link(), tail, node));
                }
            } else {
                assert(after.next(link, key) is None);
                assert(before.next(link, key) is None);
            }
        }
    }
}

/// Changes that walks do not see keep the memory sound.
pub proof fn lemma_alike_sound(
    before: Memory,
    after: Memory,
    is_key: spec_fn(Seq<u8>) -> bool,
    max: nat,
)
    requires
        before.sound(is_key, max),
        alike(before, after),
        after.blocks_wf(max),
        forall|node: int|
            0 <= node < before.blocks.len() ==> {
                &&& (#[trigger] before.blocks[node]).kind == after.blocks[node].kind
                &&& before.blocks[node].closed ==> after.blocks[node].closed
                    && after.blocks[node].keys == before.blocks[node].keys
                &&& before.blocks[node].kind is Node256 ==> after.blocks[node].keys
                    == before.blocks[node].keys
            },
    ensures
        after.sound(is_key, max),
        grows(before, after),
        reads_on(before, after),
        forall|key: Seq<u8>|
            #[trigger] after.get(after.root, key) == before.get(before.root, key),
{
    assert forall|key: Seq<u8>| #[trigger] after.get(after.root, key) == before.get(
        before.root,
        key,
    ) by {
        lemma_alike(before, after, before.root, key);
    }
    assert(after.consistent()) by {
        assert forall|node: int, slot: int|
            0 <= node < after.blocks.len() && 0 <= slot
                < after.blocks[node].keys.len() implies after.fits(
            after.blocks[node].path.push(after.blocks[node].keys[slot]),
            #[trigger] after.blocks[node].links[slot],
        ) by {
            assert(block_alike(before.blocks[node], after.blocks[node]));
            assert(after.blocks[node].links[slot] == before.blocks[node].links[slot]);
            if slot < before.blocks[node].keys.len() {
                assert(after.blocks[node].keys[slot] == before.blocks[node].keys[slot]);
                let link = before.blocks[node].links[slot];
                assert(before.fits(
                    before.blocks[node].path.push(before.blocks[node].keys[slot]),
                    link,
                ));
                if let Target::Node(n) = link.target {
                    assert(block_alike(before.blocks[n as int], after.blocks[n as int]));
                }
            }
        }
        if let Target::Node(n) = before.root.target {
            assert(block_alike(before.blocks[n as int], after.blocks[n as int]));
        }
    }
    assert(after.settled()) by {
        assert forall|node: int| 0 <= node < after.blocks.len() implies after.live(node) || (
        #[trigger] after.blocks[node]).fixed() by {
            assert(block_alike(before.blocks[node], after.blocks[node]));
            if before.live(node) {
                lemma_alike(before, after, before.root, before.blocks[node].path);
                assert(after.reaches(before.root, before.blocks[node].path, node));
            } else {
                assert(before.blocks[node].fixed());
                assert forall|slot: int| 0 <= slot < after.blocks[node].keys.len() implies (
                #[trigger] after.blocks[node].links[slot]).frozen by {
                    assert(before.blocks[node].links[slot].frozen);
                }
            }
        }
    }
    assert(after.keyed(is_key)) by {
        assert forall|node: int, key: Seq<u8>|
            0 <= node < after.blocks.len() && #[trigger] is_key(key) implies inner(
            (#[trigger] after.blocks[node]).path,
            key,
        ) by {
            assert(block_alike(before.blocks[node], after.blocks[node]));
            assert(inner(before.blocks[node].path, key));
        }
        assert forall|node: int, slot: int|
            0 <= node < after.blocks.len() && 0 <= slot < after.blocks[node].keys.len() && (
            #[trigger] after.blocks[node].links[slot]).target is Value implies is_key(
            after.blocks[node].path.push(after.blocks[node].keys[slot])
                + after.blocks[node].links[slot].bytes,
        ) by {
            assert(block_alike(before.blocks[node], after.blocks[node]));
            assert(after.blocks[node].links[slot] == before.blocks[node].links[slot]);
            assert(slot < before.blocks[node].keys.len());
            assert(after.blocks[node].keys[slot] == before.blocks[node].keys[slot]);
        }
    }
    assert(grows(before, after)) by {
        assert forall|node: int| 0 <= node < before.blocks.len() implies block_grows(
            #[trigger] before.blocks[node],
            after.blocks[node],
        ) by {
            assert(before.blocks[node].wf(max));
            assert(block_alike(before.blocks[node], after.blocks[node]));
        }
    }
    assert(reads_on(before, after)) by {
        assert forall|path: Seq<u8>, link: Link, key: Seq<u8>|
            #![trigger before.fits(path, link), after.get(link, key)]
            before.fits(path, link) implies after.get(link, key) == before.get(link, key)
            || after.get(link, key) == after.get(after.root, path + key) by {
            lemma_alike(before, after, link, key);
        }
        assert forall|place: Place, key: Seq<u8>|
            #![trigger after.get(after.at(place), key)]
            before.valid(place) implies after.get(after.at(place), key) == before.get(
            before.at(place),
            key,
        ) || after.get(after.at(place), key) == after.get(after.root, before.path(place) + key) by {
            if let Place::Slot { node, slot } = place {
                assert(block_alike(before.blocks[node as int], after.blocks[node as int]));
            }
            assert(after.at(place) == before.at(place));
            lemma_alike(before, after, before.at(place), key);
        }
    }
}

impl Memory {
    /// The memory after a node was closed.
    pub open spec fn close(self, node: int) -> Memory {
        Memory {
            blocks: self.blocks.update(node, Block { closed: true, ..self.blocks[node] }),
            ..self
        }
    }

    /// The memory after a node got another key.
    pub open spec fn open_slot(self, node: int, key: u8) -> Memory {
        Memory {
            blocks: self.blocks.update(
                node,
                Block { keys: self.blocks[node].keys.push(key), ..self.blocks[node] },
            ),
            ..self
        }
    }

    /// Closing a node keeps the memory sound.
    pub proof fn lemma_close(self, is_key: spec_fn(Seq<u8>) -> bool, max: nat, node: int)
        requires
            self.sound(is_key, max),
            0 <= node < self.blocks.len(),
        ensures
            self.close(node).sound(is_key, max),
            grows(self, self.close(node)),
            reads_on(self, self.close(node)),
            forall|key: Seq<u8>|
                #![trigger self.close(node).get(self.close(node).root, key)]
                self.close(node).get(self.close(node).root, key) == self.get(self.root, key),
    {
        let after = self.close(node);
        assert forall|n: int| 0 <= n < self.blocks.len() implies block_alike(
            #[trigger] self.blocks[n],
            after.blocks[n],
        ) && after.blocks[n].wf(max) by {
            assert(self.blocks[n].wf(max));
        }
        lemma_alike_sound(self, after, is_key, max);
    }

    /// Adding a key without a child keeps the memory sound.
    pub proof fn lemma_open_slot(
        self,
        is_key: spec_fn(Seq<u8>) -> bool,
        max: nat,
        node: int,
        key: u8,
    )
        requires
            self.sound(is_key, max),
            0 <= node < self.blocks.len(),
            !self.blocks[node].closed,
            !self.blocks[node].keys.contains(key),
            self.blocks[node].keys.len() < self.blocks[node].kind.slots(),
        ensures
            self.open_slot(node, key).sound(is_key, max),
            grows(self, self.open_slot(node, key)),
            reads_on(self, self.open_slot(node, key)),
            forall|k: Seq<u8>|
                #![trigger self.open_slot(node, key).get(self.open_slot(node, key).root, k)]
                self.open_slot(node, key).get(self.open_slot(node, key).root, k) == self.get(
                    self.root,
                    k,
                ),
    {
        let after = self.open_slot(node, key);
        assert(self.blocks[node].wf(max));
        if self.blocks[node].kind is Node256 {
            assert(all_keys()[key as int] == key);
            assert(self.blocks[node].keys.contains(key));
        }
        assert forall|n: int| 0 <= n < self.blocks.len() implies block_alike(
            #[trigger] self.blocks[n],
            after.blocks[n],
        ) && after.blocks[n].wf(max) by {
            assert(self.blocks[n].wf(max));
            if n == node {
                let old = self.blocks[n].keys;
                let new = after.blocks[n].keys;
                assert forall|i: int, j: int|
                    0 <= i < new.len() && 0 <= j < new.len() && i != j implies new[i]
                    != new[j] by {
                    if i < old.len() {
                        assert(old.contains(old[i]));
                    }
                    if j < old.len() {
                        assert(old.contains(old[j]));
                    }
                }
            }
        }
        lemma_alike_sound(self, after, is_key, max);
    }

    /// Walks do not see the freeze flag of the word that they start from.
    pub proof fn lemma_flag(self, link: Link, other: Link, key: Seq<u8>)
        requires
            link.bytes == other.bytes,
            link.target == other.target,
        ensures
            self.get(link, key) == self.get(other, key),
            forall|node: int|
                #![trigger self.reaches(link, key, node)]
                #![trigger self.reaches(other, key, node)]
                self.reaches(link, key, node) == self.reaches(other, key, node),
    {
        assert(self.next(link, key) == self.next(other, key));
    }

    /// Walks that start behind the written word are not affected.
    pub proof fn lemma_behind(
        self,
        max: nat,
        place: Place,
        new: Link,
        fresh: Seq<Block>,
        path: Seq<u8>,
        link: Link,
        key: Seq<u8>,
    )
        requires
            self.blocks_wf(max),
            self.consistent(),
            self.valid(place),
            self.fits(path, link),
            self.path(place).len() <= path.len(),
        ensures
            self.write(place, new, fresh).get(link, key) == self.get(link, key),
            forall|node: int|
                #![trigger self.write(place, new, fresh).reaches(link, key, node)]
                #![trigger self.reaches(link, key, node)]
                self.write(place, new, fresh).reaches(link, key, node) == self.reaches(
                    link,
                    key,
                    node,
                ),
    {
        self.lemma_frame(max, place, new, fresh, path, link, key);
        assert forall|node: int|
            #![trigger self.write(place, new, fresh).reaches(link, key, node)]
            #![trigger self.reaches(link, key, node)]
            self.write(place, new, fresh).reaches(link, key, node) == self.reaches(
                link,
                key,
                node,
            ) by {
            assert(self.write(place, new, fresh).reaches(link, key, node) == self.write(
                place,
                new,
                fresh,
            ).reaches(link, key, node));
        }
    }

    /// Freezing a word keeps the memory sound.
    pub proof fn lemma_freeze(self, is_key: spec_fn(Seq<u8>) -> bool, max: nat, place: Place)
        requires
            self.sound(is_key, max),
            self.valid(place),
            place is Slot,
            !self.at(place).frozen,
        ensures
            self.write(place, self.at(place).freeze(), Seq::empty()).sound(is_key, max),
            grows(self, self.write(place, self.at(place).freeze(), Seq::empty())),
            reads_on(self, self.write(place, self.at(place).freeze(), Seq::empty())),
            forall|key: Seq<u8>|
                #![trigger self.write(place, self.at(place).freeze(), Seq::empty()).get(self.root, key)]
                self.write(place, self.at(place).freeze(), Seq::empty()).get(self.root, key)
                    == self.get(self.root, key),
    {
        let old = self.at(place);
        let new = old.freeze();
        let written = self.write(place, new, Seq::empty());
        let end = self.path(place);
        self.lemma_at(place);
        assert(self.fits(end, new));
        assert forall|path: Seq<u8>, node: int|
            0 <= node < self.blocks.len() && #[trigger] self.reaches(old, path, node) implies
            written.reaches(new, path, node) || self.blocks[node].fixed() by {
            self.lemma_flag(old, new, path);
            self.lemma_behind(max, place, new, Seq::empty(), end, new, path);
            assert(self.reaches(new, path, node));
        }
        let node = place->node as int;
        assert(self.blocks[node].wf(max));
        assert(old.target is Value ==> is_key(end + old.bytes)) by {
            let slot = place->slot as int;
            assert(self.blocks[node].links[slot] == old);
        }
        assert(self.writable(is_key, max, place, new, Seq::empty()));
        self.lemma_write(is_key, max, place, new, Seq::empty());
        assert forall|key: Seq<u8>| #[trigger] written.get(self.root, key) == self.get(
            self.root,
            key,
        ) by {
            assert(written.get(written.root, key) == written.get(self.root, key));
            if leads(end, key) {
                let tail = key.skip(end.len() as int);
                self.lemma_flag(old, new, tail);
                self.lemma_behind(max, place, new, Seq::empty(), end, new, tail);
            }
        }
    }
}

/// No key is a prefix of another key.
pub open spec fn prefix_free(is_key: spec_fn(Seq<u8>) -> bool) -> bool {
    forall|a: Seq<u8>, b: Seq<u8>|
        #[trigger] is_key(a) && #[trigger] is_key(b) ==> a == b || diverge(a, b)
}

/// No key ends at a proper prefix of a key.
pub proof fn lemma_inner(is_key: spec_fn(Seq<u8>) -> bool, path: Seq<u8>, full: Seq<u8>)
    requires
        prefix_free(is_key),
        is_key(full),
        leads(path, full),
        path.len() < full.len(),
    ensures
        forall|key: Seq<u8>| #[trigger] is_key(key) ==> inner(path, key),
{
    assert forall|key: Seq<u8>| #[trigger] is_key(key) implies inner(path, key) by {
        assert forall|i: int| 0 <= i < path.len() implies path[i] == full[i] by {
            assert(path[i] == full.take(path.len() as int)[i]);
        }
        if key == full {
            lemma_descends(path, key);
        } else {
            lemma_common_len(full, key);
            let n = common_len(full, key) as int;
            if n < path.len() {
                lemma_diverge_at(path, key, n);
            } else {
                lemma_descends(path, key);
            }
        }
    }
}

impl Memory {
    /// A word can be split in two without a walk noticing.
    pub proof fn lemma_split(self, link: Link, n: int, frozen: bool, key: Seq<u8>)
        requires
            0 <= n < link.bytes.len(),
        ensures
            key.len() > n && key.take(n + 1) == link.bytes.take(n + 1) ==> {
                let tail = Link { bytes: link.bytes.skip(n + 1), target: link.target, frozen };
                &&& self.get(link, key) == self.get(tail, key.skip(n + 1))
                &&& forall|node: int|
                    #![trigger self.reaches(link, key, node)]
                    #![trigger self.reaches(tail, key.skip(n + 1), node)]
                    self.reaches(link, key, node) == self.reaches(tail, key.skip(n + 1), node)
            },
            !(key.len() > n && key.take(n + 1) == link.bytes.take(n + 1)) ==> {
                &&& self.get(link, key) is None
                &&& forall|node: int| !#[trigger] self.reaches(link, key, node)
            },
    {
        let tail = Link { bytes: link.bytes.skip(n + 1), target: link.target, frozen };
        let below = key.skip(n + 1);
        lemma_descends(link.bytes, key);
        if key.len() > n && key.take(n + 1) == link.bytes.take(n + 1) {
            lemma_descends(tail.bytes, below);
            assert forall|i: int| 0 <= i <= n implies key[i] == link.bytes[i] by {
                assert(key.take(n + 1)[i] == link.bytes.take(n + 1)[i]);
            }
            assert(descends(link.bytes, key) ==> descends(tail.bytes, below)) by {
                if descends(link.bytes, key) {
                    assert forall|i: int| 0 <= i < tail.bytes.len() implies tail.bytes[i]
                        == below[i] by {
                        assert(tail.bytes[i] == link.bytes[i + n + 1]);
                    }
                }
            }
            assert(descends(tail.bytes, below) ==> descends(link.bytes, key)) by {
                if descends(tail.bytes, below) {
                    assert forall|i: int| 0 <= i < link.bytes.len() implies link.bytes[i]
                        == key[i] by {
                        if i > n {
                            assert(tail.bytes[i - n - 1] == below[i - n - 1]);
                        }
                    }
                }
            }
            assert(link.bytes == key <==> tail.bytes == below) by {
                assert(link.bytes =~= link.bytes.take(n + 1) + tail.bytes);
                assert(key =~= key.take(n + 1) + below);
            }
            assert(self.next(link, key) == self.next(tail, below));
            if descends(link.bytes, key) {
                assert(rest(link.bytes, key) =~= rest(tail.bytes, below));
            }
        } else {
            assert(link.bytes != key);
            if descends(link.bytes, key) {
                assert(key.take(n + 1) =~= link.bytes.take(n + 1));
            }
        }
    }
}

/// Node that a long path goes through.
pub open spec fn chain_block(path: Seq<u8>, key: Seq<u8>, child: Link, max: nat) -> Block {
    Block {
        kind: Type::Node3,
        keys: seq![key[max as int]],
        closed: false,
        links: seq![child, null_link(), null_link()],
        path: path + key.take(max as int),
    }
}

/// Word that leads to `value` after the bytes of `key`, and the nodes behind
/// it, which are numbered from `base`.
pub open spec fn chain(path: Seq<u8>, key: Seq<u8>, value: u64, max: nat, base: nat) -> (
    Link,
    Seq<Block>,
)
    decreases key.len(),
{
    if key.len() <= max {
        (Link { bytes: key, target: Target::Value(value), frozen: false }, Seq::empty())
    } else {
        let below = chain(
            path + key.take(max as int + 1),
            key.skip(max as int + 1),
            value,
            max,
            base,
        );
        (
            Link {
                bytes: key.take(max as int),
                target: Target::Node((base + below.1.len()) as usize),
                frozen: false,
            },
            below.1.push(chain_block(path, key, below.0, max)),
        )
    }
}

/// The memory holds `blocks`, which are numbered from `base`.
pub open spec fn holds_blocks(memory: Memory, base: nat, blocks: Seq<Block>) -> bool {
    &&& base + blocks.len() <= memory.blocks.len() <= usize::MAX
    &&& forall|i: int|
        0 <= i < blocks.len() ==> #[trigger] memory.blocks[base as int + i] == blocks[i]
}

/// What holds of a node on the way to a value behind `full`.
pub open spec fn chained(
    memory: Memory,
    path: Seq<u8>,
    full: Seq<u8>,
    max: nat,
    link: Link,
    node: int,
) -> bool {
    let block = memory.blocks[node];
    &&& block.wf(max)
    &&& !block.closed
    &&& leads(path, block.path)
    &&& leads(block.path, full)
    &&& block.path.len() < full.len()
    &&& memory.reaches(link, block.path.skip(path.len() as int), node)
    &&& forall|slot: int|
        0 <= slot < block.keys.len() ==> {
            &&& memory.fits(block.path.push(block.keys[slot]), #[trigger] block.links[slot])
            &&& block.links[slot].target is Value ==> block.path.push(block.keys[slot])
                + block.links[slot].bytes == full
        }
}

/// A fresh path leads to its value and to nothing else.
pub proof fn lemma_chain(
    memory: Memory,
    path: Seq<u8>,
    key: Seq<u8>,
    value: u64,
    max: nat,
    base: nat,
)
    requires
        holds_blocks(memory, base, chain(path, key, value, max, base).1),
    ensures
        ({
            let (link, blocks) = chain(path, key, value, max, base);
            &&& link.wf(max)
            &&& !link.frozen
            &&& memory.fits(path, link)
            &&& link.target !is Null
            &&& link.target is Value ==> link.bytes == key
            &&& forall|k: Seq<u8>| #[trigger]
                memory.get(link, k) == (if k == key {
                    Some(value)
                } else {
                    None
                })
            &&& forall|node: int|
                base <= node < base + blocks.len() ==> #[trigger] chained(
                    memory,
                    path,
                    path + key,
                    max,
                    link,
                    node,
                )
        }),
    decreases key.len(),
{
    let (link, blocks) = chain(path, key, value, max, base);
    if key.len() > max {
        let n = max as int;
        let path2 = path + key.take(n + 1);
        let key2 = key.skip(n + 1);
        let (link2, blocks2) = chain(path2, key2, value, max, base);
        let own = (base + blocks2.len()) as int;
        assert(memory.blocks[own] == blocks[blocks2.len() as int]);
        assert forall|i: int| 0 <= i < blocks2.len() implies #[trigger] memory.blocks[base as int
            + i] == blocks2[i] by {
            assert(blocks[i] == blocks2[i]);
        }
        lemma_chain(memory, path2, key2, value, max, base);
        assert(path2 + key2 =~= path + key);
        let block = memory.blocks[own];
        assert(block == chain_block(path, key, link2, max));
        assert(block.keys =~= seq![key[n]]);
        lemma_slot(block.keys, 0);
        assert(block.keys[0] == key[n]);
        assert(block.wf(max)) by {
            assert forall|i: int| 0 <= i < block.links.len() implies (
            #[trigger] block.links[i]).wf(max) by {}
        }
        assert(block.path.push(key[n]) =~= path2) by {
            assert(key.take(n + 1) =~= key.take(n).push(key[n]));
        }
        assert forall|k: Seq<u8>| #[trigger] memory.get(link, k) == (if k == key {
            Some(value)
        } else {
            None
        }) by {
            lemma_descends(link.bytes, k);
            lemma_descends(link.bytes, key);
            if descends(link.bytes, k) && k[n] == key[n] {
                let tail = rest(link.bytes, k);
                assert(memory.next(link, k) == Some(Place::Slot { node: own as usize, slot: 0 }));
                assert(memory.get(link, k) == memory.get(link2, tail));
                assert(tail == key2 <==> k == key) by {
                    assert(k =~= key.take(n + 1) + tail);
                    assert(key =~= key.take(n + 1) + key2);
                }
            } else {
                if descends(link.bytes, k) {
                    assert(!block.keys.contains(k[n]));
                }
                assert(memory.next(link, k) is None);
                assert(k != key);
            }
        }
        assert forall|node: int| base <= node < base + blocks.len() implies #[trigger] chained(
            memory,
            path,
            path + key,
            max,
            link,
            node,
        ) by {
            let b = memory.blocks[node];
            if node == own {
                assert(b.path.skip(path.len() as int) =~= key.take(n));
                assert((path + key).take(b.path.len() as int) =~= b.path);
                assert(b.path.take(path.len() as int) =~= path);
                assert(b.links[0] == link2);
                assert(link2.target is Value ==> b.path.push(b.keys[0]) + link2.bytes
                    == path + key);
            } else {
                assert(chained(memory, path2, path2 + key2, max, link2, node));
                let goal = b.path.skip(path.len() as int);
                assert(b.path.take(path2.len() as int) == path2);
                assert(b.path.take(path.len() as int) =~= path) by {
                    assert forall|i: int| 0 <= i < path.len() implies b.path[i] == path[i] by {
                        assert(b.path[i] == b.path.take(path2.len() as int)[i]);
                    }
                }
                assert forall|i: int| 0 <= i <= n implies goal[i] == key[i] by {
                    assert(goal[i] == b.path[i + path.len()]);
                    assert(b.path.take(path2.len() as int)[i + path.len()] == path2[i
                        + path.len()]);
                }
                lemma_descends(link.bytes, goal);
                assert(memory.next(link, goal) == Some(
                    Place::Slot { node: own as usize, slot: 0 },
                ));
                assert(rest(link.bytes, goal) =~= b.path.skip(path2.len() as int));
                assert(memory.reaches(link, goal, node));
            }
        }
    } else {
        assert forall|k: Seq<u8>| #[trigger] memory.get(link, k) == (if k == key {
            Some(value)
        } else {
            None
        }) by {}
    }
}

/// Node that is put where a key departs from a word.
pub open spec fn fork_block(path: Seq<u8>, old: Link, key: Seq<u8>, child: Link) -> Block {
    let n = common_len(old.bytes, key) as int;
    Block {
        kind: Type::Node3,
        keys: seq![key[n], old.bytes[n]],
        closed: false,
        links: seq![
            child,
            Link { bytes: old.bytes.skip(n + 1), target: old.target, frozen: false },
            null_link(),
        ],
        path: path + key.take(n),
    }
}

/// What replaces the word `old` behind `path` in order to store `value` under
/// `key`: a word and the nodes behind it, which are numbered from `base`.
///
/// The word is split where the key departs from it.
pub open spec fn grown(
    path: Seq<u8>,
    old: Link,
    key: Seq<u8>,
    value: u64,
    max: nat,
    base: nat,
) -> (Link, Seq<Block>) {
    let n = common_len(old.bytes, key) as int;
    if n < old.bytes.len() {
        let below = chain(path + key.take(n + 1), key.skip(n + 1), value, max, base);
        (
            Link {
                bytes: old.bytes.take(n),
                target: Target::Node((base + below.1.len()) as usize),
                frozen: false,
            },
            below.1.push(fork_block(path, old, key, below.0)),
        )
    } else {
        chain(path, key, value, max, base)
    }
}

/// `key` can be stored at the word without looking further.
pub open spec fn growable(old: Link, key: Seq<u8>) -> bool {
    match old.target {
        Target::Null => old.bytes == Seq::<u8>::empty(),
        Target::Value(_) => old.bytes == key || diverge(old.bytes, key),
        Target::Node(_) => diverge(old.bytes, key),
    }
}

impl Memory {
    /// The word and the node that are put where a key departs from a word.
    #[verifier::rlimit(40)]
    proof fn lemma_fork(
        self,
        is_key: spec_fn(Seq<u8>) -> bool,
        max: nat,
        place: Place,
        full: Seq<u8>,
        value: u64,
    )
        requires
            self.sound(is_key, max),
            self.valid(place),
            prefix_free(is_key),
            is_key(full),
            leads(self.path(place), full),
            diverge(self.at(place).bytes, full.skip(self.path(place).len() as int)),
            self.at(place).target !is Null,
            self.blocks.len() + grown(
                self.path(place),
                self.at(place),
                full.skip(self.path(place).len() as int),
                value,
                max,
                self.blocks.len(),
            ).1.len() <= usize::MAX,
        ensures
            ({
                let end = self.path(place);
                let key = full.skip(end.len() as int);
                let old = self.at(place);
                let base = self.blocks.len();
                let (new, fresh) = grown(end, old, key, value, max, base);
                let written = self.write(place, new, fresh);
                let n = common_len(old.bytes, key) as int;
                let path2 = end + key.take(n + 1);
                let key2 = key.skip(n + 1);
                let (link2, blocks2) = chain(path2, key2, value, max, base);
                let own = (base + blocks2.len()) as int;
                let block = written.blocks[own];
                let old2 = Link { bytes: old.bytes.skip(n + 1), target: old.target, frozen: false };
                let place0 = Place::Slot { node: own as usize, slot: 0 };
                let place1 = Place::Slot { node: own as usize, slot: 1 };
                let path1 = end + old.bytes.take(n + 1);
                &&& n < old.bytes.len()
                &&& n < key.len()
                &&& key[n] != old.bytes[n]
                &&& key.take(n) == old.bytes.take(n)
                &&& full == end + key
                &&& path2 + key2 == full
                &&& path1 + old2.bytes == end + old.bytes
                &&& new.bytes == old.bytes.take(n)
                &&& new.target == Target::Node(own as usize)
                &&& old.wf(max)
                &&& base <= own < written.blocks.len()
                &&& written.blocks.len() == own + 1
                &&& block.keys == seq![key[n], old.bytes[n]]
                &&& block.links == seq![link2, old2, null_link()]
                &&& block.kind is Node3
                &&& !block.closed
                &&& block.keys.no_duplicates()
                &&& slot_of(block.keys, key[n]) == 0
                &&& slot_of(block.keys, old.bytes[n]) == 1
                &&& block.keys.contains(key[n])
                &&& block.keys.contains(old.bytes[n])
                &&& block.path == end + key.take(n)
                &&& block.path.push(key[n]) == path2
                &&& block.path.push(old.bytes[n]) == path1
                &&& self.fits(path1, old2)
                &&& written.fits(path1, old2)
                &&& written.fits(end, new)
                &&& holds_blocks(written, base, blocks2)
            }),
    {
        let end = self.path(place);
        let key = full.skip(end.len() as int);
        let old = self.at(place);
        let base = self.blocks.len();
        let (new, fresh) = grown(end, old, key, value, max, base);
        let written = self.write(place, new, fresh);
        let n = common_len(old.bytes, key) as int;
        let path2 = end + key.take(n + 1);
        let key2 = key.skip(n + 1);
        let (link2, blocks2) = chain(path2, key2, value, max, base);
        let own = (base + blocks2.len()) as int;
        let block = written.blocks[own];
        let old2 = Link { bytes: old.bytes.skip(n + 1), target: old.target, frozen: false };
        let place0 = Place::Slot { node: own as usize, slot: 0 };
        let place1 = Place::Slot { node: own as usize, slot: 1 };
        let path1 = end + old.bytes.take(n + 1);
        assert(full =~= end + key) by {
            assert(full =~= full.take(end.len() as int) + key);
        }
        self.lemma_at(place);
        assert(old.wf(max)) by {
            if let Place::Slot { node, slot } = place {
                assert(self.blocks[node as int].wf(max));
            }
        }
        lemma_common_len(old.bytes, key);
        assert forall|i: int| 0 <= i < fresh.len() implies #[trigger] written.blocks[base as int
            + i] == fresh[i] by {}
        assert(path2 + key2 =~= full);
        assert forall|i: int| 0 <= i < blocks2.len() implies #[trigger] written.blocks[base as int
            + i] == blocks2[i] by {
            assert(fresh[i] == blocks2[i]);
        }
        assert(written.blocks[base as int + blocks2.len()] == fresh[blocks2.len() as int]);
        assert(block == fork_block(end, old, key, link2));
        assert(block.keys =~= seq![key[n], old.bytes[n]]);
        assert(block.keys[0] == key[n] && block.keys[1] == old.bytes[n]);
        assert(block.keys.no_duplicates());
        lemma_slot(block.keys, 0);
        lemma_slot(block.keys, 1);
        assert(key.take(n) =~= old.bytes.take(n));
        assert(path1 + old2.bytes =~= end + old.bytes);
        assert(block.path.push(key[n]) =~= path2) by {
            assert(key.take(n + 1) =~= key.take(n).push(key[n]));
        }
        assert(block.path.push(old.bytes[n]) =~= path1) by {
            assert(old.bytes.take(n + 1) =~= old.bytes.take(n).push(old.bytes[n]));
        }
        assert(written.fits(path1, old2)) by {
            if let Target::Node(c) = old2.target {
                assert(written.blocks[c as int].path == self.blocks[c as int].path);
            }
        }
    }

    /// What the word leads to after the fork.
    #[verifier::rlimit(40)]
    proof fn lemma_fork_get(
        self,
        is_key: spec_fn(Seq<u8>) -> bool,
        max: nat,
        place: Place,
        full: Seq<u8>,
        value: u64,
        k: Seq<u8>,
    )
        requires
            self.sound(is_key, max),
            self.valid(place),
            prefix_free(is_key),
            is_key(full),
            leads(self.path(place), full),
            diverge(self.at(place).bytes, full.skip(self.path(place).len() as int)),
            self.at(place).target !is Null,
            self.blocks.len() + grown(
                self.path(place),
                self.at(place),
                full.skip(self.path(place).len() as int),
                value,
                max,
                self.blocks.len(),
            ).1.len() <= usize::MAX,
        ensures
            ({
                let end = self.path(place);
                let key = full.skip(end.len() as int);
                let (new, fresh) = grown(end, self.at(place), key, value, max, self.blocks.len());
                self.write(place, new, fresh).get(new, k) == (if k == key {
                    Some(value)
                } else {
                    self.get(self.at(place), k)
                })
            }),
    {
        let end = self.path(place);
        let key = full.skip(end.len() as int);
        let old = self.at(place);
        let base = self.blocks.len();
        let (new, fresh) = grown(end, old, key, value, max, base);
        let written = self.write(place, new, fresh);
        let n = common_len(old.bytes, key) as int;
        let path2 = end + key.take(n + 1);
        let key2 = key.skip(n + 1);
        let (link2, blocks2) = chain(path2, key2, value, max, base);
        let own = (base + blocks2.len()) as int;
        let block = written.blocks[own];
        let old2 = Link { bytes: old.bytes.skip(n + 1), target: old.target, frozen: false };
        let place0 = Place::Slot { node: own as usize, slot: 0 };
        let place1 = Place::Slot { node: own as usize, slot: 1 };
        let path1 = end + old.bytes.take(n + 1);
        self.lemma_fork(is_key, max, place, full, value);
        lemma_chain(written, path2, key2, value, max, base);
        assert(written.at(place0) == link2);
        assert(written.at(place1) == old2);
        lemma_descends(new.bytes, k);
        self.lemma_split(old, n, false, k);
        if descends(new.bytes, k) && k[n] == key[n] {
            let tail = rest(new.bytes, k);
            assert(written.next(new, k) == Some(place0));
            assert(tail == key2 <==> k == key) by {
                assert(k =~= key.take(n + 1) + tail);
                assert(key =~= key.take(n + 1) + key2);
            }
            assert(k.take(n + 1)[n] != old.bytes.take(n + 1)[n]);
            assert(self.get(old, k) is None);
            assert(written.get(new, k) == written.get(link2, tail));
        } else if descends(new.bytes, k) && k[n] == old.bytes[n] {
            let tail = rest(new.bytes, k);
            assert(written.next(new, k) == Some(place1));
            assert(k.take(n + 1) =~= old.bytes.take(n + 1));
            self.lemma_behind(max, place, new, fresh, path1, old2, tail);
            assert(tail =~= k.skip(n + 1));
            assert(written.get(new, k) == written.get(old2, tail));
            assert(k != key);
        } else {
            if descends(new.bytes, k) {
                assert(!block.keys.contains(k[n]));
            }
            assert(written.next(new, k) is None);
            if k.len() > n && k.take(n + 1) == old.bytes.take(n + 1) {
                assert forall|i: int| 0 <= i < n implies new.bytes[i] == k[i] by {
                    assert(k.take(n + 1)[i] == old.bytes.take(n + 1)[i]);
                }
                assert(k.take(n + 1)[n] == old.bytes.take(n + 1)[n]);
            }
            assert(self.get(old, k) is None);
            assert(written.get(new, k) is None);
            if k == key {
                assert(descends(new.bytes, key)) by {
                    lemma_descends(new.bytes, key);
                }
            }
        }
    }

    /// Nodes behind the word stay reachable after the fork.
    #[verifier::rlimit(40)]
    proof fn lemma_fork_reaches(
        self,
        is_key: spec_fn(Seq<u8>) -> bool,
        max: nat,
        place: Place,
        full: Seq<u8>,
        value: u64,
        path: Seq<u8>,
        node: int,
    )
        requires
            self.sound(is_key, max),
            self.valid(place),
            prefix_free(is_key),
            is_key(full),
            leads(self.path(place), full),
            diverge(self.at(place).bytes, full.skip(self.path(place).len() as int)),
            self.at(place).target !is Null,
            self.blocks.len() + grown(
                self.path(place),
                self.at(place),
                full.skip(self.path(place).len() as int),
                value,
                max,
                self.blocks.len(),
            ).1.len() <= usize::MAX,
            0 <= node < self.blocks.len(),
            self.reaches(self.at(place), path, node),
        ensures
            ({
                let end = self.path(place);
                let key = full.skip(end.len() as int);
                let (new, fresh) = grown(end, self.at(place), key, value, max, self.blocks.len());
                self.write(place, new, fresh).reaches(new, path, node)
            }),
    {
        let end = self.path(place);
        let key = full.skip(end.len() as int);
        let old = self.at(place);
        let base = self.blocks.len();
        let (new, fresh) = grown(end, old, key, value, max, base);
        let written = self.write(place, new, fresh);
        let n = common_len(old.bytes, key) as int;
        let path2 = end + key.take(n + 1);
        let key2 = key.skip(n + 1);
        let (link2, blocks2) = chain(path2, key2, value, max, base);
        let own = (base + blocks2.len()) as int;
        let block = written.blocks[own];
        let old2 = Link { bytes: old.bytes.skip(n + 1), target: old.target, frozen: false };
        let place0 = Place::Slot { node: own as usize, slot: 0 };
        let place1 = Place::Slot { node: own as usize, slot: 1 };
        let path1 = end + old.bytes.take(n + 1);
        self.lemma_fork(is_key, max, place, full, value);
        assert(written.at(place1) == old2);
        self.lemma_split(old, n, false, path);
        assert(path.len() > n && path.take(n + 1) == old.bytes.take(n + 1));
        assert forall|i: int| 0 <= i <= n implies path[i] == old.bytes[i] by {
            assert(path.take(n + 1)[i] == old.bytes.take(n + 1)[i]);
        }
        lemma_descends(new.bytes, path);
        let tail = rest(new.bytes, path);
        assert(tail =~= path.skip(n + 1));
        assert(written.next(new, path) == Some(place1));
        self.lemma_behind(max, place, new, fresh, path1, old2, tail);
        assert(self.reaches(old2, tail, node));
        assert(written.reaches(old2, tail, node));
    }

    /// The nodes that the fork adds.
    #[verifier::rlimit(40)]
    proof fn lemma_fork_fresh(
        self,
        is_key: spec_fn(Seq<u8>) -> bool,
        max: nat,
        place: Place,
        full: Seq<u8>,
        value: u64,
        node: int,
    )
        requires
            self.sound(is_key, max),
            self.valid(place),
            prefix_free(is_key),
            is_key(full),
            leads(self.path(place), full),
            diverge(self.at(place).bytes, full.skip(self.path(place).len() as int)),
            self.at(place).target !is Null,
            self.blocks.len() + grown(
                self.path(place),
                self.at(place),
                full.skip(self.path(place).len() as int),
                value,
                max,
                self.blocks.len(),
            ).1.len() <= usize::MAX,
            self.blocks.len() <= node,
            ({
                let end = self.path(place);
                let key = full.skip(end.len() as int);
                let (new, fresh) = grown(end, self.at(place), key, value, max, self.blocks.len());
                node < self.write(place, new, fresh).blocks.len()
            }),
        ensures
            ({
                let end = self.path(place);
                let key = full.skip(end.len() as int);
                let (new, fresh) = grown(end, self.at(place), key, value, max, self.blocks.len());
                fresh_wf(self.write(place, new, fresh), is_key, max, end, new, node)
            }),
    {
        let end = self.path(place);
        let key = full.skip(end.len() as int);
        let old = self.at(place);
        let base = self.blocks.len();
        let (new, fresh) = grown(end, old, key, value, max, base);
        let written = self.write(place, new, fresh);
        let n = common_len(old.bytes, key) as int;
        let path2 = end + key.take(n + 1);
        let key2 = key.skip(n + 1);
        let (link2, blocks2) = chain(path2, key2, value, max, base);
        let own = (base + blocks2.len()) as int;
        let block = written.blocks[own];
        let old2 = Link { bytes: old.bytes.skip(n + 1), target: old.target, frozen: false };
        let place0 = Place::Slot { node: own as usize, slot: 0 };
        let place1 = Place::Slot { node: own as usize, slot: 1 };
        let path1 = end + old.bytes.take(n + 1);
        self.lemma_fork(is_key, max, place, full, value);
        lemma_chain(written, path2, key2, value, max, base);
        assert(written.at(place0) == link2);
        let b = written.blocks[node];
        if node == own {
            assert(block.wf(max)) by {
                assert forall|i: int| 0 <= i < block.links.len() implies (
                #[trigger] block.links[i]).wf(max) by {}
            }
            assert(b.path.take(end.len() as int) =~= end);
            assert(b.path.skip(end.len() as int) =~= new.bytes);
            assert(full.take(b.path.len() as int) =~= b.path);
            lemma_inner(is_key, b.path, full);
            assert forall|slot: int| 0 <= slot < b.keys.len() implies {
                &&& written.fits(b.path.push(b.keys[slot]), #[trigger] b.links[slot])
                &&& b.links[slot].target is Value ==> is_key(
                    b.path.push(b.keys[slot]) + b.links[slot].bytes,
                )
            } by {
                if slot == 1 {
                    self.lemma_stored(is_key, place);
                }
            }
        } else {
            assert(chained(written, path2, full, max, link2, node));
            assert(b.path.take(path2.len() as int) == path2);
            assert(b.path.take(end.len() as int) =~= end) by {
                assert forall|i: int| 0 <= i < end.len() implies b.path[i] == end[i] by {
                    assert(b.path[i] == b.path.take(path2.len() as int)[i]);
                }
            }
            let goal = b.path.skip(end.len() as int);
            assert forall|i: int| 0 <= i <= n implies goal[i] == key[i] by {
                assert(goal[i] == b.path[i + end.len()]);
                assert(b.path.take(path2.len() as int)[i + end.len()] == path2[i
                    + end.len()]);
            }
            lemma_descends(new.bytes, goal);
            assert(written.next(new, goal) == Some(place0));
            assert(rest(new.bytes, goal) =~= b.path.skip(path2.len() as int));
            assert(written.reaches(new, goal, node));
            lemma_inner(is_key, b.path, full);
        }
    }
}

impl Memory {
    /// Storing a value where a walk along its key ends keeps the memory sound
    /// and changes the value of that key alone.
    #[verifier::rlimit(80)]
    #[verifier::spinoff_prover]
    pub proof fn lemma_grow(
        self,
        is_key: spec_fn(Seq<u8>) -> bool,
        max: nat,
        place: Place,
        full: Seq<u8>,
        value: u64,
    )
        requires
            self.sound(is_key, max),
            self.valid(place),
            !self.at(place).frozen,
            prefix_free(is_key),
            is_key(full),
            leads(self.path(place), full),
            growable(self.at(place), full.skip(self.path(place).len() as int)),
            self.blocks.len() + grown(
                self.path(place),
                self.at(place),
                full.skip(self.path(place).len() as int),
                value,
                max,
                self.blocks.len(),
            ).1.len() <= usize::MAX,
        ensures
            ({
                let end = self.path(place);
                let key = full.skip(end.len() as int);
                let (new, fresh) = grown(
                    end,
                    self.at(place),
                    key,
                    value,
                    max,
                    self.blocks.len(),
                );
                let written = self.write(place, new, fresh);
                &&& written.sound(is_key, max)
                &&& grows(self, written)
                &&& reads_on(self, written)
                &&& forall|k: Seq<u8>| #[trigger]
                    written.get(written.root, k) == (if k == full {
                        Some(value)
                    } else {
                        self.get(self.root, k)
                    })
                &&& self.get(self.root, full) == self.get(self.at(place), key)
            }),
    {
        let end = self.path(place);
        let key = full.skip(end.len() as int);
        let old = self.at(place);
        let base = self.blocks.len();
        let (new, fresh) = grown(end, old, key, value, max, base);
        let written = self.write(place, new, fresh);
        assert(full =~= end + key) by {
            assert(full =~= full.take(end.len() as int) + key);
        }
        self.lemma_at(place);
        assert(old.wf(max)) by {
            if let Place::Slot { node, slot } = place {
                assert(self.blocks[node as int].wf(max));
            }
        }
        lemma_common_len(old.bytes, key);
        let n = common_len(old.bytes, key) as int;
        assert forall|i: int| 0 <= i < fresh.len() implies #[trigger] written.blocks[base as int
            + i] == fresh[i] by {}
        if n < old.bytes.len() {
            assert(diverge(old.bytes, key)) by {
                if old.bytes == key {
                    lemma_common_len(key, key);
                }
            }
            self.lemma_fork(is_key, max, place, full, value);
            assert forall|k: Seq<u8>| #[trigger] written.get(new, k) == (if k == key {
                Some(value)
            } else {
                self.get(old, k)
            }) by {
                self.lemma_fork_get(is_key, max, place, full, value, k);
            }
            assert forall|path: Seq<u8>, node: int|
                0 <= node < self.blocks.len() && #[trigger] self.reaches(old, path, node) implies
                written.reaches(new, path, node) || self.blocks[node].fixed() by {
                self.lemma_fork_reaches(is_key, max, place, full, value, path, node);
            }
            assert forall|node: int|
                base <= node < written.blocks.len() implies fresh_wf(
                written,
                is_key,
                max,
                end,
                new,
                node,
            ) by {
                self.lemma_fork_fresh(is_key, max, place, full, value, node);
            }
            assert(written.fits(end, new));
        } else {
            assert(old.target !is Node);
            lemma_chain(written, end, key, value, max, base);
            assert forall|node: int|
                base <= node < written.blocks.len() implies fresh_wf(
                written,
                is_key,
                max,
                end,
                new,
                node,
            ) by {
                assert(chained(written, end, full, max, new, node));
                lemma_inner(is_key, written.blocks[node].path, full);
            }
            assert forall|k: Seq<u8>| #[trigger] written.get(new, k) == (if k == key {
                Some(value)
            } else {
                self.get(old, k)
            }) by {
                if old.target is Value {
                    assert(old.bytes =~= key);
                }
            }
        }
        assert(self.writable(is_key, max, place, new, fresh));
        self.lemma_write(is_key, max, place, new, fresh);
        assert forall|k: Seq<u8>| #[trigger] written.get(written.root, k) == (if k == full {
            Some(value)
        } else {
            self.get(self.root, k)
        }) by {
            if leads(end, k) {
                let tail = k.skip(end.len() as int);
                assert(k =~= end + tail) by {
                    assert(k =~= k.take(end.len() as int) + tail);
                }
                assert(self.get(self.root, k) == self.get(old, tail));
                assert(written.get(new, tail) == (if tail == key {
                    Some(value)
                } else {
                    self.get(old, tail)
                }));
            }
        }
    }

    /// The value at a place is stored under a key.
    pub proof fn lemma_stored(self, is_key: spec_fn(Seq<u8>) -> bool, place: Place)
        requires
            self.keyed(is_key),
            self.valid(place),
        ensures
            self.at(place).target is Value ==> is_key(self.path(place) + self.at(place).bytes),
    {
        match place {
            Place::Root => {
                assert(Seq::<u8>::empty() + self.root.bytes =~= self.root.bytes);
            },
            Place::Slot { node, slot } => {
                let link = self.blocks[node as int].links[slot as int];
            },
        }
    }

    /// Removing the value that a word leads to keeps the memory sound and
    /// changes the value of that key alone.
    #[verifier::rlimit(40)]
    pub proof fn lemma_clear(
        self,
        is_key: spec_fn(Seq<u8>) -> bool,
        max: nat,
        place: Place,
        full: Seq<u8>,
    )
        requires
            self.sound(is_key, max),
            self.valid(place),
            !self.at(place).frozen,
            self.at(place).target is Value,
            full == self.path(place) + self.at(place).bytes,
        ensures
            ({
                let written = self.write(place, null_link(), Seq::empty());
                &&& written.sound(is_key, max)
                &&& grows(self, written)
                &&& reads_on(self, written)
                &&& forall|k: Seq<u8>| #[trigger]
                    written.get(written.root, k) == (if k == full {
                        None
                    } else {
                        self.get(self.root, k)
                    })
                &&& self.get(self.root, full) == Some(self.at(place).target->Value_0)
            }),
    {
        let end = self.path(place);
        let old = self.at(place);
        let new = null_link();
        let written = self.write(place, new, Seq::empty());
        assert(self.writable(is_key, max, place, new, Seq::empty()));
        self.lemma_write(is_key, max, place, new, Seq::empty());
        assert(full.take(end.len() as int) =~= end);
        assert(full.skip(end.len() as int) =~= old.bytes);
        assert forall|k: Seq<u8>| #[trigger] written.get(written.root, k) == (if k == full {
            None
        } else {
            self.get(self.root, k)
        }) by {
            if leads(end, k) {
                let tail = k.skip(end.len() as int);
                assert(k =~= end + tail) by {
                    assert(k =~= k.take(end.len() as int) + tail);
                }
                assert(self.get(self.root, k) == self.get(old, tail));
            }
        }
    }
}

} // verus!
