//! A tree in shared memory, and the atomic accesses to it.
//!
//! Every function here stands for one atomic access. Operations interleave
//! such accesses, see [`crate::concurrent::operation`].
use vstd::prelude::*;
use crate::concurrent::memory::change::{
    chain, chain_block, fork_block, growable, grown, prefix_free,
};
use crate::concurrent::memory::live::unlinked;
use crate::concurrent::memory::replace::{child, outcome_of, replaced, Outcome};
use crate::concurrent::memory::{
    grows, leads, lemma_slot, null_link, reads_on, Block, Link, Memory, Place, Target,
};
use crate::bytes::{diverge, lemma_common_len};
use crate::raw::cursor::lemma_no_duplicates_len;
use crate::raw::edge::Meta;
use crate::raw::key::{Key, Read};
use crate::raw::node::header::Header;
use crate::raw::node::iter::{
    distinct, in_key_order, in_slot_order, lemma_in_key_order, lemma_in_slot_order, slot_of, KeyIndex, KeyIter,
};
use crate::raw::node::node_256::all_keys;
use crate::raw::node::Type;
use crate::raw::shape::kind_for;
use crate::raw::Smo;

verus! {

/// An edge word.
pub struct Word<M> {
    pub meta: M,
    pub target: Target,
    pub frozen: bool,
}

impl<M: Meta> Copy for Word<M> {}

impl<M: Meta> Clone for Word<M> {
    fn clone(&self) -> (word: Self)
        ensures
            word == *self,
    {
        *self
    }
}

impl<M: Meta> Word<M> {
    /// What the word says.
    pub open spec fn link(self) -> Link {
        Link { bytes: self.meta.bytes(), target: self.target, frozen: self.frozen }
    }

    /// Word without a child.
    pub fn null() -> (word: Self)
        ensures
            word.meta.valid(),
            word.link() == null_link(),
    {
        Word { meta: M::null(), target: Target::Null, frozen: false }
    }

    /// Whether two words are the same.
    pub fn same(&self, other: &Self) -> (same: bool)
        requires
            self.meta.valid(),
            other.meta.valid(),
        ensures
            same == (self.link() == other.link()),
    {
        if self.target != other.target || self.frozen != other.frozen {
            return false;
        }
        let len: usize = self.meta.len();
        if len != other.meta.len() {
            return false;
        }
        let mut i: usize = 0;
        while i < len
            invariant
                self.meta.valid(),
                other.meta.valid(),
                len == self.meta.bytes().len() == other.meta.bytes().len(),
                i <= len,
                forall|j: int| 0 <= j < i ==> self.meta.bytes()[j] == other.meta.bytes()[j],
            decreases len - i,
        {
            if self.meta.get(i) != other.meta.get(i) {
                return false;
            }
            i += 1;
        }
        assert(self.meta.bytes() =~= other.meta.bytes());
        true
    }
}

/// A node with one word per slot.
pub struct SharedNode<M> {
    pub header: Header,
    pub words: Vec<Word<M>>,
    /// Bytes that lead from the root to the node.
    pub path: Ghost<Seq<u8>>,
}

/// What a sequence of words says.
pub open spec fn links<M: Meta>(words: Seq<Word<M>>) -> Seq<Link> {
    Seq::new(words.len(), |i: int| words[i].link())
}

impl<M: Meta> SharedNode<M> {
    /// Validity of the representation.
    pub open spec fn wf(self) -> bool {
        &&& self.header.wf()
        &&& forall|i: int| 0 <= i < self.words@.len() ==> (#[trigger] self.words@[i]).meta.valid()
    }

    /// The node as a block of memory.
    pub open spec fn block(self) -> Block {
        Block {
            kind: self.header.kind(),
            keys: self.header@,
            closed: self.header.frozen(),
            links: links(self.words@),
            path: self.path@,
        }
    }
}

/// A sequence of nodes as blocks of memory.
pub open spec fn blocks<M: Meta>(nodes: Seq<SharedNode<M>>) -> Seq<Block> {
    Seq::new(nodes.len(), |i: int| nodes[i].block())
}

/// Each node is represented validly.
pub open spec fn nodes_wf<M: Meta>(nodes: Seq<SharedNode<M>>) -> bool {
    forall|i: int| 0 <= i < nodes.len() ==> (#[trigger] nodes[i]).wf()
}

/// Byte sequences that are keys.
pub open spec fn key_set<K: Key>() -> spec_fn(Seq<u8>) -> bool {
    |key: Seq<u8>| K::is_key(key)
}

/// Value of a key in a map.
pub open spec fn lookup(map: Map<Seq<u8>, u64>, key: Seq<u8>) -> Option<u64> {
    if map.contains_key(key) {
        Some(map[key])
    } else {
        None
    }
}

/// A tree in shared memory.
pub struct Tree<K: Key> {
    pub root: Word<K::Edge>,
    pub nodes: Vec<SharedNode<K::Edge>>,
    /// What the tree mapped keys to, each time that this changed.
    pub history: Ghost<Seq<Map<Seq<u8>, u64>>>,
}

impl<K: Key> View for Tree<K> {
    type V = Map<Seq<u8>, u64>;

    /// What the tree maps keys to.
    open spec fn view(&self) -> Map<Seq<u8>, u64> {
        Map::new(
            |key: Seq<u8>|
                K::is_key(key) && self.memory().get(self.memory().root, key) is Some,
            |key: Seq<u8>| self.memory().get(self.memory().root, key)->0,
        )
    }
}

impl<K: Key> Tree<K> {
    /// The tree as shared memory.
    pub open spec fn memory(self) -> Memory {
        Memory { root: self.root.link(), blocks: blocks(self.nodes@) }
    }

    /// The invariant of the tree.
    pub open spec fn wf(self) -> bool {
        &&& self.root.meta.valid()
        &&& nodes_wf(self.nodes@)
        &&& self.memory().sound(key_set::<K>(), K::Edge::max())
        &&& self.history@.len() > 0
        &&& self.history@.last() == self@
    }

    /// Since the change numbered `start`, there was a time at which `key` had
    /// this value.
    pub open spec fn seen(self, start: int, key: Seq<u8>, value: Option<u64>) -> bool {
        exists|i: int|
            start <= i < self.history@.len() && 0 <= i && lookup(#[trigger] self.history@[i], key)
                == value
    }

    /// There is room for that many more nodes.
    pub open spec fn room(self, count: int) -> bool {
        self.nodes@.len() + count < usize::MAX
    }
}

/// Accesses lead from one state of a tree to another.
pub open spec fn evolves<K: Key>(before: Tree<K>, after: Tree<K>) -> bool {
    &&& grows(before.memory(), after.memory())
    &&& reads_on(before.memory(), after.memory())
    &&& unlinked(before.memory(), after.memory())
    &&& before.history@.len() <= after.history@.len()
    &&& forall|i: int|
        0 <= i < before.history@.len() ==> #[trigger] after.history@[i] == before.history@[i]
}

/// An access that does not change what the tree maps keys to.
pub open spec fn quiet<K: Key>(before: Tree<K>, after: Tree<K>) -> bool {
    &&& after.wf()
    &&& evolves(before, after)
    &&& after.history@ == before.history@
    &&& after@ == before@
}

/// An access that changes the value of one key.
pub open spec fn changes<K: Key>(
    before: Tree<K>,
    after: Tree<K>,
    contents: Map<Seq<u8>, u64>,
) -> bool {
    &&& after.wf()
    &&& evolves(before, after)
    &&& after.history@ == before.history@.push(contents)
    &&& after@ == contents
}

/// No key is a prefix of another key.
pub proof fn lemma_prefix_free<K: Key>()
    ensures
        prefix_free(key_set::<K>()),
{
    let is_key = key_set::<K>();
    assert forall|a: Seq<u8>, b: Seq<u8>| #[trigger] is_key(a) && #[trigger] is_key(b) implies a
        == b || diverge(a, b) by {
        K::lemma_prefix_property(a, b);
    }
}

impl<K: Key> Tree<K> {
    /// Tree without keys.
    pub fn new() -> (tree: Self)
        ensures
            tree.wf(),
            tree@ == Map::<Seq<u8>, u64>::empty(),
            tree.nodes@.len() == 0,
    {
        let root = Word::null();
        let nodes: Vec<SharedNode<K::Edge>> = Vec::new();
        let history: Ghost<Seq<Map<Seq<u8>, u64>>> = Ghost(Seq::empty().push(Map::empty()));
        let tree = Tree { root, nodes, history };
        proof {
            assert(tree@ =~= Map::<Seq<u8>, u64>::empty());
        }
        tree
    }

    /// Read the word at a place.
    pub fn load(&self, place: Place) -> (word: Word<K::Edge>)
        requires
            self.wf(),
            self.memory().valid(place),
        ensures
            word.meta.valid(),
            word.link() == self.memory().at(place),
    {
        match place {
            Place::Root => self.root,
            Place::Slot { node, slot } => {
                proof {
                    assert(self.memory().blocks[node as int].wf(K::Edge::max()));
                    assert(self.nodes@[node as int].wf());
                }
                self.nodes[node].words[slot as usize]
            },
        }
    }

    /// Find the slot of a radix byte.
    pub fn get(&self, node: usize, byte: u8) -> (slot: Option<u8>)
        requires
            self.wf(),
            node < self.nodes@.len(),
        ensures
            match slot {
                Some(slot) => {
                    &&& self.memory().valid(Place::Slot { node, slot })
                    &&& self.memory().blocks[node as int].keys[slot as int] == byte
                },
                None => !self.memory().blocks[node as int].keys.contains(byte),
            },
    {
        assert(self.nodes@[node as int].wf());
        self.nodes[node].header.get(byte)
    }

    /// Slots with a radix byte from `lower` to `upper`, in ascending order.
    pub fn keys(&self, node: usize, lower: u8, upper: u8) -> (keys: KeyIter)
        requires
            self.wf(),
            node < self.nodes@.len(),
            lower <= upper,
        ensures
            keys.wf(),
            keys.remaining() == in_key_order(
                self.memory().blocks[node as int].keys,
                lower,
                upper,
                256,
            ),
    {
        assert(self.nodes@[node as int].wf());
        self.nodes[node].header.keys(true, lower, upper)
    }

    /// Find the slot of a radix byte, which is added if there is room.
    pub fn get_or_insert(&mut self, node: usize, byte: u8) -> (slot: Option<u8>)
        requires
            old(self).wf(),
            node < old(self).nodes@.len(),
        ensures
            quiet(*old(self), *final(self)),
            final(self).nodes@.len() == old(self).nodes@.len(),
            match slot {
                Some(slot) => {
                    &&& final(self).memory().valid(Place::Slot { node, slot })
                    &&& final(self).memory().blocks[node as int].keys[slot as int] == byte
                },
                None => {
                    &&& final(self).memory() == old(self).memory()
                    &&& !old(self).memory().blocks[node as int].keys.contains(byte)
                    &&& old(self).memory().blocks[node as int].closed || old(self).memory().blocks[node as int].keys.len() == old(self).memory().blocks[node as int].kind.slots()
                },
            },
            ({
                let memory = old(self).memory();
                let block = memory.blocks[node as int];
                if block.keys.contains(byte) {
                    slot is Some && final(self).memory() == memory
                } else if block.closed || block.keys.len() == block.kind.slots() {
                    slot is None && final(self).memory() == memory
                } else {
                    slot is Some && final(self).memory() == memory.open_slot(node as int, byte)
                }
            }),
    {
        let ghost before = *self;
        let ghost memory = self.memory();
        proof {
            assert(self.nodes@[node as int].wf());
            assert(memory.blocks[node as int].wf(K::Edge::max()));
        }
        let slot = self.nodes[node].header.get_or_insert(byte);
        proof {
            let after = self.memory();
            let keys0 = memory.blocks[node as int].keys;
            if slot is Some && !keys0.contains(byte) {
                assert(after.blocks =~= memory.open_slot(node as int, byte).blocks) by {
                    assert forall|i: int| 0 <= i < after.blocks.len() implies after.blocks[i]
                        == memory.open_slot(node as int, byte).blocks[i] by {
                        assert(self.nodes@[i].words == before.nodes@[i].words);
                    }
                }
                memory.lemma_open_slot(key_set::<K>(), K::Edge::max(), node as int, byte);
                memory.lemma_unlinked_open_slot(K::Edge::max(), node as int, byte);
            } else {
                assert(after.blocks =~= memory.blocks) by {
                    assert forall|i: int| 0 <= i < after.blocks.len() implies after.blocks[i]
                        == memory.blocks[i] by {
                        assert(self.nodes@[i].words == before.nodes@[i].words);
                    }
                }
                memory.lemma_unchanged();
            }
            assert(self@ =~= before@);
            assert(nodes_wf(self.nodes@)) by {
                assert forall|i: int| 0 <= i < self.nodes@.len() implies (
                #[trigger] self.nodes@[i]).wf() by {
                    assert(before.nodes@[i].wf());
                }
            }
        }
        slot
    }

    /// Stop keys from being added to a node.
    pub fn close(&mut self, node: usize)
        requires
            old(self).wf(),
            node < old(self).nodes@.len(),
        ensures
            quiet(*old(self), *final(self)),
            final(self).nodes@.len() == old(self).nodes@.len(),
            final(self).memory() == (if old(self).memory().blocks[node as int].kind is Node256 {
                old(self).memory()
            } else {
                old(self).memory().close(node as int)
            }),
            final(self).memory().blocks[node as int].closed || final(self).memory().blocks[node as int].kind is Node256,
    {
        let ghost before = *self;
        let ghost memory = self.memory();
        proof {
            assert(self.nodes@[node as int].wf());
        }
        let _ = self.nodes[node].header.freeze();
        proof {
            let after = self.memory();
            if after.blocks[node as int].closed {
                assert(after.blocks =~= memory.close(node as int).blocks) by {
                    assert forall|i: int| 0 <= i < after.blocks.len() implies after.blocks[i]
                        == memory.close(node as int).blocks[i] by {
                        assert(self.nodes@[i].words == before.nodes@[i].words);
                    }
                }
                memory.lemma_close(key_set::<K>(), K::Edge::max(), node as int);
                memory.lemma_unlinked_close(K::Edge::max(), node as int);
            } else {
                assert(after.blocks =~= memory.blocks) by {
                    assert forall|i: int| 0 <= i < after.blocks.len() implies after.blocks[i]
                        == memory.blocks[i] by {
                        assert(self.nodes@[i].words == before.nodes@[i].words);
                    }
                }
                memory.lemma_unchanged();
            }
            assert(self@ =~= before@);
            assert(nodes_wf(self.nodes@)) by {
                assert forall|i: int| 0 <= i < self.nodes@.len() implies (
                #[trigger] self.nodes@[i]).wf() by {
                    assert(before.nodes@[i].wf());
                }
            }
        }
    }

    /// Write a word.
    fn store(&mut self, place: Place, word: Word<K::Edge>)
        requires
            old(self).memory().valid(place),
            old(self).root.meta.valid(),
            nodes_wf(old(self).nodes@),
            place matches Place::Slot { node, slot } ==> slot < old(self).memory().blocks[node as int].links.len(),
            word.meta.valid(),
        ensures
            final(self).memory() == old(self).memory().write(place, word.link(), Seq::empty()),
            final(self).root.meta.valid(),
            nodes_wf(final(self).nodes@),
            final(self).nodes@.len() == old(self).nodes@.len(),
            final(self).history == old(self).history,
    {
        let ghost before = *self;
        match place {
            Place::Root => {
                self.root = word;
                assert(self.memory().blocks =~= before.memory().blocks + Seq::empty());
            },
            Place::Slot { node, slot } => {
                self.nodes[node].words[slot as usize] = word;
                proof {
                    let expected = before.memory().write(place, word.link(), Seq::empty());
                    assert(self.memory().blocks =~= expected.blocks) by {
                        assert forall|i: int|
                            0 <= i < self.nodes@.len() implies #[trigger] self.memory().blocks[i]
                            == expected.blocks[i] by {
                            if i == node {
                                assert(self.memory().blocks[i].links
                                    =~= expected.blocks[i].links);
                            }
                        }
                    }
                    assert forall|i: int| 0 <= i < self.nodes@.len() implies (
                    #[trigger] self.nodes@[i]).wf() by {
                        assert(before.nodes@[i].wf());
                    }
                }
            },
        }
    }

    /// Freeze the word in a slot.
    pub fn freeze(&mut self, node: usize, slot: u8)
        requires
            old(self).wf(),
            old(self).memory().valid(Place::Slot { node, slot }),
        ensures
            quiet(*old(self), *final(self)),
            final(self).nodes@.len() == old(self).nodes@.len(),
            final(self).memory().valid(Place::Slot { node, slot }),
            final(self).memory().at(Place::Slot { node, slot }) == old(self).memory().at(
                Place::Slot { node, slot },
            ).freeze(),
            final(self).memory().blocks[node as int].keys == old(self).memory().blocks[node as int].keys,
            final(self).memory() == old(self).memory().write(
                Place::Slot { node, slot },
                old(self).memory().at(Place::Slot { node, slot }).freeze(),
                Seq::empty(),
            ),
    {
        let ghost before = *self;
        let ghost memory = self.memory();
        let place = Place::Slot { node, slot };
        let mut word = self.load(place);
        proof {
            assert(memory.blocks[node as int].wf(K::Edge::max()));
        }
        if word.frozen {
            proof {
                memory.lemma_unchanged();
                assert(memory.at(place) =~= memory.at(place).freeze());
                let written = memory.write(place, memory.at(place).freeze(), Seq::empty());
                assert(written.blocks[node as int].links =~= memory.blocks[node as int].links);
                assert(written.blocks =~= memory.blocks);
            }
            return ;
        }
        word.frozen = true;
        self.store(place, word);
        proof {
            memory.lemma_freeze(key_set::<K>(), K::Edge::max(), place);
            memory.lemma_unlinked_freeze(K::Edge::max(), place);
            assert(self@ =~= before@);
        }
    }
}

impl Memory {
    /// The memory after a key was stored at a place.
    pub open spec fn grow<K: Key>(self, place: Place, key: Seq<u8>, value: u64) -> Memory {
        let (link, fresh) = grown(
            self.path(place),
            self.at(place),
            key,
            value,
            K::Edge::max(),
            self.blocks.len(),
        );
        self.write(place, link, fresh)
    }

    /// Memory that stays as it is.
    pub proof fn lemma_unchanged(self)
        ensures
            reads_on(self, self),
            unlinked(self, self),
    {
        self.lemma_unlinked_same();
    }
}

/// A path has at most as many nodes as its key has bytes.
pub proof fn lemma_chain_len(path: Seq<u8>, key: Seq<u8>, value: u64, max: nat, base: nat)
    ensures
        chain(path, key, value, max, base).1.len() <= key.len(),
    decreases key.len(),
{
    if key.len() > max {
        lemma_chain_len(
            path + key.take(max as int + 1),
            key.skip(max as int + 1),
            value,
            max,
            base,
        );
    }
}

/// Fresh node with up to three children.
fn small_node<M: Meta>(
    path: Ghost<Seq<u8>>,
    first: (u8, Word<M>),
    second: Option<(u8, Word<M>)>,
) -> (node: SharedNode<M>)
    requires
        first.1.meta.valid(),
        second matches Some(entry) ==> entry.1.meta.valid() && entry.0 != first.0,
    ensures
        node.wf(),
        node.block() == (Block {
            kind: Type::Node3,
            keys: match second {
                Some(entry) => seq![first.0, entry.0],
                None => seq![first.0],
            },
            closed: false,
            links: match second {
                Some(entry) => seq![first.1.link(), entry.1.link(), null_link()],
                None => seq![first.1.link(), null_link(), null_link()],
            },
            path: path@,
        }),
{
    let mut header = Header::new(Type::Node3);
    let mut words: Vec<Word<M>> = Vec::new();
    let _ = header.get_or_insert(first.0);
    words.push(first.1);
    assert(header@ =~= seq![first.0]);
    match second {
        Some(entry) => {
            let _ = header.get_or_insert(entry.0);
            words.push(entry.1);
            assert(header@ =~= seq![first.0, entry.0]);
        },
        None => {
            words.push(Word::null());
        },
    }
    words.push(Word::null());
    let node = SharedNode { header, words, path };
    proof {
        assert(node.block().links =~= match second {
            Some(entry) => seq![first.1.link(), entry.1.link(), null_link()],
            None => seq![first.1.link(), null_link(), null_link()],
        });
    }
    node
}

/// Create the nodes of a path that leads to `value` along the bytes of
/// `reader`.
fn new_path<M: Meta, R: Read<Edge = M>>(
    nodes: &mut Vec<SharedNode<M>>,
    path: Ghost<Seq<u8>>,
    reader: R,
    value: u64,
) -> (word: Word<M>)
    requires
        nodes_wf(old(nodes)@),
        reader.valid(),
        old(nodes)@.len() + reader.bytes().len() < usize::MAX,
    ensures
        nodes_wf(final(nodes)@),
        word.meta.valid(),
        ({
            let made = chain(path@, reader.bytes(), value, M::max(), old(nodes)@.len());
            &&& word.link() == made.0
            &&& blocks(final(nodes)@) == blocks(old(nodes)@) + made.1
        }),
    decreases reader.bytes().len(),
{
    let ghost key = reader.bytes();
    let ghost max = M::max() as int;
    let len: usize = reader.len();
    let capacity: usize = M::capacity();
    if len <= capacity {
        let meta = reader.get_edge(len);
        assert(key.take(len as int) =~= key);
        assert(blocks(nodes@) =~= blocks(nodes@) + Seq::<Block>::empty());
        return Word { meta, target: Target::Value(value), frozen: false };
    }
    let meta = reader.get_edge(capacity);
    let byte: u8 = match reader.get_byte(capacity) {
        Some(byte) => byte,
        None => vstd::pervasive::unreached(),
    };
    let ghost before = nodes@;
    let below = new_path(
        nodes,
        Ghost(path@ + key.take(max + 1)),
        reader.suffix(capacity + 1),
        value,
    );
    proof {
        lemma_chain_len(
            path@ + key.take(max + 1),
            key.skip(max + 1),
            value,
            M::max(),
            before.len(),
        );
        assert(blocks(nodes@).len() == nodes@.len());
    }
    let number: usize = nodes.len();
    let ghost middle = nodes@;
    let node = small_node(Ghost(path@ + key.take(max)), (byte, below), None);
    nodes.push(node);
    proof {
        let made = chain(path@, key, value, M::max(), before.len());
        let under = chain(
            path@ + key.take(max + 1),
            key.skip(max + 1),
            value,
            M::max(),
            before.len(),
        );
        assert(node.block() == chain_block(path@, key, under.0, M::max()));
        assert(blocks(nodes@) =~= blocks(middle).push(node.block()));
        assert(blocks(nodes@) =~= blocks(before) + made.1);
        assert forall|i: int| 0 <= i < nodes@.len() implies (#[trigger] nodes@[i]).wf() by {
            if i < middle.len() {
                assert(middle[i].wf());
            }
        }
    }
    Word { meta, target: Target::Node(number), frozen: false }
}

impl<K: Key> Tree<K> {
    /// Store `value` under a key, if the word where the walk along the key
    /// ends is still `expected`.
    ///
    /// Nodes are created if the rest of the key is long, or if the key departs
    /// from the word.
    pub(crate) fn compare_insert<R: Read<Edge = K::Edge>>(
        &mut self,
        place: Place,
        expected: Word<K::Edge>,
        reader: R,
        value: u64,
        full: Ghost<Seq<u8>>,
    ) -> (result: Result<(), Word<K::Edge>>)
        requires
            old(self).wf(),
            old(self).memory().valid(place),
            expected.meta.valid(),
            !expected.frozen,
            reader.valid(),
            K::is_key(full@),
            leads(old(self).memory().path(place), full@),
            reader.bytes() == full@.skip(old(self).memory().path(place).len() as int),
            growable(expected.link(), reader.bytes()),
            old(self).room(reader.bytes().len() as int + 1),
        ensures
            match result {
                Ok(()) => {
                    &&& old(self).memory().at(place) == expected.link()
                    &&& changes(*old(self), *final(self), old(self)@.insert(full@, value))
                    &&& lookup(old(self)@, full@) == old(self).memory().get(
                        expected.link(),
                        reader.bytes(),
                    )
                    &&& final(self).memory() == old(self).memory().grow::<K>(
                        place,
                        reader.bytes(),
                        value,
                    )
                },
                Err(word) => {
                    &&& old(self).memory().at(place) != expected.link()
                    &&& *final(self) == *old(self)
                    &&& word.meta.valid()
                    &&& word.link() == old(self).memory().at(place)
                },
            },
    {
        let word = self.load(place);
        if !word.same(&expected) {
            return Err(word);
        }
        let ghost before = *self;
        let ghost memory = self.memory();
        let ghost end = memory.path(place);
        let ghost key = reader.bytes();
        let ghost old_link = expected.link();
        let ghost base = memory.blocks.len();
        let ghost max = K::Edge::max();
        proof {
            lemma_prefix_free::<K>();
            lemma_common_len(old_link.bytes, key);
            expected.meta.lemma_valid();
        }
        let ghost made = grown(end, old_link, key, value, max, base);
        let len: usize = reader.match_prefix(&expected.meta);
        let new = match expected.meta.try_expand(len) {
            None => {
                proof {
                    lemma_chain_len(end, key, value, max, base);
                }
                new_path(&mut self.nodes, Ghost(end), reader, value)
            },
            Some((parent, old_byte, old_meta)) => {
                proof {
                    assert(diverge(old_link.bytes, key)) by {
                        if old_link.bytes == key {
                            lemma_common_len(key, key);
                        }
                    }
                    lemma_chain_len(
                        end + key.take(len + 1),
                        key.skip(len + 1),
                        value,
                        max,
                        base,
                    );
                }
                let new_byte: u8 = match reader.get_byte(len) {
                    Some(byte) => byte,
                    None => vstd::pervasive::unreached(),
                };
                let below = new_path(
                    &mut self.nodes,
                    Ghost(end + key.take(len + 1)),
                    reader.suffix(len + 1),
                    value,
                );
                let ghost middle = self.nodes@;
                let ghost under = chain(
                    end + key.take(len + 1),
                    key.skip(len + 1),
                    value,
                    max,
                    base,
                );
                assert(blocks(middle).len() == middle.len());
                let number: usize = self.nodes.len();
                let rest = Word { meta: old_meta, target: expected.target, frozen: false };
                let node = small_node(
                    Ghost(end + key.take(len as int)),
                    (new_byte, below),
                    Some((old_byte, rest)),
                );
                self.nodes.push(node);
                proof {
                    assert(node.block() == fork_block(end, old_link, key, under.0));
                    assert(blocks(self.nodes@) =~= blocks(middle).push(node.block()));
                    assert(blocks(self.nodes@) =~= blocks(before.nodes@) + made.1);
                    assert forall|i: int| 0 <= i < self.nodes@.len() implies (
                    #[trigger] self.nodes@[i]).wf() by {
                        if i < middle.len() {
                            assert(middle[i].wf());
                        }
                    }
                }
                Word { meta: parent, target: Target::Node(number), frozen: false }
            },
        };
        proof {
            assert(new.link() == made.0);
            assert(blocks(self.nodes@) == memory.blocks + made.1);
            memory.lemma_grow(key_set::<K>(), max, place, full@, value);
            memory.lemma_unlinked_grow(max, place, key, value);
            if let Place::Slot { node, slot } = place {
                assert(memory.blocks[node as int].wf(max));
                assert((memory.blocks + made.1)[node as int] == memory.blocks[node as int]);
            }
        }
        let ghost middle = *self;
        self.store(place, new);
        proof {
            let written = memory.write(place, made.0, made.1);
            assert(self.memory() =~= written) by {
                let parts = middle.memory().write(place, new.link(), Seq::empty());
                assert(parts.blocks =~= written.blocks);
            }
            let contents = before@.insert(full@, value);
            self.history@ = self.history@.push(contents);
            assert(self.memory() == written);
            assert(self@ =~= contents);
        }
        Ok(())
    }

    /// Remove the value that a word leads to, if the word is still
    /// `expected`.
    pub(crate) fn compare_clear(
        &mut self,
        place: Place,
        expected: Word<K::Edge>,
        full: Ghost<Seq<u8>>,
    ) -> (result: Result<(), Word<K::Edge>>)
        requires
            old(self).wf(),
            old(self).memory().valid(place),
            expected.meta.valid(),
            !expected.frozen,
            expected.target is Value,
            K::is_key(full@),
            full@ == old(self).memory().path(place) + expected.link().bytes,
        ensures
            match result {
                Ok(()) => {
                    &&& old(self).memory().at(place) == expected.link()
                    &&& changes(*old(self), *final(self), old(self)@.remove(full@))
                    &&& lookup(old(self)@, full@) == Some(expected.target->Value_0)
                    &&& final(self).nodes@.len() == old(self).nodes@.len()
                    &&& final(self).memory() == old(self).memory().write(
                        place,
                        null_link(),
                        Seq::empty(),
                    )
                },
                Err(word) => {
                    &&& old(self).memory().at(place) != expected.link()
                    &&& *final(self) == *old(self)
                    &&& word.meta.valid()
                    &&& word.link() == old(self).memory().at(place)
                },
            },
    {
        let word = self.load(place);
        if !word.same(&expected) {
            return Err(word);
        }
        let ghost before = *self;
        let ghost memory = self.memory();
        proof {
            if let Place::Slot { node, slot } = place {
                assert(memory.blocks[node as int].wf(K::Edge::max()));
            }
            memory.lemma_clear(key_set::<K>(), K::Edge::max(), place, full@);
            memory.lemma_unlinked_clear(K::Edge::max(), place);
        }
        self.store(place, Word::null());
        proof {
            let contents = before@.remove(full@);
            self.history@ = self.history@.push(contents);
            assert(self@ =~= contents);
        }
        Ok(())
    }
}

/// The radix bytes and words are those of the children of a node.
pub open spec fn lists_children<M: Meta>(
    block: Block,
    keys: Seq<u8>,
    words: Seq<Word<M>>,
) -> bool {
    &&& keys.len() == words.len() <= 256
    &&& keys.no_duplicates()
    &&& forall|i: int|
        0 <= i < keys.len() ==> {
            &&& (#[trigger] words[i]).meta.valid()
            &&& words[i].link() == child(block, keys[i])
            &&& words[i].target !is Null
            &&& !words[i].frozen
        }
    &&& forall|b: u8| (#[trigger] child(block, b)).target !is Null ==> keys.contains(b)
}

/// The slots of a node in the order in which it is walked: the smaller nodes
/// by slot, the larger ones by radix byte.
pub open spec fn walk_order(block: Block) -> Seq<KeyIndex> {
    match block.kind {
        Type::Node3 | Type::Node15 => in_slot_order(block.keys, 0, 255, block.keys.len() as int),
        Type::Node47 | Type::Node256 => in_key_order(block.keys, 0, 255, 256),
    }
}

/// Radix bytes of the first `n` slots that have a child.
pub open spec fn live_bytes(block: Block, slots: Seq<KeyIndex>, n: int) -> Seq<u8>
    decreases n,
{
    if n <= 0 || n > slots.len() {
        Seq::empty()
    } else if block.links[slots[n - 1].index as int].target is Null {
        live_bytes(block, slots, n - 1)
    } else {
        live_bytes(block, slots, n - 1).push(slots[n - 1].key)
    }
}

/// Radix bytes of the children of a node, in the order in which it is walked.
pub open spec fn brood(block: Block) -> Seq<u8> {
    live_bytes(block, walk_order(block), walk_order(block).len() as int)
}

impl<M: Meta> SharedNode<M> {
    /// The children, in the order in which the node is walked.
    fn children(&self) -> (entries: (Vec<u8>, Vec<Word<M>>))
        requires
            self.wf(),
            self.block().wf(M::max()),
        ensures
            lists_children(self.block(), entries.0@, entries.1@),
            entries.0@ == brood(self.block()),
    {
        let ghost block = self.block();
        let mut iter = self.header.keys(false, 0, 255);
        let ghost all = iter.remaining();
        proof {
            self.header.lemma_wf();
            lemma_in_slot_order(self.header@, 0, 255, self.header@.len() as int);
            lemma_in_key_order(self.header@, 0, 255, 256);
            assert forall|i: int| 0 <= i < all.len() implies (#[trigger] all[i]).index
                < self.header@.len() && self.header@[all[i].index as int] == all[i].key by {
                assert(all.contains(all[i]));
            }
            assert(distinct(all));
            assert(forall|e: KeyIndex| #[trigger]
                all.contains(e) <==> e.index < self.header@.len() && self.header@[e.index as int]
                    == e.key);
        }
        let mut keys: Vec<u8> = Vec::new();
        let mut words: Vec<Word<M>> = Vec::new();
        let ghost mut taken: int = 0;
        loop
            invariant
                self.wf(),
                block == self.block(),
                block.wf(M::max()),
                0 <= taken <= all.len(),
                iter.wf(),
                iter.remaining() == all.skip(taken),
                distinct(all),
                forall|i: int|
                    0 <= i < all.len() ==> (#[trigger] all[i]).index < self.header@.len()
                        && self.header@[all[i].index as int] == all[i].key,
                keys@.len() == words@.len() <= taken,
                keys@ == live_bytes(block, all, taken),
                keys@.no_duplicates(),
                forall|i: int|
                    0 <= i < keys@.len() ==> {
                        &&& (#[trigger] words@[i]).meta.valid()
                        &&& words@[i].link() == child(block, keys@[i])
                        &&& words@[i].target !is Null
                        &&& !words@[i].frozen
                    },
                forall|i: int|
                    0 <= i < keys@.len() ==> exists|j: int|
                        0 <= j < taken && #[trigger] all[j].key == #[trigger] keys@[i],
                forall|j: int|
                    0 <= j < taken && child(block, (#[trigger] all[j]).key).target !is Null
                        ==> keys@.contains(all[j].key),
            ensures
                taken == all.len(),
            decreases all.len() - taken,
        {
            match iter.next() {
                None => {
                    break ;
                },
                Some(KeyIndex { key, index }) => {
                    proof {
                        assert(all.skip(taken).first() == all[taken]);
                        assert(all.skip(taken).drop_first() =~= all.skip(taken + 1));
                        assert(block.keys[index as int] == key);
                        lemma_slot(block.keys, index as int);
                        assert(block.links[index as int] == self.words@[index as int].link());
                        taken = taken + 1;
                    }
                    let mut word: Word<M> = self.words[index as usize];
                    let ghost keys_before = keys@;
                    if word.target != Target::Null {
                        word.frozen = false;
                        keys.push(key);
                        words.push(word);
                        proof {
                            assert(word.link() =~= child(block, key));
                            assert forall|i: int| 0 <= i < keys@.len() implies exists|j: int|
                                0 <= j < taken && #[trigger] all[j].key == #[trigger] keys@[i] by {
                                if i < keys_before.len() {
                                    assert(keys@[i] == keys_before[i]);
                                    let j = choose|j: int|
                                        0 <= j < taken - 1 && #[trigger] all[j].key
                                            == keys_before[i];
                                    assert(all[j].key == keys@[i]);
                                } else {
                                    assert(all[taken - 1].key == keys@[i]);
                                }
                            }
                            assert forall|j: int|
                                0 <= j < taken && child(
                                    block,
                                    (#[trigger] all[j]).key,
                                ).target !is Null implies keys@.contains(all[j].key) by {
                                if j < taken - 1 {
                                    let i = keys_before.index_of(all[j].key);
                                    assert(keys@[i] == all[j].key);
                                } else {
                                    assert(keys@[keys_before.len() as int] == key);
                                }
                            }
                        }
                    }
                },
            }
        }
        proof {
            assert forall|b: u8| (
            #[trigger] child(block, b)).target !is Null implies keys@.contains(b) by {
                let s = slot_of(block.keys, b);
                assert(0 <= s < block.keys.len() && block.keys[s] == b);
                let e = KeyIndex { key: b, index: s as u8 };
                assert(all.contains(e));
                let j = all.index_of(e);
                assert(all[j].key == b);
            }
            lemma_no_duplicates_len(keys@);
        }
        (keys, words)
    }

    /// Fresh node of the type chosen for the given children.
    fn rebuild(
        grow: bool,
        keys: &Vec<u8>,
        words: &Vec<Word<M>>,
        path: Ghost<Seq<u8>>,
        block: Ghost<Block>,
    ) -> (node: SharedNode<M>)
        requires
            lists_children(block@, keys@, words@),
        ensures
            node.wf(),
            node.block().wf(M::max()),
            node.block().kind == kind_for(keys@.len(), grow),
            node.block().kind !is Node256 ==> node.block().keys == keys@,
            !node.block().closed,
            node.block().path == path@,
            forall|i: int|
                0 <= i < node.block().links.len() ==> !(#[trigger] node.block().links[i]).frozen,
            forall|b: u8|
                #![trigger child(node.block(), b)]
                #![trigger child(block@, b)]
                child(node.block(), b) == child(block@, b),
    {
        let len: usize = if grow {
            keys.len() + 1
        } else {
            keys.len()
        };
        let kind = if len < 3 {
            Type::Node3
        } else if len < 14 {
            Type::Node15
        } else if len < 47 {
            Type::Node47
        } else {
            Type::Node256
        };
        let capacity: usize = kind.capacity();
        let mut header = Header::new(kind);
        let mut slots: Vec<Word<M>> = Vec::new();
        while slots.len() < capacity
            invariant
                slots@.len() <= capacity,
                forall|i: int|
                    0 <= i < slots@.len() ==> (#[trigger] slots@[i]).meta.valid()
                        && slots@[i].link() == null_link(),
            decreases capacity - slots@.len(),
        {
            slots.push(Word::null());
        }
        let mut i: usize = 0;
        while i < keys.len()
            invariant
                lists_children(block@, keys@, words@),
                i <= keys@.len() <= capacity,
                capacity == kind.slots(),
                header.wf(),
                !header.frozen(),
                header.kind() == kind,
                kind !is Node256 ==> header@ == keys@.take(i as int),
                kind is Node256 ==> header@ == all_keys(),
                slots@.len() == capacity,
                forall|j: int|
                    0 <= j < slots@.len() ==> (#[trigger] slots@[j]).meta.valid()
                        && !slots@[j].frozen && slots@[j].link().wf(M::max()),
                forall|j: int|
                    kind !is Node256 && 0 <= j < i ==> #[trigger] slots@[j].link()
                        == words@[j].link(),
                forall|j: int|
                    kind !is Node256 && i <= j < capacity ==> #[trigger] slots@[j].link()
                        == null_link(),
                forall|j: int|
                    kind is Node256 && 0 <= j < i ==> slots@[#[trigger] keys@[j] as int].link()
                        == words@[j].link(),
                forall|b: u8|
                    kind is Node256 && (forall|j: int| 0 <= j < i ==> keys@[j] != b)
                        ==> #[trigger] slots@[b as int].link() == null_link(),
            decreases keys@.len() - i,
        {
            let key: u8 = keys[i];
            let word: Word<M> = words[i];
            proof {
                assert forall|j: int| kind !is Node256 && 0 <= j < i implies header@[j]
                    != key by {
                    assert(header@[j] == keys@[j]);
                }
                word.meta.lemma_valid();
                if kind is Node256 {
                    assert(all_keys()[key as int] == key);
                    assert(header@.contains(key));
                }
            }
            let _ = header.get_or_insert(key);
            let ghost before = slots@;
            if let Type::Node256 = kind {
                slots[key as usize] = word;
            } else {
                slots[i] = word;
                assert(header@ =~= keys@.take(i as int + 1));
            }
            proof {
                assert forall|j: int|
                    kind is Node256 && 0 <= j < i + 1 implies slots@[#[trigger] keys@[j]
                    as int].link() == words@[j].link() by {
                    if j < i {
                        assert(keys@[j] != keys@[i as int]);
                    }
                }
                assert forall|b: u8|
                    kind is Node256 && (forall|j: int| 0 <= j < i + 1 ==> keys@[j] != b) implies
                #[trigger] slots@[b as int].link() == null_link() by {
                    assert(keys@[i as int] != b);
                    assert(slots@[b as int] == before[b as int]);
                }
                assert(word.link().wf(M::max()));
            }
            i += 1;
        }
        let node = SharedNode { header, words: slots, path };
        proof {
            header.lemma_wf();
            let fresh = node.block();
            assert(kind !is Node256 ==> header@ =~= keys@);
            assert forall|j: int| 0 <= j < fresh.links.len() implies (
            #[trigger] fresh.links[j]).wf(M::max()) && !fresh.links[j].frozen by {
                assert(fresh.links[j] == slots@[j].link());
            }
            assert forall|j: int| fresh.keys.len() <= j < fresh.links.len() implies
            #[trigger] fresh.links[j] == null_link() by {
                assert(fresh.links[j] == slots@[j].link());
            }
            assert(fresh.wf(M::max()));
            assert forall|b: u8|
                #![trigger child(fresh, b)]
                #![trigger child(block@, b)]
                child(fresh, b) == child(block@, b) by {
                if keys@.contains(b) {
                    let j = keys@.index_of(b);
                    assert(keys@[j] == b);
                    if kind is Node256 {
                        assert(all_keys()[b as int] == b);
                        lemma_slot(fresh.keys, b as int);
                        assert(fresh.links[b as int] == slots@[b as int].link());
                        assert(slots@[keys@[j] as int].link() == words@[j].link());
                    } else {
                        lemma_slot(fresh.keys, j);
                        assert(fresh.links[j] == slots@[j].link());
                    }
                    assert(words@[j].link() =~= words@[j].link().thaw());
                    assert(child(fresh, b) == words@[j].link());
                } else {
                    assert(child(block@, b).target is Null);
                    assert(child(block@, b) == null_link());
                    if kind is Node256 {
                        assert(all_keys()[b as int] == b);
                        lemma_slot(fresh.keys, b as int);
                        assert(fresh.links[b as int] == slots@[b as int].link());
                    } else {
                        assert(!fresh.keys.contains(b));
                    }
                    assert(child(fresh, b) == null_link());
                }
            }
        }
        node
    }
}

/// What kind of structural change a replacement was.
pub open spec fn smo_of(outcome: Outcome) -> Smo {
    match outcome {
        Outcome::Delete => Smo::DeleteNode,
        Outcome::Compress { .. } => Smo::CompressEdge,
        Outcome::Replace { .. } => Smo::ReplaceNode,
    }
}

/// Radix bytes of the children of a node.
pub open spec fn offspring(block: Block) -> Set<u8> {
    Set::new(|b: u8| child(block, b).target !is Null)
}

/// The replacement of the node behind the word at `place` had this outcome,
/// and led to the memory `after`.
///
/// A node is replaced by a fresh one only if it cannot go away. A full node
/// is assumed to need room for one more child. The fresh node has the children
/// in the order in which the old one is walked.
pub open spec fn came_of<K: Key>(
    memory: Memory,
    place: Place,
    outcome: Outcome,
    smo: Smo,
    after: Memory,
) -> bool {
    let old = memory.at(place);
    let block = memory.blocks[old.target->Node_0 as int];
    let count = offspring(block).len();
    let (link, fresh) = replaced(old, block, memory.blocks.len(), outcome);
    &&& outcome_of(old, block, K::Edge::max(), outcome)
    &&& outcome matches Outcome::Replace { block: new } ==> {
        &&& count > 0
        &&& forall|byte: u8|
            count == 1 && #[trigger] child(block, byte).target !is Null ==> old.bytes.len() + 1
                + child(block, byte).bytes.len() > K::Edge::max()
        &&& new.kind == kind_for(count, count == block.kind.slots())
        &&& new.kind !is Node256 ==> new.keys.len() == count && new.keys == brood(block)
    }
    &&& smo == smo_of(outcome)
    &&& after == memory.write(place, link, fresh)
}

impl<K: Key> Tree<K> {
    /// Replace a node that cannot change any more, if the word that leads to
    /// it is still `expected`.
    ///
    /// Null slots are left out. A node without children goes away, and a node
    /// with one child gives way to a longer edge, if one can hold the bytes.
    pub fn compare_replace(&mut self, place: Place, expected: Word<K::Edge>) -> (result: Result<
        (Smo, Word<K::Edge>),
        Word<K::Edge>,
    >)
        requires
            old(self).wf(),
            old(self).memory().valid(place),
            expected.meta.valid(),
            !expected.frozen,
            expected.target is Node,
            expected.target->Node_0 < old(self).nodes@.len(),
            old(self).memory().blocks[expected.target->Node_0 as int].fixed(),
            old(self).room(1),
        ensures
            match result {
                Ok((smo, word)) => {
                    &&& old(self).memory().at(place) == expected.link()
                    &&& quiet(*old(self), *final(self))
                    &&& final(self).nodes@.len() <= old(self).nodes@.len() + 1
                    &&& word.meta.valid()
                    &&& word.link() == final(self).memory().at(place)
                    &&& final(self).memory().valid(place)
                    &&& !word.frozen
                    &&& !final(self).memory().live(expected.target->Node_0 as int)
                    &&& exists|outcome: Outcome|
                        came_of::<K>(
                            old(self).memory(),
                            place,
                            outcome,
                            smo,
                            final(self).memory(),
                        )
                },
                Err(word) => {
                    &&& old(self).memory().at(place) != expected.link()
                    &&& *final(self) == *old(self)
                    &&& word.meta.valid()
                    &&& word.link() == old(self).memory().at(place)
                },
            },
    {
        let word = self.load(place);
        if !word.same(&expected) {
            return Err(word);
        }
        let ghost before = *self;
        let ghost memory = self.memory();
        let ghost max = K::Edge::max();
        let number: usize = match expected.target {
            Target::Node(number) => number,
            _ => vstd::pervasive::unreached(),
        };
        let ghost block = memory.blocks[number as int];
        proof {
            assert(block.wf(max));
            assert(self.nodes@[number as int].wf());
            if let Place::Slot { node, slot } = place {
                assert(memory.blocks[node as int].wf(max));
            }
        }
        let capacity: usize = self.nodes[number].header.node_type().capacity();
        let (keys, words) = self.nodes[number].children();
        proof {
            assert(offspring(block) =~= keys@.to_set()) by {
                assert forall|b: u8| keys@.contains(b) implies #[trigger] child(
                    block,
                    b,
                ).target !is Null by {
                    let i = keys@.index_of(b);
                    assert(words@[i].link() == child(block, keys@[i]));
                }
            }
            keys@.unique_seq_to_set();
        }
        if keys.len() == 0 {
            let new = Word::null();
            proof {
                let outcome = Outcome::Delete;
                assert forall|b: u8| #[trigger] child(block, b) == null_link() by {
                    assert(!keys@.contains(b));
                }
                assert(outcome_of(expected.link(), block, max, outcome));
                memory.lemma_replace(key_set::<K>(), max, place, outcome);
                memory.lemma_unlinked_replace(max, place, outcome);
            }
            self.store(place, new);
            proof {
                assert(self@ =~= before@);
                assert(came_of::<K>(
                    memory,
                    place,
                    Outcome::Delete,
                    Smo::DeleteNode,
                    self.memory(),
                ));
            }
            return Ok((Smo::DeleteNode, new));
        }
        if keys.len() == 1 {
            if let Some(joined) = expected.meta.try_compress(keys[0], &words[0].meta) {
                let new = Word { meta: joined, target: words[0].target, frozen: false };
                proof {
                    let outcome = Outcome::Compress { byte: keys@[0] };
                    joined.lemma_valid();
                    assert forall|b: u8| b != keys@[0] implies #[trigger] child(block, b)
                        == null_link() by {
                        assert(!keys@.contains(b));
                    }
                    assert(words@[0].link() == child(block, keys@[0]));
                    assert(outcome_of(expected.link(), block, max, outcome));
                    memory.lemma_replace(key_set::<K>(), max, place, outcome);
                    memory.lemma_unlinked_replace(max, place, outcome);
                }
                self.store(place, new);
                proof {
                    assert(self@ =~= before@);
                    assert(came_of::<K>(
                        memory,
                        place,
                        Outcome::Compress { byte: keys@[0] },
                        Smo::CompressEdge,
                        self.memory(),
                    ));
                }
                return Ok((Smo::CompressEdge, new));
            }
        }
        // Heuristic: assume a full node should be expanded.
        let node = SharedNode::rebuild(
            keys.len() == capacity,
            &keys,
            &words,
            Ghost(block.path),
            Ghost(block),
        );
        let fresh: usize = self.nodes.len();
        let new = Word { meta: expected.meta, target: Target::Node(fresh), frozen: false };
        let ghost outcome = Outcome::Replace { block: node.block() };
        proof {
            assert(outcome_of(expected.link(), block, max, outcome));
            memory.lemma_replace(key_set::<K>(), max, place, outcome);
            memory.lemma_unlinked_replace(max, place, outcome);
        }
        self.nodes.push(node);
        let ghost middle = *self;
        proof {
            assert(middle.memory().blocks =~= memory.blocks + seq![node.block()]);
            assert forall|i: int| 0 <= i < self.nodes@.len() implies (
            #[trigger] self.nodes@[i]).wf() by {
                if i < before.nodes@.len() {
                    assert(before.nodes@[i].wf());
                }
            }
            if let Place::Slot { node, slot } = place {
                assert(middle.memory().blocks[node as int] == memory.blocks[node as int]);
            }
        }
        self.store(place, new);
        proof {
            let written = memory.write(place, new.link(), seq![node.block()]);
            assert(self.memory() =~= written) by {
                let parts = middle.memory().write(place, new.link(), Seq::empty());
                assert(parts.blocks =~= written.blocks);
            }
            assert(self@ =~= before@);
            assert forall|byte: u8|
                keys@.len() == 1 && #[trigger] child(block, byte).target !is Null implies expected.link().bytes.len()
                + 1 + child(block, byte).bytes.len() > max by {
                assert(keys@.contains(byte));
                assert(words@[0].link() == child(block, keys@[0]));
            }
            assert(came_of::<K>(memory, place, outcome, Smo::ReplaceNode, self.memory()));
        }
        Ok((Smo::ReplaceNode, new))
    }
}

/// A node is replaced by a fresh one, where `bytes` lead to it: it has more
/// than one child, or one that does not fit behind these bytes.
pub open spec fn rebuilds(block: Block, bytes: Seq<u8>, max: nat) -> bool {
    let children = brood(block);
    ||| children.len() > 1
    ||| children.len() == 1 && bytes.len() + 1 + child(block, children[0]).bytes.len() > max
}

impl<K: Key> Tree<K> {
    /// Whether a node is made to replace the one that the word leads to.
    pub fn rebuilds(&self, node: usize, word: &Word<K::Edge>) -> (fresh: bool)
        requires
            self.wf(),
            node < self.nodes@.len(),
            word.meta.valid(),
        ensures
            fresh == rebuilds(
                self.memory().blocks[node as int],
                word.link().bytes,
                K::Edge::max(),
            ),
    {
        proof {
            assert(self.memory().blocks[node as int].wf(K::Edge::max()));
            assert(self.nodes@[node as int].wf());
        }
        let (keys, words) = self.nodes[node].children();
        if keys.len() == 1 {
            assert(words@[0].link() == child(self.memory().blocks[node as int], keys@[0]));
            word.meta.try_compress(keys[0], &words[0].meta).is_none()
        } else {
            keys.len() > 1
        }
    }
}

/// Number of children in the first `n` slots.
pub open spec fn occupied(block: Block, n: int) -> nat
    decreases n,
{
    if n <= 0 {
        0
    } else if block.links[n - 1].target is Null {
        occupied(block, n - 1)
    } else {
        occupied(block, n - 1) + 1
    }
}

impl<K: Key> Tree<K> {
    /// Number of children of a node.
    pub fn children(&self, node: usize) -> (count: usize)
        requires
            self.wf(),
            node < self.nodes@.len(),
        ensures
            count == occupied(
                self.memory().blocks[node as int],
                self.memory().blocks[node as int].links.len() as int,
            ),
    {
        let ghost block = self.memory().blocks[node as int];
        proof {
            assert(block.wf(K::Edge::max()));
        }
        let len: usize = self.nodes[node].words.len();
        let mut count: usize = 0;
        let mut i: usize = 0;
        while i < len
            invariant
                node < self.nodes@.len(),
                block == self.nodes@[node as int].block(),
                len == self.nodes@[node as int].words@.len(),
                i <= len,
                count <= i,
                count == occupied(block, i as int),
            decreases len - i,
        {
            assert(block.links[i as int] == self.nodes@[node as int].words@[i as int].link());
            if self.nodes[node].words[i].target != Target::Null {
                count += 1;
            }
            i += 1;
        }
        count
    }
}

/// Radix bytes of the children in the first `n` slots.
spec fn bearing(block: Block, n: int) -> Seq<u8>
    decreases n,
{
    if n <= 0 {
        Seq::empty()
    } else if block.links[n - 1].target is Null {
        bearing(block, n - 1)
    } else {
        bearing(block, n - 1).push(block.keys[n - 1])
    }
}

proof fn lemma_bearing(block: Block, n: int, max: nat)
    requires
        block.wf(max),
        0 <= n <= block.links.len(),
    ensures
        bearing(block, n).len() == occupied(block, n),
        bearing(block, n).no_duplicates(),
        forall|b: u8|
            (#[trigger] bearing(block, n).contains(b)) <==> exists|i: int|
                0 <= i < n && i < block.keys.len() && (#[trigger] block.keys[i]) == b
                    && block.links[i].target !is Null,
    decreases n,
{
    if n > 0 {
        lemma_bearing(block, n - 1, max);
        let before = bearing(block, n - 1);
        let after = bearing(block, n);
        if block.links[n - 1].target !is Null {
            assert(n - 1 < block.keys.len()) by {
                if n - 1 >= block.keys.len() {
                    assert(block.links[n - 1] == null_link());
                }
            }
            let key = block.keys[n - 1];
            assert(!before.contains(key)) by {
                if before.contains(key) {
                    let i = choose|i: int|
                        0 <= i < n - 1 && i < block.keys.len() && (#[trigger] block.keys[i]) == key
                            && block.links[i].target !is Null;
                    assert(block.keys[i] == block.keys[n - 1]);
                }
            }
            assert forall|b: u8| (#[trigger] after.contains(b)) <==> exists|i: int|
                0 <= i < n && i < block.keys.len() && (#[trigger] block.keys[i]) == b
                    && block.links[i].target !is Null by {
                if after.contains(b) {
                    let j = after.index_of(b);
                    if j < before.len() {
                        assert(before[j] == b);
                        assert(before.contains(b));
                    } else {
                        assert(block.keys[n - 1] == b);
                    }
                }
                if exists|i: int|
                    0 <= i < n && i < block.keys.len() && (#[trigger] block.keys[i]) == b
                        && block.links[i].target !is Null {
                    let i = choose|i: int|
                        0 <= i < n && i < block.keys.len() && (#[trigger] block.keys[i]) == b
                            && block.links[i].target !is Null;
                    if i < n - 1 {
                        assert(before.contains(b));
                        assert(after[before.index_of(b)] == b);
                    } else {
                        assert(after[before.len() as int] == b);
                    }
                }
            }
            assert(after.no_duplicates()) by {
                assert forall|i: int, j: int|
                    0 <= i < after.len() && 0 <= j < after.len() && i != j implies after[i]
                    != after[j] by {
                    if i == before.len() {
                        assert(before.contains(before[j]));
                    } else if j == before.len() {
                        assert(before.contains(before[i]));
                    }
                }
            }
        } else {
            assert forall|b: u8| (#[trigger] after.contains(b)) <==> exists|i: int|
                0 <= i < n && i < block.keys.len() && (#[trigger] block.keys[i]) == b
                    && block.links[i].target !is Null by {
                if exists|i: int|
                    0 <= i < n && i < block.keys.len() && (#[trigger] block.keys[i]) == b
                        && block.links[i].target !is Null {
                    let i = choose|i: int|
                        0 <= i < n && i < block.keys.len() && (#[trigger] block.keys[i]) == b
                            && block.links[i].target !is Null;
                    assert(i < n - 1);
                    assert(before.contains(b));
                }
            }
        }
    }
}

/// A node has as many children as there are radix bytes that lead to one: a slot
/// without a child does not count.
pub proof fn law_children(block: Block, max: nat)
    requires
        block.wf(max),
    ensures
        offspring(block).finite(),
        occupied(block, block.links.len() as int) == offspring(block).len(),
        forall|b: u8|
            (#[trigger] offspring(block).contains(b)) <==> exists|i: int|
                0 <= i < block.keys.len() && (#[trigger] block.keys[i]) == b
                    && block.links[i].target !is Null,
{
    let n = block.links.len() as int;
    let bytes = bearing(block, n);
    lemma_bearing(block, n, max);
    bytes.unique_seq_to_set();
    vstd::seq_lib::seq_to_set_is_finite(bytes);
    assert forall|b: u8| (#[trigger] offspring(block).contains(b)) <==> exists|i: int|
        0 <= i < block.keys.len() && (#[trigger] block.keys[i]) == b && block.links[i].target
            !is Null by {
        if block.keys.contains(b) {
            let i = slot_of(block.keys, b);
            assert(block.keys[i] == b);
        }
        if exists|i: int|
            0 <= i < block.keys.len() && (#[trigger] block.keys[i]) == b && block.links[i].target
                !is Null {
            let i = choose|i: int|
                0 <= i < block.keys.len() && (#[trigger] block.keys[i]) == b
                    && block.links[i].target !is Null;
            assert(block.keys.contains(b));
            assert(block.keys[slot_of(block.keys, b)] == b);
            assert(slot_of(block.keys, b) == i);
        }
    }
    assert(bytes.to_set() =~= offspring(block)) by {
        assert forall|b: u8| bytes.to_set().contains(b) <==> offspring(block).contains(b) by {
            assert(bytes.to_set().contains(b) <==> bytes.contains(b));
        }
    }
}


/// The radix bytes of the children among the first `n` slots, in the order of
/// any ranking by which the slots are in order.
proof fn lemma_live_bytes(
    block: Block,
    slots: Seq<KeyIndex>,
    n: int,
    rank: spec_fn(u8) -> int,
)
    requires
        0 <= n <= slots.len(),
        forall|i: int, j: int|
            0 <= i < j < slots.len() ==> rank((#[trigger] slots[i]).key) < rank(
                (#[trigger] slots[j]).key,
            ),
    ensures
        forall|b: u8|
            (#[trigger] live_bytes(block, slots, n).contains(b)) <==> exists|i: int|
                0 <= i < n && (#[trigger] slots[i]).key == b && block.links[slots[i].index as int].target
                    !is Null,
        forall|i: int, j: int|
            0 <= i < j < live_bytes(block, slots, n).len() ==> rank(
                #[trigger] live_bytes(block, slots, n)[i],
            ) < rank(#[trigger] live_bytes(block, slots, n)[j]),
    decreases n,
{
    if n > 0 {
        lemma_live_bytes(block, slots, n - 1, rank);
        let before = live_bytes(block, slots, n - 1);
        let after = live_bytes(block, slots, n);
        let last = slots[n - 1];
        let live = block.links[last.index as int].target !is Null;
        assert forall|b: u8| (#[trigger] after.contains(b)) <==> exists|i: int|
            0 <= i < n && (#[trigger] slots[i]).key == b && block.links[slots[i].index as int].target
                !is Null by {
            if after.contains(b) {
                let k = after.index_of(b);
                if k < before.len() {
                    assert(before[k] == b);
                    assert(before.contains(b));
                } else {
                    assert(slots[n - 1].key == b);
                }
            }
            if exists|i: int|
                0 <= i < n && (#[trigger] slots[i]).key == b
                    && block.links[slots[i].index as int].target !is Null {
                let i = choose|i: int|
                    0 <= i < n && (#[trigger] slots[i]).key == b
                        && block.links[slots[i].index as int].target !is Null;
                if i < n - 1 {
                    assert(before.contains(b));
                    assert(after[before.index_of(b)] == b);
                } else {
                    assert(after[before.len() as int] == b);
                }
            }
        }
        if live {
            assert forall|i: int, j: int| 0 <= i < j < after.len() implies rank(
                #[trigger] after[i],
            ) < rank(#[trigger] after[j]) by {
                if j == before.len() {
                    assert(before.contains(before[i]));
                    let k = choose|k: int|
                        0 <= k < n - 1 && (#[trigger] slots[k]).key == before[i]
                            && block.links[slots[k].index as int].target !is Null;
                    assert(rank(slots[k].key) < rank(slots[n - 1].key));
                } else {
                    assert(rank(before[i]) < rank(before[j]));
                }
            }
        }
    }
}

/// Slots in slot order are in the order of the slots.
proof fn lemma_slot_order(keys: Seq<u8>, n: int)
    requires
        0 <= n <= keys.len() <= 256,
        keys.no_duplicates(),
    ensures
        forall|i: int, j: int|
            0 <= i < j < in_slot_order(keys, 0, 255, n).len() ==> slot_of(
                keys,
                (#[trigger] in_slot_order(keys, 0, 255, n)[i]).key,
            ) < slot_of(keys, (#[trigger] in_slot_order(keys, 0, 255, n)[j]).key),
        forall|i: int|
            0 <= i < in_slot_order(keys, 0, 255, n).len() ==> slot_of(
                keys,
                (#[trigger] in_slot_order(keys, 0, 255, n)[i]).key,
            ) < n,
    decreases n,
{
    if n > 0 {
        lemma_slot_order(keys, n - 1);
        lemma_slot(keys, n - 1);
        let before = in_slot_order(keys, 0, 255, n - 1);
        let after = in_slot_order(keys, 0, 255, n);
        assert(after == before.push(KeyIndex { key: keys[n - 1], index: (n - 1) as u8 }));
        assert forall|i: int, j: int| 0 <= i < j < after.len() implies slot_of(
            keys,
            (#[trigger] after[i]).key,
        ) < slot_of(keys, (#[trigger] after[j]).key) by {
            if j < before.len() {
                assert(slot_of(keys, before[i].key) < slot_of(keys, before[j].key));
            } else {
                assert(slot_of(keys, before[i].key) < n - 1);
            }
        }
        assert forall|i: int| 0 <= i < after.len() implies slot_of(
            keys,
            (#[trigger] after[i]).key,
        ) < n by {
            if i < before.len() {
                assert(slot_of(keys, before[i].key) < n - 1);
            }
        }
    }
}

/// A fresh node gets each child of the old one once: from a small node in the
/// order of its slots, from a large one in the order of the radix bytes.
pub proof fn law_brood(block: Block, max: nat, i: int, j: int)
    requires
        block.wf(max),
        0 <= i < j < brood(block).len(),
    ensures
        brood(block)[i] != brood(block)[j],
        block.kind is Node3 || block.kind is Node15 ==> slot_of(block.keys, brood(block)[i])
            < slot_of(block.keys, brood(block)[j]),
        block.kind is Node47 || block.kind is Node256 ==> brood(block)[i] < brood(block)[j],
        forall|b: u8|
            (#[trigger] brood(block).contains(b)) <==> offspring(block).contains(b),
{
    let slots = walk_order(block);
    let keys = block.keys;
    assert(keys.len() <= 256);
    lemma_brood_members(block, max);
    if block.kind is Node3 || block.kind is Node15 {
        lemma_slot_order(keys, keys.len() as int);
        lemma_live_bytes(block, slots, slots.len() as int, |b: u8| slot_of(keys, b));
    } else {
        lemma_in_key_order(keys, 0, 255, 256);
        lemma_live_bytes(block, slots, slots.len() as int, |b: u8| b as int);
    }
}

/// The children that a walk of a node finds are all of them.
proof fn lemma_brood_members(block: Block, max: nat)
    requires
        block.wf(max),
    ensures
        forall|b: u8|
            (#[trigger] brood(block).contains(b)) <==> offspring(block).contains(b),
{
    let slots = walk_order(block);
    let keys = block.keys;
    law_children(block, max);
    assert(keys.len() <= 256);
    if block.kind is Node3 || block.kind is Node15 {
        lemma_slot_order(keys, keys.len() as int);
        lemma_in_slot_order(keys, 0, 255, keys.len() as int);
        lemma_live_bytes(block, slots, slots.len() as int, |b: u8| slot_of(keys, b));
    } else {
        lemma_in_key_order(keys, 0, 255, 256);
        lemma_live_bytes(block, slots, slots.len() as int, |b: u8| b as int);
    }
    assert forall|b: u8| (#[trigger] brood(block).contains(b)) <==> offspring(block).contains(
        b,
    ) by {
        if brood(block).contains(b) {
            let k = choose|k: int|
                0 <= k < slots.len() && (#[trigger] slots[k]).key == b
                    && block.links[slots[k].index as int].target !is Null;
            assert(slots.contains(slots[k]));
            assert(keys[slots[k].index as int] == b);
        }
        if offspring(block).contains(b) {
            let k = choose|k: int|
                0 <= k < keys.len() && (#[trigger] keys[k]) == b && block.links[k].target !is Null;
            let entry = KeyIndex { key: b, index: k as u8 };
            assert(slots.contains(entry));
            let p = slots.index_of(entry);
            assert(slots[p].key == b);
        }
    }
}

/// A key has a value in a map, or none. The tree is full only when the machine
/// cannot number a further node, and what was seen since some time is what the
/// key had at one of the times since.
pub proof fn law_lookup<K: Key>(
    tree: Tree<K>,
    map: Map<Seq<u8>, u64>,
    key: Seq<u8>,
    value: Option<u64>,
    count: int,
    start: int,
)
    requires
        0 <= start,
    ensures
        lookup(map, key) is Some <==> map.contains_key(key),
        map.contains_key(key) ==> lookup(map, key) == Some(map[key]),
        tree.room(count) <==> tree.nodes@.len() + count < usize::MAX,
        tree.seen(start, key, value) <==> exists|i: int|
            start <= i < tree.history@.len() && (value is Some <==> (
            #[trigger] tree.history@[i]).contains_key(key)) && (value matches Some(value) ==> value
                == tree.history@[i][key]),
{
    if tree.seen(start, key, value) {
        let i = choose|i: int|
            start <= i < tree.history@.len() && 0 <= i && lookup(#[trigger] tree.history@[i], key)
                == value;
        assert(lookup(tree.history@[i], key) == value);
    }
    if exists|i: int|
        start <= i < tree.history@.len() && (value is Some <==> (
        #[trigger] tree.history@[i]).contains_key(key)) && (value matches Some(value) ==> value
            == tree.history@[i][key]) {
        let i = choose|i: int|
            start <= i < tree.history@.len() && (value is Some <==> (
            #[trigger] tree.history@[i]).contains_key(key)) && (value matches Some(value) ==> value
                == tree.history@[i][key]);
        assert(lookup(tree.history@[i], key) == value);
    }
}

/// The radix bytes of the children are as many as the children.
proof fn lemma_brood_len(block: Block, max: nat)
    requires
        block.wf(max),
    ensures
        brood(block).no_duplicates(),
        brood(block).len() == offspring(block).len(),
        brood(block).to_set() == offspring(block),
{
    let bytes = brood(block);
    law_children(block, max);
    assert(bytes.no_duplicates()) by {
        assert forall|i: int, j: int|
            0 <= i < bytes.len() && 0 <= j < bytes.len() && i != j implies bytes[i] != bytes[j] by {
            if i < j {
                law_brood(block, max, i, j);
            } else {
                law_brood(block, max, j, i);
            }
        }
    }
    lemma_brood_members(block, max);
    bytes.unique_seq_to_set();
    assert(bytes.to_set() =~= offspring(block)) by {
        assert forall|b: u8| bytes.to_set().contains(b) <==> offspring(block).contains(b) by {
            assert(bytes.to_set().contains(b) <==> bytes.contains(b));
        }
    }
}

/// What is done to a node that is replaced goes by its children: without one it is
/// deleted, a single one that fits on the edge takes its place, and otherwise a
/// fresh node is made, which is what the reported change says.
pub proof fn law_replacement<K: Key>(
    memory: Memory,
    place: Place,
    outcome: Outcome,
    smo: Smo,
    after: Memory,
)
    requires
        came_of::<K>(memory, place, outcome, smo, after),
        memory.blocks[memory.at(place).target->Node_0 as int].wf(K::Edge::max()),
    ensures
        ({
            let old = memory.at(place);
            let block = memory.blocks[old.target->Node_0 as int];
            let max = K::Edge::max();
            &&& smo is DeleteNode <==> outcome is Delete
            &&& smo is CompressEdge <==> outcome is Compress
            &&& smo is ReplaceNode <==> outcome is Replace
            &&& smo is DeleteNode <==> offspring(block).len() == 0
            &&& smo is ReplaceNode <==> rebuilds(block, old.bytes, max)
            &&& smo is CompressEdge ==> offspring(block).len() == 1
            &&& rebuilds(block, old.bytes, max) <==> offspring(block).len() > 1 || (offspring(
                block,
            ).len() == 1 && forall|b: u8| #[trigger]
                offspring(block).contains(b) ==> old.bytes.len() + 1 + child(block, b).bytes.len()
                    > max)
        }),
{
    let old = memory.at(place);
    let block = memory.blocks[old.target->Node_0 as int];
    let max = K::Edge::max();
    let bytes = brood(block);
    lemma_brood_len(block, max);
    law_children(block, max);
    if bytes.len() == 1 {
        assert(offspring(block).contains(bytes[0])) by {
            assert(bytes.to_set().contains(bytes[0]));
        }
        assert forall|b: u8| #[trigger] offspring(block).contains(b) implies b == bytes[0] by {
            assert(bytes.to_set().contains(b));
        }
    }
    match outcome {
        Outcome::Delete => {
            assert(offspring(block) =~= Set::<u8>::empty()) by {
                assert forall|b: u8| !offspring(block).contains(b) by {
                    assert(child(block, b) == null_link());
                }
            }
        },
        Outcome::Compress { byte } => {
            assert(offspring(block) =~= Set::<u8>::empty().insert(byte)) by {
                assert forall|b: u8|
                    offspring(block).contains(b) <==> Set::<u8>::empty().insert(byte).contains(
                        b,
                    ) by {
                    if b != byte {
                        assert(child(block, b) == null_link());
                    }
                }
            }
            assert(offspring(block).contains(byte));
        },
        Outcome::Replace { .. } => {
            if offspring(block).len() == 1 {
                assert forall|b: u8| #[trigger] offspring(block).contains(b) implies old.bytes.len()
                    + 1 + child(block, b).bytes.len() > max by {
                    assert(child(block, b).target !is Null);
                }
            }
        },
    }
}


} // verus!
