//! Which nodes are part of the tree.
//!
//! A node that has left the tree never becomes part of it again.
use vstd::prelude::*;
use crate::bytes::{common_len, lemma_common_len};
use crate::concurrent::memory::change::{
    alike, block_alike, chain, chain_block, fork_block, grown, lemma_alike,
};
use crate::concurrent::memory::replace::{child, outcome_of, replaced, Outcome};
use crate::concurrent::memory::{
    lemma_slot, null_link, Block, Link, Memory, Place, Target,
};
use crate::raw::node::iter::slot_of;
use crate::raw::shape::laws::lemma_descends;
use crate::raw::shape::rest;

verus! {

/// No node becomes part of the tree that was there before and was not.
#[verifier::opaque]
pub open spec fn unlinked(before: Memory, after: Memory) -> bool {
    forall|node: int|
        0 <= node < before.blocks.len() && #[trigger] after.live(node) ==> before.live(node)
}

/// A node that has left the tree stays out of it.
pub proof fn lemma_unlinked(before: Memory, after: Memory, node: int)
    requires
        unlinked(before, after),
        0 <= node < before.blocks.len(),
        !before.live(node),
    ensures
        !after.live(node),
{
    reveal(unlinked);
}

/// A node that the word leads to is part of the tree, or not yet there.
pub open spec fn leads_live(memory: Memory, link: Link) -> bool {
    link.target matches Target::Node(node) ==> node < memory.blocks.len() ==> memory.live(
        node as int,
    )
}

/// Every word of the node leads to the tree.
pub open spec fn block_leads_live(memory: Memory, block: Block) -> bool {
    forall|slot: int| 0 <= slot < block.keys.len() ==> leads_live(memory, #[trigger] block.links[slot])
}

impl Memory {
    /// What a word of the tree leads to is part of the tree.
    pub proof fn lemma_live_child(self, max: nat, place: Place)
        requires
            self.blocks_wf(max),
            self.consistent(),
            self.valid(place),
            self.current(place),
        ensures
            leads_live(self, self.at(place)),
    {
        let link = self.at(place);
        if let Target::Node(node) = link.target {
            self.lemma_at(place);
            let end = self.path(place);
            let key = end + link.bytes;
            assert(key.take(end.len() as int) =~= end);
            assert(key.skip(end.len() as int) =~= link.bytes);
            self.lemma_pass(max, place, key);
            assert(self.reaches(link, link.bytes, node as int));
        }
    }

    /// A walk through what was written meets no node of before that was not
    /// part of the tree.
    proof fn lemma_written_walk(
        self,
        max: nat,
        place: Place,
        new: Link,
        fresh: Seq<Block>,
        link: Link,
        path: Seq<u8>,
        node: int,
    )
        requires
            self.blocks_wf(max),
            self.consistent(),
            self.valid(place),
            self.write(place, new, fresh).blocks_wf(max),
            leads_live(self, new),
            forall|i: int| 0 <= i < fresh.len() ==> block_leads_live(self, #[trigger] fresh[i]),
            leads_live(self, link),
            0 <= node < self.blocks.len(),
            self.write(place, new, fresh).reaches(link, path, node),
        ensures
            self.live(node),
        decreases path.len(),
    {
        let written = self.write(place, new, fresh);
        if !(link.target == Target::Node(node as usize) && link.bytes == path) {
            let step = written.next(link, path)->0;
            let at = link.target->Node_0;
            let block = written.blocks[at as int];
            let b = path[link.bytes.len() as int];
            lemma_descends(link.bytes, path);
            assert(block.wf(max));
            assert(block.kind.slots() <= 256);
            let s = slot_of(block.keys, b);
            assert(0 <= s < block.keys.len() && block.keys[s] == b);
            let below = written.at(step);
            assert(leads_live(self, below)) by {
                if at >= self.blocks.len() {
                    assert((self.blocks + fresh)[at as int] == fresh[at - self.blocks.len()]);
                    assert(block == fresh[at - self.blocks.len()]);
                    assert(block_leads_live(self, fresh[at - self.blocks.len()]));
                    assert(leads_live(self, block.links[s]));
                } else {
                    assert((self.blocks + fresh)[at as int] == self.blocks[at as int]);
                    if step != place {
                        assert(below == self.at(step));
                        self.lemma_live_child(max, step);
                    }
                }
            }
            self.lemma_written_walk(
                max,
                place,
                new,
                fresh,
                below,
                rest(link.bytes, path),
                node,
            );
        }
    }

    /// Writing a word that leads to the tree adds no node of before to it.
    proof fn lemma_unlinked_write(self, max: nat, place: Place, new: Link, fresh: Seq<Block>)
        requires
            self.blocks_wf(max),
            self.consistent(),
            self.valid(place),
            self.write(place, new, fresh).blocks_wf(max),
            leads_live(self, new),
            forall|i: int| 0 <= i < fresh.len() ==> block_leads_live(self, #[trigger] fresh[i]),
        ensures
            unlinked(self, self.write(place, new, fresh)),
    {
        reveal(unlinked);
        let written = self.write(place, new, fresh);
        self.lemma_live_child(max, Place::Root);
        assert forall|node: int|
            0 <= node < self.blocks.len() && #[trigger] written.live(node) implies self.live(
            node,
        ) by {
            self.lemma_written_walk(
                max,
                place,
                new,
                fresh,
                written.root,
                written.blocks[node].path,
                node,
            );
        }
    }

    /// Changes that walks do not see add no node to the tree.
    proof fn lemma_unlinked_alike(self, after: Memory)
        requires
            alike(self, after),
        ensures
            unlinked(self, after),
    {
        reveal(unlinked);
        assert forall|node: int|
            0 <= node < self.blocks.len() && #[trigger] after.live(node) implies self.live(
            node,
        ) by {
            lemma_alike(self, after, self.root, self.blocks[node].path);
            assert(after.reaches(self.root, self.blocks[node].path, node));
        }
    }

    /// Memory that stays as it is.
    pub proof fn lemma_unlinked_same(self)
        ensures
            unlinked(self, self),
    {
        reveal(unlinked);
    }

    /// Closing a node adds no node to the tree.
    pub proof fn lemma_unlinked_close(self, max: nat, node: int)
        requires
            self.blocks_wf(max),
            0 <= node < self.blocks.len(),
        ensures
            unlinked(self, self.close(node)),
    {
        let after = self.close(node);
        assert forall|n: int| 0 <= n < self.blocks.len() implies block_alike(
            #[trigger] self.blocks[n],
            after.blocks[n],
        ) by {
            assert(self.blocks[n].wf(max));
        }
        self.lemma_unlinked_alike(after);
    }

    /// Adding a key without a child adds no node to the tree.
    pub proof fn lemma_unlinked_open_slot(self, max: nat, node: int, key: u8)
        requires
            self.blocks_wf(max),
            0 <= node < self.blocks.len(),
            !self.blocks[node].keys.contains(key),
            self.blocks[node].keys.len() < self.blocks[node].kind.slots(),
        ensures
            unlinked(self, self.open_slot(node, key)),
    {
        let after = self.open_slot(node, key);
        assert(self.blocks[node].wf(max));
        assert forall|n: int| 0 <= n < self.blocks.len() implies block_alike(
            #[trigger] self.blocks[n],
            after.blocks[n],
        ) by {
            assert(self.blocks[n].wf(max));
        }
        self.lemma_unlinked_alike(after);
    }

    /// Freezing a word adds no node to the tree.
    pub proof fn lemma_unlinked_freeze(self, max: nat, place: Place)
        requires
            self.blocks_wf(max),
            self.consistent(),
            self.settled(),
            self.valid(place),
            !self.at(place).frozen,
            self.write(place, self.at(place).freeze(), Seq::empty()).blocks_wf(max),
        ensures
            unlinked(self, self.write(place, self.at(place).freeze(), Seq::empty())),
    {
        self.lemma_unfrozen(place);
        self.lemma_live_child(max, place);
        self.lemma_unlinked_write(max, place, self.at(place).freeze(), Seq::empty());
    }

    /// Removing a value adds no node to the tree.
    pub proof fn lemma_unlinked_clear(self, max: nat, place: Place)
        requires
            self.blocks_wf(max),
            self.consistent(),
            self.valid(place),
            self.write(place, null_link(), Seq::empty()).blocks_wf(max),
        ensures
            unlinked(self, self.write(place, null_link(), Seq::empty())),
    {
        self.lemma_unlinked_write(max, place, null_link(), Seq::empty());
    }

    /// The words of a path lead to its own nodes.
    proof fn lemma_chain_fresh(
        self,
        path: Seq<u8>,
        key: Seq<u8>,
        value: u64,
        max: nat,
        base: nat,
    )
        requires
            base == self.blocks.len(),
            base + chain(path, key, value, max, base).1.len() <= usize::MAX,
        ensures
            leads_live(self, chain(path, key, value, max, base).0),
            forall|i: int|
                0 <= i < chain(path, key, value, max, base).1.len() ==> block_leads_live(
                    self,
                    #[trigger] chain(path, key, value, max, base).1[i],
                ),
        decreases key.len(),
    {
        if key.len() > max {
            let path2 = path + key.take(max as int + 1);
            let key2 = key.skip(max as int + 1);
            let below = chain(path2, key2, value, max, base);
            let all = chain(path, key, value, max, base);
            assert(all.1.len() == below.1.len() + 1);
            self.lemma_chain_fresh(path2, key2, value, max, base);
            assert forall|i: int| 0 <= i < all.1.len() implies block_leads_live(
                self,
                #[trigger] all.1[i],
            ) by {
                if i < below.1.len() {
                    assert(all.1[i] == below.1[i]);
                } else {
                    assert(all.1[i] == chain_block(path, key, below.0, max));
                    assert(all.1[i].links[0] == below.0);
                }
            }
        }
    }

    /// Storing a value adds no node of before to the tree.
    pub proof fn lemma_unlinked_grow(self, max: nat, place: Place, key: Seq<u8>, value: u64)
        requires
            self.blocks_wf(max),
            self.consistent(),
            self.settled(),
            self.valid(place),
            !self.at(place).frozen,
            self.blocks.len() + grown(
                self.path(place),
                self.at(place),
                key,
                value,
                max,
                self.blocks.len(),
            ).1.len() <= usize::MAX,
            ({
                let (new, fresh) = grown(
                    self.path(place),
                    self.at(place),
                    key,
                    value,
                    max,
                    self.blocks.len(),
                );
                self.write(place, new, fresh).blocks_wf(max)
            }),
        ensures
            ({
                let (new, fresh) = grown(
                    self.path(place),
                    self.at(place),
                    key,
                    value,
                    max,
                    self.blocks.len(),
                );
                unlinked(self, self.write(place, new, fresh))
            }),
    {
        let end = self.path(place);
        let old = self.at(place);
        let base = self.blocks.len();
        let (new, fresh) = grown(end, old, key, value, max, base);
        self.lemma_unfrozen(place);
        self.lemma_live_child(max, place);
        lemma_common_len(old.bytes, key);
        let n = common_len(old.bytes, key) as int;
        if n < old.bytes.len() {
            let path2 = end + key.take(n + 1);
            let key2 = key.skip(n + 1);
            let below = chain(path2, key2, value, max, base);
            assert(fresh.len() == below.1.len() + 1);
            self.lemma_chain_fresh(path2, key2, value, max, base);
            assert forall|i: int| 0 <= i < fresh.len() implies block_leads_live(
                self,
                #[trigger] fresh[i],
            ) by {
                if i < below.1.len() {
                    assert(fresh[i] == below.1[i]);
                } else {
                    let block = fork_block(end, old, key, below.0);
                    assert(fresh[i] == block);
                    assert(block.links[0] == below.0);
                    assert(block.links[1].target == old.target);
                }
            }
        } else {
            self.lemma_chain_fresh(end, key, value, max, base);
        }
        self.lemma_unlinked_write(max, place, new, fresh);
    }

    /// The children of a node of the tree are part of the tree.
    proof fn lemma_live_offspring(self, max: nat, node: int, byte: u8)
        requires
            self.blocks_wf(max),
            self.consistent(),
            0 <= node < self.blocks.len(),
            self.live(node),
        ensures
            leads_live(self, child(self.blocks[node], byte)),
    {
        let block = self.blocks[node];
        assert(block.wf(max));
        if block.keys.contains(byte) {
            let s = slot_of(block.keys, byte);
            assert(0 <= s < block.keys.len() && block.keys[s] == byte);
            assert(block.kind.slots() <= 256);
            self.lemma_live_child(max, Place::Slot { node: node as usize, slot: s as u8 });
        }
    }

    /// Replacing a node adds no node of before to the tree, and takes the
    /// replaced node out of it.
    pub proof fn lemma_unlinked_replace(self, max: nat, place: Place, outcome: Outcome)
        requires
            self.blocks_wf(max),
            self.consistent(),
            self.settled(),
            self.valid(place),
            !self.at(place).frozen,
            self.at(place).target is Node,
            self.blocks.len() < usize::MAX,
            outcome_of(
                self.at(place),
                self.blocks[self.at(place).target->Node_0 as int],
                max,
                outcome,
            ),
            ({
                let old = self.at(place);
                let (new, fresh) = replaced(
                    old,
                    self.blocks[old.target->Node_0 as int],
                    self.blocks.len(),
                    outcome,
                );
                self.write(place, new, fresh).blocks_wf(max)
            }),
        ensures
            ({
                let old = self.at(place);
                let (new, fresh) = replaced(
                    old,
                    self.blocks[old.target->Node_0 as int],
                    self.blocks.len(),
                    outcome,
                );
                let written = self.write(place, new, fresh);
                &&& unlinked(self, written)
                &&& self.live(old.target->Node_0 as int)
                &&& !written.live(old.target->Node_0 as int)
            }),
    {
        let old = self.at(place);
        let end = self.path(place);
        let node = old.target->Node_0 as int;
        let base = self.blocks.len();
        self.lemma_at(place);
        let block = self.blocks[node];
        let (new, fresh) = replaced(old, block, base, outcome);
        let written = self.write(place, new, fresh);
        self.lemma_unfrozen(place);
        self.lemma_live_child(max, place);
        match outcome {
            Outcome::Delete => {},
            Outcome::Compress { byte } => {
                self.lemma_live_offspring(max, node, byte);
            },
            Outcome::Replace { block: fresh_block } => {
                assert(fresh[0] == fresh_block);
                assert forall|slot: int| 0 <= slot < fresh_block.keys.len() implies leads_live(
                    self,
                    #[trigger] fresh_block.links[slot],
                ) by {
                    let b = fresh_block.keys[slot];
                    lemma_slot(fresh_block.keys, slot);
                    self.lemma_live_offspring(max, node, b);
                    assert(child(fresh_block, b) == child(block, b));
                }
            },
        }
        self.lemma_unlinked_write(max, place, new, fresh);
        // The walk to the node now ends elsewhere.
        let path = block.path;
        assert(written.blocks[node].path == path) by {
            assert((self.blocks + fresh)[node] == self.blocks[node]);
        }
        assert(written.current(place)) by {
            if let Place::Slot { node: above, slot } = place {
                let way = self.blocks[above as int].path;
                assert((self.blocks + fresh)[above as int] == self.blocks[above as int]);
                self.lemma_frame(max, place, new, fresh, Seq::empty(), self.root, way);
                assert(Seq::<u8>::empty() + way =~= way);
                assert(written.reaches(self.root, way, above as int));
            }
        }
        assert(written.path(place) == end) by {
            if let Place::Slot { node: above, slot } = place {
                assert((self.blocks + fresh)[above as int] == self.blocks[above as int]);
            }
        }
        assert(written.valid(place) && written.at(place) == new) by {
            if let Place::Slot { node: above, slot } = place {
                assert((self.blocks + fresh)[above as int] == self.blocks[above as int]);
            }
        }
        assert(path.take(end.len() as int) =~= end);
        assert(path.skip(end.len() as int) =~= old.bytes);
        written.lemma_pass(max, place, path);
        lemma_descends(new.bytes, old.bytes);
        assert(!written.reaches(new, old.bytes, node));
    }
}

} // verus!
