//! Replacing a node whose words are frozen.
use vstd::prelude::*;
use crate::concurrent::memory::{
    fresh_wf, grows, inner, leads, lemma_slot, null_link, reads_on, Block, Link, Memory, Place,
    Target,
};
use crate::raw::node::iter::slot_of;
use crate::raw::shape::laws::lemma_descends;
use crate::raw::shape::{descends, rest};

verus! {

/// Child of a node under a radix byte, without the freeze flag.
pub open spec fn child(block: Block, byte: u8) -> Link {
    if block.keys.contains(byte) && block.links[slot_of(block.keys, byte)].target !is Null {
        block.links[slot_of(block.keys, byte)].thaw()
    } else {
        null_link()
    }
}

/// Where a replaced node went.
pub enum Outcome {
    /// The node had no child.
    Delete,
    /// The node had one child, which follows the bytes of the edge to it.
    Compress { byte: u8 },
    /// A fresh node holds the children.
    Replace { block: Block },
}

/// The outcome is one for the node.
pub open spec fn outcome_of(old: Link, block: Block, max: nat, outcome: Outcome) -> bool {
    match outcome {
        Outcome::Delete => forall|b: u8| #[trigger] child(block, b) == null_link(),
        Outcome::Compress { byte } => {
            &&& child(block, byte).target !is Null
            &&& forall|b: u8| b != byte ==> #[trigger] child(block, b) == null_link()
            &&& old.bytes.len() + 1 + child(block, byte).bytes.len() <= max
        },
        Outcome::Replace { block: new } => {
            &&& new.wf(max)
            &&& !new.closed
            &&& new.path == block.path
            &&& forall|i: int| 0 <= i < new.links.len() ==> !(#[trigger] new.links[i]).frozen
            &&& forall|b: u8|
                #![trigger child(new, b)]
                #![trigger child(block, b)]
                child(new, b) == child(block, b)
        },
    }
}

/// The word that replaces the one that led to the node, and the fresh node,
/// which is numbered `base`.
pub open spec fn replaced(old: Link, block: Block, base: nat, outcome: Outcome) -> (
    Link,
    Seq<Block>,
) {
    match outcome {
        Outcome::Delete => (null_link(), Seq::empty()),
        Outcome::Compress { byte } => (
            Link {
                bytes: old.bytes.push(byte) + child(block, byte).bytes,
                target: child(block, byte).target,
                frozen: false,
            },
            Seq::empty(),
        ),
        Outcome::Replace { block: new } => (
            Link { bytes: old.bytes, target: Target::Node(base as usize), frozen: false },
            seq![new],
        ),
    }
}

impl Memory {
    /// A walk that passes a node goes on in one of its children.
    pub proof fn lemma_child(self, max: nat, link: Link, key: Seq<u8>)
        requires
            self.blocks_wf(max),
            link.target is Node,
            link.target->Node_0 < self.blocks.len(),
        ensures
            ({
                let node = link.target->Node_0 as int;
                let below = child(self.blocks[node], key[link.bytes.len() as int]);
                &&& self.get(link, key) == (if descends(link.bytes, key) {
                    self.get(below, rest(link.bytes, key))
                } else {
                    None
                })
                &&& forall|other: int| #[trigger]
                    self.reaches(link, key, other) <==> (link.bytes == key && other == node) || (
                    descends(link.bytes, key) && self.reaches(below, rest(link.bytes, key), other))
            }),
    {
        let node = link.target->Node_0 as int;
        let block = self.blocks[node];
        assert(block.wf(max));
        let b = key[link.bytes.len() as int];
        let below = child(block, b);
        if descends(link.bytes, key) {
            let tail = rest(link.bytes, key);
            lemma_descends(link.bytes, key);
            assert(link.bytes != key);
            assert(self.get(null_link(), tail) is None);
            assert(forall|other: int| !#[trigger] self.reaches(null_link(), tail, other));
            if block.keys.contains(b) {
                let s = slot_of(block.keys, b);
                assert(0 <= s < block.keys.len() && block.keys[s] == b);
                let found = block.links[s];
                let place = self.next(link, key)->0;
                assert(self.at(place) == found);
                if found.target is Null {
                    assert(found.bytes == Seq::<u8>::empty());
                    assert(self.get(found, tail) is None);
                    assert(forall|other: int| !#[trigger] self.reaches(found, tail, other));
                } else {
                    self.lemma_flag(found, below, tail);
                }
                assert forall|other: int| #[trigger]
                    self.reaches(link, key, other) <==> (link.bytes == key && other == node) || (
                    descends(link.bytes, key) && self.reaches(below, tail, other)) by {
                    assert(self.reaches(link, key, other) == self.reaches(found, tail, other));
                }
            } else {
                assert(self.next(link, key) is None);
            }
        }
    }

    /// Replacing a node that cannot change any more keeps the memory sound
    /// and what it maps keys to.
    #[verifier::rlimit(60)]
    pub proof fn lemma_replace(
        self,
        is_key: spec_fn(Seq<u8>) -> bool,
        max: nat,
        place: Place,
        outcome: Outcome,
    )
        requires
            self.sound(is_key, max),
            self.valid(place),
            !self.at(place).frozen,
            self.at(place).target is Node,
            self.blocks[self.at(place).target->Node_0 as int].fixed(),
            self.blocks.len() < usize::MAX,
            outcome_of(
                self.at(place),
                self.blocks[self.at(place).target->Node_0 as int],
                max,
                outcome,
            ),
        ensures
            ({
                let old = self.at(place);
                let (new, fresh) = replaced(
                    old,
                    self.blocks[old.target->Node_0 as int],
                    self.blocks.len(),
                    outcome,
                );
                let written = self.write(place, new, fresh);
                &&& written.sound(is_key, max)
                &&& grows(self, written)
                &&& reads_on(self, written)
                &&& forall|k: Seq<u8>| #[trigger]
                    written.get(written.root, k) == self.get(self.root, k)
            }),
    {
        let end = self.path(place);
        let old = self.at(place);
        let node = old.target->Node_0 as int;
        self.lemma_at(place);
        let block = self.blocks[node];
        assert(block.wf(max));
        assert(old.wf(max)) by {
            if let Place::Slot { node, slot } = place {
                assert(self.blocks[node as int].wf(max));
            }
        }
        let base = self.blocks.len();
        let (new, fresh) = replaced(old, block, base, outcome);
        let written = self.write(place, new, fresh);
        assert forall|k: Seq<u8>|
            #![trigger written.get(new, k)]
            written.get(new, k) == self.get(old, k) && (forall|other: int|
                0 <= other && other != node && other < base && #[trigger] self.reaches(
                    old,
                    k,
                    other,
                ) ==> written.reaches(new, k, other)) by {
            self.lemma_replaced_walk(is_key, max, place, outcome, k);
        }
        assert forall|path: Seq<u8>, other: int|
            0 <= other < self.blocks.len() && #[trigger] self.reaches(old, path, other) implies
            written.reaches(new, path, other) || self.blocks[other].fixed() by {
            assert(written.get(new, path) == self.get(old, path));
        }
        self.lemma_replaced_fits(is_key, max, place, outcome);
        assert(self.writable(is_key, max, place, new, fresh));
        self.lemma_write(is_key, max, place, new, fresh);
        assert forall|k: Seq<u8>| #[trigger] written.get(written.root, k) == self.get(
            self.root,
            k,
        ) by {
            if leads(end, k) {
                let tail = k.skip(end.len() as int);
                assert(self.get(self.root, k) == self.get(old, tail));
                assert(written.get(new, tail) == self.get(old, tail));
            }
        }
    }

    /// What the word leads to after a replacement.
    proof fn lemma_replaced_walk(
        self,
        is_key: spec_fn(Seq<u8>) -> bool,
        max: nat,
        place: Place,
        outcome: Outcome,
        k: Seq<u8>,
    )
        requires
            self.sound(is_key, max),
            self.valid(place),
            self.at(place).target is Node,
            self.blocks.len() < usize::MAX,
            outcome_of(
                self.at(place),
                self.blocks[self.at(place).target->Node_0 as int],
                max,
                outcome,
            ),
        ensures
            ({
                let old = self.at(place);
                let (new, fresh) = replaced(
                    old,
                    self.blocks[old.target->Node_0 as int],
                    self.blocks.len(),
                    outcome,
                );
                let written = self.write(place, new, fresh);
                &&& written.get(new, k) == self.get(old, k)
                &&& forall|other: int|
                    0 <= other && other != old.target->Node_0 && other < self.blocks.len()
                        && #[trigger] self.reaches(old, k, other) ==> written.reaches(new, k, other)
            }),
    {
        let end = self.path(place);
        let old = self.at(place);
        let node = old.target->Node_0 as int;
        self.lemma_at(place);
        let block = self.blocks[node];
        assert(block.wf(max));
        let base = self.blocks.len();
        let (new, fresh) = replaced(old, block, base, outcome);
        let written = self.write(place, new, fresh);
        let n = old.bytes.len() as int;
        let b = k[n];
        let below = child(block, b);
        let tail = rest(old.bytes, k);
        self.lemma_child(max, old, k);
        lemma_descends(old.bytes, k);
        assert(self.get(null_link(), tail) is None);
        assert(forall|other: int| !#[trigger] self.reaches(null_link(), tail, other));
        self.lemma_child_fits(is_key, max, node, b);
        let path = end + old.bytes.push(b);
        assert(block.path.push(b) =~= path);
        match outcome {
            Outcome::Delete => {
                assert(written.get(null_link(), k) is None);
            },
            Outcome::Compress { byte } => {
                let only = child(block, byte);
                let path1 = end + old.bytes.push(byte);
                assert(block.path.push(byte) =~= path1);
                self.lemma_child_fits(is_key, max, node, byte);
                assert(self.fits(path1, only));
                assert(self.fits(end, new)) by {
                    assert(end + new.bytes =~= path1 + only.bytes);
                }
                self.lemma_behind(max, place, new, fresh, end, new, k);
                self.lemma_split(new, n, false, k);
                assert(new.bytes.skip(n + 1) =~= only.bytes);
                assert(new.bytes.take(n + 1) =~= old.bytes.push(byte));
                let tail_link = Link {
                    bytes: new.bytes.skip(n + 1),
                    target: new.target,
                    frozen: false,
                };
                assert(tail_link == only);
                if descends(old.bytes, k) && b == byte {
                    assert(k.take(n + 1) =~= new.bytes.take(n + 1));
                    assert(k.skip(n + 1) =~= tail);
                    assert forall|other: int|
                        0 <= other && other != node && other < base && #[trigger] self.reaches(
                            old,
                            k,
                            other,
                        ) implies written.reaches(new, k, other) by {
                        assert(self.reaches(only, tail, other));
                        assert(self.reaches(new, k, other));
                    }
                } else {
                    if k.len() > n && k.take(n + 1) == new.bytes.take(n + 1) {
                        assert forall|i: int| 0 <= i < n implies old.bytes[i] == k[i] by {
                            assert(k.take(n + 1)[i] == old.bytes.push(byte)[i]);
                        }
                        assert(k.take(n + 1)[n] == old.bytes.push(byte)[n]);
                    }
                    assert(self.get(new, k) is None);
                    if descends(old.bytes, k) {
                        assert(below == null_link());
                    }
                }
            },
            Outcome::Replace { block: fresh_block } => {
                assert(written.blocks[base as int] == fresh_block) by {
                    assert((self.blocks + fresh)[base as int] == fresh[0]);
                }
                assert(written.blocks_wf(max)) by {
                    assert forall|i: int| 0 <= i < written.blocks.len() implies (
                    #[trigger] written.blocks[i]).wf(max) by {
                        if i < base {
                            assert(self.blocks[i].wf(max));
                        }
                    }
                }
                written.lemma_child(max, new, k);
                assert(child(fresh_block, b) == below);
                if descends(old.bytes, k) {
                    self.lemma_behind(max, place, new, fresh, path, below, tail);
                    assert forall|other: int|
                        0 <= other && other != node && other < base && #[trigger] self.reaches(
                            old,
                            k,
                            other,
                        ) implies written.reaches(new, k, other) by {
                        assert(self.reaches(below, tail, other));
                        assert(written.reaches(below, tail, other));
                        assert(written.reaches(new, k, other) <==> (new.bytes == k && other
                            == base) || (descends(new.bytes, k) && written.reaches(
                            below,
                            tail,
                            other,
                        )));
                    }
                }
            },
        }
    }

    /// A child fits behind its radix byte.
    proof fn lemma_child_fits(
        self,
        is_key: spec_fn(Seq<u8>) -> bool,
        max: nat,
        node: int,
        byte: u8,
    )
        requires
            self.blocks_wf(max),
            self.consistent(),
            self.keyed(is_key),
            0 <= node < self.blocks.len(),
        ensures
            self.fits(self.blocks[node].path.push(byte), child(self.blocks[node], byte)),
            child(self.blocks[node], byte).target is Value ==> is_key(
                self.blocks[node].path.push(byte) + child(self.blocks[node], byte).bytes,
            ),
            child(self.blocks[node], byte).wf(max),
    {
        let block = self.blocks[node];
        assert(block.wf(max));
        if block.keys.contains(byte) {
            let s = slot_of(block.keys, byte);
            assert(0 <= s < block.keys.len() && block.keys[s] == byte);
            let link = self.blocks[node].links[s];
            assert(self.fits(block.path.push(block.keys[s]), link));
        }
    }

    /// The word and the fresh node of a replacement fit.
    proof fn lemma_replaced_fits(
        self,
        is_key: spec_fn(Seq<u8>) -> bool,
        max: nat,
        place: Place,
        outcome: Outcome,
    )
        requires
            self.sound(is_key, max),
            self.valid(place),
            self.at(place).target is Node,
            self.blocks.len() < usize::MAX,
            outcome_of(
                self.at(place),
                self.blocks[self.at(place).target->Node_0 as int],
                max,
                outcome,
            ),
        ensures
            ({
                let old = self.at(place);
                let end = self.path(place);
                let (new, fresh) = replaced(
                    old,
                    self.blocks[old.target->Node_0 as int],
                    self.blocks.len(),
                    outcome,
                );
                let written = self.write(place, new, fresh);
                &&& written.blocks.len() <= usize::MAX
                &&& new.wf(max)
                &&& !new.frozen
                &&& written.fits(end, new)
                &&& new.target is Value ==> is_key(end + new.bytes)
                &&& forall|node: int|
                    self.blocks.len() <= node < written.blocks.len() ==> fresh_wf(
                        written,
                        is_key,
                        max,
                        end,
                        new,
                        node,
                    )
            }),
    {
        let end = self.path(place);
        let old = self.at(place);
        let node = old.target->Node_0 as int;
        self.lemma_at(place);
        let block = self.blocks[node];
        assert(block.wf(max));
        assert(old.wf(max)) by {
            if let Place::Slot { node, slot } = place {
                assert(self.blocks[node as int].wf(max));
            }
        }
        let base = self.blocks.len();
        let (new, fresh) = replaced(old, block, base, outcome);
        let written = self.write(place, new, fresh);
        assert forall|i: int| 0 <= i < base implies (#[trigger] written.blocks[i]).path
            == self.blocks[i].path by {}
        match outcome {
            Outcome::Delete => {},
            Outcome::Compress { byte } => {
                self.lemma_child_fits(is_key, max, node, byte);
                assert(end + new.bytes =~= block.path.push(byte) + child(block, byte).bytes);
            },
            Outcome::Replace { block: fresh_block } => {
                assert(written.blocks[base as int] == fresh_block) by {
                    assert((self.blocks + fresh)[base as int] == fresh[0]);
                }
                assert forall|i: int|
                    base <= i < written.blocks.len() implies fresh_wf(
                    written,
                    is_key,
                    max,
                    end,
                    new,
                    i,
                ) by {
                    assert(i == base);
                    assert(fresh_block.path.take(end.len() as int) =~= end);
                    assert(fresh_block.path.skip(end.len() as int) =~= old.bytes);
                    assert forall|key: Seq<u8>| #[trigger] is_key(key) implies inner(
                        fresh_block.path,
                        key,
                    ) by {
                        assert(inner(self.blocks[node].path, key));
                    }
                    assert forall|slot: int| 0 <= slot < fresh_block.keys.len() implies {
                        &&& written.fits(
                            fresh_block.path.push(fresh_block.keys[slot]),
                            #[trigger] fresh_block.links[slot],
                        )
                        &&& fresh_block.links[slot].target is Value ==> is_key(
                            fresh_block.path.push(fresh_block.keys[slot])
                                + fresh_block.links[slot].bytes,
                        )
                    } by {
                        let b = fresh_block.keys[slot];
                        lemma_slot(fresh_block.keys, slot);
                        self.lemma_child_fits(is_key, max, node, b);
                        assert(child(fresh_block, b) == child(block, b));
                        if fresh_block.links[slot].target !is Null {
                            assert(!fresh_block.links[slot].frozen);
                            assert(child(fresh_block, b) =~= fresh_block.links[slot]);
                        }
                    }
                }
            },
        }
    }
}

} // verus!
