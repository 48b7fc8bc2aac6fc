//! Hazard key reclamation.
//!
//! Every node and value in a tree is associated with a key prefix, and so is
//! every operation: a full key for a point operation, a prefix for a scan. An
//! operation never accesses nodes or values whose prefixes do not overlap with
//! its own. A thread publishes the prefix of its operation as a hazard, which
//! protects everything with an overlapping prefix from reclamation.
use vstd::prelude::*;
use crate::bytes::{
    common_len, diverge, lemma_common_len, lemma_common_len_prefix, lemma_common_len_symmetric,
};
use crate::concurrent::smr::hazard::thread::MAX;

pub mod thread;

verus! {

/// One of the prefixes is a prefix of the other.
pub open spec fn overlaps(a: Seq<u8>, b: Seq<u8>) -> bool {
    !diverge(a, b)
}

/// A retired allocation.
pub struct Retired {
    /// Key prefix that the allocation is associated with.
    pub prefix: Vec<u8>,
    /// Whether the allocation is a value; otherwise it is a node.
    pub value: bool,
    /// The allocation.
    pub raw: u64,
}

/// A retired allocation, by its contents.
#[verifier::ext_equal]
pub struct RetiredView {
    pub prefix: Seq<u8>,
    pub value: bool,
    pub raw: u64,
}

impl View for Retired {
    type V = RetiredView;

    open spec fn view(&self) -> RetiredView {
        RetiredView { prefix: self.prefix@, value: self.value, raw: self.raw }
    }
}

/// Retired allocations, by their contents.
pub open spec fn views(retired: Seq<Retired>) -> Seq<RetiredView> {
    Seq::new(retired.len(), |i: int| retired[i]@)
}

/// The allocation may still be accessed.
pub open spec fn protected(hazards: Seq<Option<Vec<u8>>>, retired: RetiredView) -> bool {
    exists|i: int|
        0 <= i < hazards.len() && (#[trigger] hazards[i] matches Some(hazard) && overlaps(
            retired.prefix,
            hazard@,
        ))
}

/// Retired allocations that were not reclaimed, as far as threads have
/// reported them.
#[derive(Copy, Clone, Debug, PartialEq, Eq, Structural)]
pub struct Garbage {
    /// How many there are.
    pub count: u32,
    /// How many there were at most.
    pub most: u32,
}

/// A thread with `local` unreported allocations retires one more. It reports
/// them once they reach the threshold.
pub open spec fn gained(garbage: Garbage, local: i32, threshold: usize) -> (Garbage, i32) {
    let more = local.wrapping_add(1);
    if more >= threshold as i32 {
        let count = garbage.count.wrapping_add(more as u32);
        let most = if count > garbage.most {
            count
        } else {
            garbage.most
        };
        (Garbage { count, most }, 0)
    } else {
        (garbage, more)
    }
}

/// A thread with `local` unreported allocations reclaims some. It reports them
/// once as many more were reclaimed than retired as the threshold says.
pub open spec fn lost(garbage: Garbage, local: i32, threshold: usize, freed: nat) -> (Garbage, i32) {
    let less = local.wrapping_sub(freed as i32);
    if less <= 0i32.wrapping_sub(threshold as i32) {
        (
            Garbage {
                count: garbage.count.wrapping_sub(0i32.wrapping_sub(less) as u32),
                most: garbage.most,
            },
            0,
        )
    } else {
        (garbage, less)
    }
}

/// State of one thread.
pub struct Local {
    /// Number of retired allocations, less those that were reclaimed, that
    /// were not reported yet.
    pub garbage: i32,
    /// Number of operations since the last attempt to reclaim.
    pub cycle: usize,
    /// Retired allocations that were not reclaimed yet.
    pub retired: Vec<Retired>,
}

/// Hazard key backend for safe memory reclamation.
///
/// Only one hazard can be installed at a time per thread, and only up to 256
/// threads are supported.
pub struct Hazard {
    /// Prefix of the operation that each thread is in.
    pub hazards: Vec<Option<Vec<u8>>>,
    pub locals: Vec<Local>,
    pub garbage: Garbage,
    pub membarrier: bool,
    pub reclaim_threshold: usize,
}

/// Whether two prefixes overlap.
pub fn is_conflict(a: &Vec<u8>, b: &Vec<u8>) -> (conflict: bool)
    ensures
        conflict == overlaps(a@, b@),
{
    let mut i: usize = 0;
    proof {
        lemma_common_len(a@, b@);
    }
    while i < a.len() && i < b.len()
        invariant
            i <= a@.len(),
            i <= b@.len(),
            forall|j: int| 0 <= j < i ==> a@[j] == b@[j],
        decreases a@.len() - i,
    {
        if a[i] != b[i] {
            proof {
                crate::bytes::lemma_diverge_at(a@, b@, i as int);
            }
            return false;
        }
        i += 1;
    }
    proof {
        lemma_common_len(a@, b@);
    }
    true
}

impl Hazard {
    pub open spec fn wf(self) -> bool {
        &&& self.hazards@.len() == MAX
        &&& self.locals@.len() == MAX
    }

    /// The other threads are as they were.
    pub open spec fn others_same(self, before: Hazard, id: int) -> bool {
        &&& self.reclaim_threshold == before.reclaim_threshold
        &&& self.membarrier == before.membarrier
        &&& self.locals@.len() == before.locals@.len()
        &&& self.hazards@.len() == before.hazards@.len()
        &&& forall|i: int|
            0 <= i < before.locals@.len() && i != id ==> #[trigger] self.locals@[i]
                == before.locals@[i]
        &&& forall|i: int|
            0 <= i < before.hazards@.len() && i != id ==> #[trigger] self.hazards@[i]
                == before.hazards@[i]
    }
}

impl Default for Hazard {
    /// No operation is under way, and nothing is retired.
    fn default() -> (smr: Self)
        ensures
            smr.wf(),
            smr.reclaim_threshold == 64,
            !smr.membarrier,
            forall|i: int| 0 <= i < MAX ==> #[trigger] smr.hazards@[i] is None,
            forall|i: int|
                0 <= i < MAX ==> (#[trigger] smr.locals@[i]).retired@.len() == 0
                    && smr.locals@[i].cycle == 0 && smr.locals@[i].garbage == 0,
            smr.garbage == (Garbage { count: 0, most: 0 }),
    {
        let mut hazards: Vec<Option<Vec<u8>>> = Vec::new();
        let mut locals: Vec<Local> = Vec::new();
        while locals.len() < MAX
            invariant
                locals@.len() == hazards@.len() <= MAX,
                forall|i: int| 0 <= i < hazards@.len() ==> #[trigger] hazards@[i] is None,
                forall|i: int|
                    0 <= i < locals@.len() ==> (#[trigger] locals@[i]).retired@.len() == 0
                        && locals@[i].cycle == 0 && locals@[i].garbage == 0,
            decreases MAX - locals@.len(),
        {
            hazards.push(None);
            locals.push(Local { garbage: 0, cycle: 0, retired: Vec::new() });
        }
        Hazard {
            hazards,
            locals,
            garbage: Garbage { count: 0, most: 0 },
            membarrier: false,
            reclaim_threshold: 64,
        }
    }
}

impl Hazard {
    /// Configure the number of retired allocations that can accumulate per
    /// thread before the thread looks at all hazards and attempts to reclaim
    /// them.
    pub fn with_reclaim_threshold(self, reclaim_threshold: usize) -> (smr: Self)
        ensures
            smr == (Hazard { reclaim_threshold, ..self }),
    {
        let mut smr = self;
        smr.reclaim_threshold = reclaim_threshold;
        smr
    }

    /// Enable or disable the memory barrier optimization.
    pub fn set_membarrier(&mut self, enable: bool)
        ensures
            *final(self) == (Hazard { membarrier: enable, ..*old(self) }),
    {
        self.membarrier = enable;
    }

    /// Enable the memory barrier optimization.
    pub fn enable_membarrier(&mut self)
        ensures
            *final(self) == (Hazard { membarrier: true, ..*old(self) }),
    {
        self.membarrier = true;
    }

    /// Publish the prefix of an operation.
    pub fn guard(&mut self, id: usize, key: Vec<u8>)
        requires
            old(self).wf(),
            id < MAX,
            old(self).hazards@[id as int] is None,
        ensures
            final(self).wf(),
            final(self).others_same(*old(self), id as int),
            final(self).locals@ == old(self).locals@,
            final(self).garbage == old(self).garbage,
            final(self).hazards@[id as int] == Some(key),
    {
        self.hazards[id] = Some(key);
    }

    /// Count a retired allocation.
    fn gain(&mut self, id: usize)
        requires
            old(self).wf(),
            id < MAX,
        ensures
            final(self).wf(),
            final(self).others_same(*old(self), id as int),
            final(self).hazards@ == old(self).hazards@,
            final(self).locals@[id as int].cycle == old(self).locals@[id as int].cycle,
            final(self).locals@[id as int].retired == old(self).locals@[id as int].retired,
            (final(self).garbage, final(self).locals@[id as int].garbage) == gained(
                old(self).garbage,
                old(self).locals@[id as int].garbage,
                old(self).reclaim_threshold,
            ),
    {
        let more: i32 = self.locals[id].garbage.wrapping_add(1);
        if more >= self.reclaim_threshold as i32 {
            self.garbage.count = self.garbage.count.wrapping_add(more as u32);
            if self.garbage.count > self.garbage.most {
                self.garbage.most = self.garbage.count;
            }
            self.locals[id].garbage = 0;
        } else {
            self.locals[id].garbage = more;
        }
    }

    /// Count reclaimed allocations.
    fn lose(&mut self, id: usize, freed: usize)
        requires
            old(self).wf(),
            id < MAX,
        ensures
            final(self).wf(),
            final(self).others_same(*old(self), id as int),
            final(self).hazards@ == old(self).hazards@,
            final(self).locals@[id as int].cycle == old(self).locals@[id as int].cycle,
            final(self).locals@[id as int].retired == old(self).locals@[id as int].retired,
            (final(self).garbage, final(self).locals@[id as int].garbage) == lost(
                old(self).garbage,
                old(self).locals@[id as int].garbage,
                old(self).reclaim_threshold,
                freed as nat,
            ),
    {
        let less: i32 = self.locals[id].garbage.wrapping_sub(freed as i32);
        if less <= 0i32.wrapping_sub(self.reclaim_threshold as i32) {
            let fewer: i32 = 0i32.wrapping_sub(less);
            self.garbage.count = self.garbage.count.wrapping_sub(fewer as u32);
            self.locals[id].garbage = 0;
        } else {
            self.locals[id].garbage = less;
        }
    }

    /// The largest number of retired allocations that were not reclaimed, as
    /// far as threads have reported them.
    pub fn garbage(&self) -> (garbage: u32)
        ensures
            garbage == self.garbage.most,
    {
        self.garbage.most
    }

    /// Hand over a node, which `len` bytes of the operation's key lead to.
    pub fn retire_node(&mut self, id: usize, len: usize, node: u64)
        requires
            old(self).wf(),
            id < MAX,
            old(self).hazards@[id as int] matches Some(key) && len <= key@.len(),
        ensures
            final(self).wf(),
            final(self).others_same(*old(self), id as int),
            final(self).hazards@ == old(self).hazards@,
            final(self).locals@[id as int].cycle == old(self).locals@[id as int].cycle,
            (final(self).garbage, final(self).locals@[id as int].garbage) == gained(
                old(self).garbage,
                old(self).locals@[id as int].garbage,
                old(self).reclaim_threshold,
            ),
            views(final(self).locals@[id as int].retired@) == views(
                old(self).locals@[id as int].retired@,
            ).push(
                RetiredView {
                    prefix: old(self).hazards@[id as int]->0@.take(len as int),
                    value: false,
                    raw: node,
                },
            ),
    {
        let ghost before = *self;
        let mut prefix: Vec<u8> = Vec::new();
        if let Some(key) = &self.hazards[id] {
            let mut i: usize = 0;
            while i < len
                invariant
                    i <= len <= key@.len(),
                    prefix@ == key@.take(i as int),
                decreases len - i,
            {
                prefix.push(key[i]);
                i += 1;
                assert(prefix@ =~= key@.take(i as int));
            }
        }
        let retired = Retired { prefix, value: false, raw: node };
        self.gain(id);
        self.locals[id].retired.push(retired);
        proof {
            assert(views(self.locals@[id as int].retired@) =~= views(
                before.locals@[id as int].retired@,
            ).push(retired@));
        }
    }

    /// Hand over a value, which the operation's key leads to.
    pub fn retire_value(&mut self, id: usize, value: u64)
        requires
            old(self).wf(),
            id < MAX,
            old(self).hazards@[id as int] is Some,
        ensures
            final(self).wf(),
            final(self).others_same(*old(self), id as int),
            final(self).hazards@ == old(self).hazards@,
            final(self).locals@[id as int].cycle == old(self).locals@[id as int].cycle,
            (final(self).garbage, final(self).locals@[id as int].garbage) == gained(
                old(self).garbage,
                old(self).locals@[id as int].garbage,
                old(self).reclaim_threshold,
            ),
            views(final(self).locals@[id as int].retired@) == views(
                old(self).locals@[id as int].retired@,
            ).push(
                RetiredView {
                    prefix: old(self).hazards@[id as int]->0@,
                    value: true,
                    raw: value,
                },
            ),
    {
        let ghost before = *self;
        let mut prefix: Vec<u8> = Vec::new();
        if let Some(key) = &self.hazards[id] {
            let mut i: usize = 0;
            while i < key.len()
                invariant
                    i <= key@.len(),
                    prefix@ == key@.take(i as int),
                decreases key@.len() - i,
            {
                prefix.push(key[i]);
                i += 1;
                assert(prefix@ =~= key@.take(i as int));
            }
            assert(prefix@ =~= key@);
        }
        let retired = Retired { prefix, value: true, raw: value };
        self.gain(id);
        self.locals[id].retired.push(retired);
        proof {
            assert(views(self.locals@[id as int].retired@) =~= views(
                before.locals@[id as int].retired@,
            ).push(retired@));
        }
    }

    /// Whether some operation may still access the allocation.
    fn is_protected(&self, retired: &Retired) -> (found: bool)
        ensures
            found == protected(self.hazards@, retired@),
    {
        let mut i: usize = 0;
        while i < self.hazards.len()
            invariant
                i <= self.hazards@.len(),
                forall|j: int|
                    0 <= j < i ==> !(#[trigger] self.hazards@[j] matches Some(hazard) && overlaps(
                        retired@.prefix,
                        hazard@,
                    )),
            decreases self.hazards@.len() - i,
        {
            if let Some(hazard) = &self.hazards[i] {
                if is_conflict(&retired.prefix, hazard) {
                    assert(self.hazards@[i as int] matches Some(hazard) && overlaps(
                        retired@.prefix,
                        hazard@,
                    ));
                    return true;
                }
            }
            i += 1;
        }
        false
    }

    /// Take out the retired allocations of a thread that no operation can
    /// access any more.
    ///
    /// The caller is to free them.
    pub fn flush(&mut self, id: usize) -> (freed: Vec<Retired>)
        requires
            old(self).wf(),
            id < MAX,
        ensures
            final(self).wf(),
            final(self).others_same(*old(self), id as int),
            final(self).hazards@ == old(self).hazards@,
            final(self).locals@[id as int].cycle == old(self).locals@[id as int].cycle,
            (final(self).garbage, final(self).locals@[id as int].garbage) == lost(
                old(self).garbage,
                old(self).locals@[id as int].garbage,
                old(self).reclaim_threshold,
                freed@.len(),
            ),
            views(final(self).locals@[id as int].retired@) == views(
                old(self).locals@[id as int].retired@,
            ).filter(|retired: RetiredView| protected(old(self).hazards@, retired)),
            views(freed@) == views(old(self).locals@[id as int].retired@).filter(
                |retired: RetiredView| !protected(old(self).hazards@, retired),
            ),
    {
        let ghost before = *self;
        let ghost hazards = self.hazards@;
        let ghost all = views(self.locals@[id as int].retired@);
        let ghost keep = |retired: RetiredView| protected(hazards, retired);
        let ghost free = |retired: RetiredView| !protected(hazards, retired);
        let mut todo: Vec<Retired> = Vec::new();
        core::mem::swap(&mut todo, &mut self.locals[id].retired);
        let mut freed: Vec<Retired> = Vec::new();
        let mut kept: Vec<Retired> = Vec::new();
        let mut rest: Vec<Retired> = Vec::new();
        // Reverse, so that the oldest is taken out first.
        while todo.len() > 0
            invariant
                todo@.len() + rest@.len() == all.len(),
                forall|i: int| 0 <= i < todo@.len() ==> (#[trigger] todo@[i])@ == all[i],
                forall|i: int|
                    0 <= i < rest@.len() ==> (#[trigger] rest@[i])@ == all[all.len() - 1 - i],
            decreases todo@.len(),
        {
            if let Some(last) = todo.pop() {
                rest.push(last);
            }
        }
        let ghost mut done: int = 0;
        proof {
            reveal(Seq::filter);
            assert(all.take(0) =~= Seq::<RetiredView>::empty());
            assert(views(kept@) =~= Seq::<RetiredView>::empty());
            assert(views(freed@) =~= Seq::<RetiredView>::empty());
        }
        while rest.len() > 0
            invariant
                self.wf(),
                id < MAX,
                self.hazards@ == hazards,
                self.others_same(before, id as int),
                self.garbage == before.garbage,
                self.locals@[id as int].garbage == before.locals@[id as int].garbage,
                self.locals@[id as int].cycle == before.locals@[id as int].cycle,
                keep == (|retired: RetiredView| protected(hazards, retired)),
                free == (|retired: RetiredView| !protected(hazards, retired)),
                0 <= done <= all.len(),
                rest@.len() == all.len() - done,
                forall|i: int|
                    0 <= i < rest@.len() ==> (#[trigger] rest@[i])@ == all[all.len() - 1 - i],
                views(kept@) == all.take(done).filter(keep),
                views(freed@) == all.take(done).filter(free),
            decreases rest@.len(),
        {
            let ghost kept_before = kept@;
            let ghost freed_before = freed@;
            if let Some(next) = rest.pop() {
                proof {
                    assert(next@ == all[done]);
                    let now = all.take(done + 1);
                    assert(now.drop_last() =~= all.take(done));
                    assert(now.last() == next@);
                    reveal(Seq::filter);
                    assert(now.filter(keep) == (if keep(next@) {
                        all.take(done).filter(keep).push(next@)
                    } else {
                        all.take(done).filter(keep)
                    }));
                    assert(now.filter(free) == (if free(next@) {
                        all.take(done).filter(free).push(next@)
                    } else {
                        all.take(done).filter(free)
                    }));
                    done = done + 1;
                }
                if self.is_protected(&next) {
                    kept.push(next);
                    assert(views(kept@) =~= views(kept_before).push(next@));
                } else {
                    freed.push(next);
                    assert(views(freed@) =~= views(freed_before).push(next@));
                }
            }
        }
        proof {
            assert(all.take(done) =~= all);
        }
        self.locals[id].retired = kept;
        self.lose(id, freed.len());
        freed
    }

    /// Withdraw the hazard of an operation.
    ///
    /// Once enough allocations are retired, an attempt to reclaim them is made
    /// at the end of every so many operations. The caller is to free what is
    /// returned.
    pub fn release(&mut self, id: usize) -> (freed: Vec<Retired>)
        requires
            old(self).wf(),
            id < MAX,
        ensures
            final(self).wf(),
            final(self).others_same(*old(self), id as int),
            final(self).hazards@ == old(self).hazards@.update(id as int, None),
            ({
                let local = old(self).locals@[id as int];
                let due = local.retired@.len() >= old(self).reclaim_threshold;
                &&& final(self).locals@[id as int].cycle == (if !due || local.cycle
                    == old(self).reclaim_threshold {
                    0
                } else {
                    local.cycle.wrapping_add(1)
                })
                &&& if due && local.cycle == 0 {
                    &&& views(final(self).locals@[id as int].retired@) == views(
                        local.retired@,
                    ).filter(|retired: RetiredView| protected(final(self).hazards@, retired))
                    &&& views(freed@) == views(local.retired@).filter(
                        |retired: RetiredView| !protected(final(self).hazards@, retired),
                    )
                    &&& (final(self).garbage, final(self).locals@[id as int].garbage) == lost(
                        old(self).garbage,
                        local.garbage,
                        old(self).reclaim_threshold,
                        freed@.len(),
                    )
                } else {
                    &&& final(self).garbage == old(self).garbage
                    &&& final(self).locals@[id as int].garbage == local.garbage
                    &&& views(final(self).locals@[id as int].retired@) == views(local.retired@)
                    &&& freed@.len() == 0
                }
            }),
    {
        self.hazards[id] = None;
        if self.locals[id].retired.len() < self.reclaim_threshold {
            self.locals[id].cycle = 0;
            return Vec::new();
        }
        let cycle: usize = self.locals[id].cycle;
        let freed = if cycle == 0 {
            self.flush(id)
        } else {
            Vec::new()
        };
        self.locals[id].cycle = if cycle == self.reclaim_threshold {
            0
        } else {
            cycle.wrapping_add(1)
        };
        freed
    }

    /// Eagerly take out all retired allocations of the first `count` threads.
    ///
    /// The caller is to free them.
    pub fn reclaim(&mut self, count: usize) -> (freed: Vec<Retired>)
        requires
            old(self).wf(),
            count <= MAX,
        ensures
            final(self).wf(),
            final(self).hazards@ == old(self).hazards@,
            final(self).reclaim_threshold == old(self).reclaim_threshold,
            final(self).membarrier == old(self).membarrier,
            final(self).garbage == old(self).garbage,
            views(freed@) == all_retired(old(self).locals@, count as int),
            forall|i: int|
                0 <= i < count ==> (#[trigger] final(self).locals@[i]).retired@.len() == 0
                    && final(self).locals@[i].cycle == old(self).locals@[i].cycle
                    && final(self).locals@[i].garbage == old(self).locals@[i].garbage,
            forall|i: int|
                count <= i < MAX ==> #[trigger] final(self).locals@[i] == old(self).locals@[i],
    {
        let ghost before = *self;
        let mut freed: Vec<Retired> = Vec::new();
        let mut id: usize = 0;
        assert(views(freed@) =~= Seq::<RetiredView>::empty());
        while id < count
            invariant
                self.wf(),
                id <= count <= MAX,
                self.hazards@ == before.hazards@,
                self.reclaim_threshold == before.reclaim_threshold,
                self.membarrier == before.membarrier,
                self.garbage == before.garbage,
                views(freed@) == all_retired(before.locals@, id as int),
                forall|i: int|
                    0 <= i < id ==> (#[trigger] self.locals@[i]).retired@.len() == 0
                        && self.locals@[i].cycle == before.locals@[i].cycle
                        && self.locals@[i].garbage == before.locals@[i].garbage,
                forall|i: int| id <= i < MAX ==> #[trigger] self.locals@[i] == before.locals@[i],
            decreases count - id,
        {
            let mut retired: Vec<Retired> = Vec::new();
            core::mem::swap(&mut retired, &mut self.locals[id].retired);
            let ghost freed_before = freed@;
            let ghost more = retired@;
            freed.append(&mut retired);
            assert(views(freed@) =~= views(freed_before) + views(more));
            id += 1;
        }
        freed
    }
}

/// Retired allocations of the first `n` threads.
pub open spec fn all_retired(locals: Seq<Local>, n: int) -> Seq<RetiredView>
    decreases n,
{
    if n <= 0 {
        Seq::empty()
    } else {
        all_retired(locals, n - 1) + views(locals[n - 1].retired@)
    }
}

/// What is reclaimed does not overlap with any operation that is under way.
pub proof fn law_reclaimed_is_unprotected(
    hazards: Seq<Option<Vec<u8>>>,
    retired: Seq<RetiredView>,
    freed: Seq<RetiredView>,
    i: int,
    id: int,
)
    requires
        freed == retired.filter(|retired: RetiredView| !protected(hazards, retired)),
        0 <= i < freed.len(),
        0 <= id < hazards.len(),
        hazards[id] is Some,
    ensures
        retired.contains(freed[i]),
        diverge(freed[i].prefix, hazards[id]->0@),
{
    let free = |retired: RetiredView| !protected(hazards, retired);
    assert(freed.contains(freed[i]));
    retired.lemma_filter_contains_rev(free, freed[i]);
    retired.lemma_filter_pred(free, i);
    assert(!protected(hazards, freed[i]));
    let _ = hazards[id];
}

/// Two prefixes overlap exactly if one of them begins with the other, so that
/// some key begins with both.
pub proof fn law_overlaps(a: Seq<u8>, b: Seq<u8>)
    ensures
        overlaps(a, b) <==> a.is_prefix_of(b) || b.is_prefix_of(a),
        overlaps(a, b) <==> exists|key: Seq<u8>|
            a.is_prefix_of(key) && #[trigger] b.is_prefix_of(key),
        overlaps(a, b) <==> overlaps(b, a),
{
    lemma_common_len_prefix(a, b);
    lemma_common_len_prefix(b, a);
    lemma_common_len_symmetric(a, b);
    lemma_common_len(a, b);
    assert(a =~= a.subrange(0, a.len() as int));
    assert(b =~= b.subrange(0, b.len() as int));
    if a.is_prefix_of(b) {
        assert(b.is_prefix_of(b));
    }
    if b.is_prefix_of(a) {
        assert(b.is_prefix_of(a) && a.is_prefix_of(a));
    }
    if exists|key: Seq<u8>| a.is_prefix_of(key) && #[trigger] b.is_prefix_of(key) {
        let key = choose|key: Seq<u8>| a.is_prefix_of(key) && #[trigger] b.is_prefix_of(key);
        assert forall|i: int| 0 <= i < a.len() && i < b.len() implies a[i] == b[i] by {
            assert(key.subrange(0, a.len() as int)[i] == key[i]);
            assert(key.subrange(0, b.len() as int)[i] == key[i]);
        }
        if diverge(a, b) {
            let n = common_len(a, b) as int;
            assert(a[n] == b[n]);
        }
    }
}

/// An allocation is protected exactly while some thread is in an operation whose
/// prefix overlaps with its own.
pub proof fn law_protected(hazards: Seq<Option<Vec<u8>>>, retired: RetiredView)
    ensures
        protected(hazards, retired) <==> exists|i: int|
            0 <= i < hazards.len() && (#[trigger] hazards[i]) is Some && (
            retired.prefix.is_prefix_of(hazards[i]->0@) || hazards[i]->0@.is_prefix_of(
                retired.prefix,
            )),
{
    assert forall|i: int| 0 <= i < hazards.len() && (#[trigger] hazards[i]) is Some implies overlaps(
        retired.prefix,
        hazards[i]->0@,
    ) == (retired.prefix.is_prefix_of(hazards[i]->0@) || hazards[i]->0@.is_prefix_of(
        retired.prefix,
    )) by {
        law_overlaps(retired.prefix, hazards[i]->0@);
    }
    if protected(hazards, retired) {
        let i = choose|i: int|
            0 <= i < hazards.len() && (#[trigger] hazards[i] matches Some(hazard) && overlaps(
                retired.prefix,
                hazard@,
            ));
        assert(hazards[i] is Some);
    }
    if exists|i: int|
        0 <= i < hazards.len() && (#[trigger] hazards[i]) is Some && (retired.prefix.is_prefix_of(
            hazards[i]->0@,
        ) || hazards[i]->0@.is_prefix_of(retired.prefix)) {
        let i = choose|i: int|
            0 <= i < hazards.len() && (#[trigger] hazards[i]) is Some && (
            retired.prefix.is_prefix_of(hazards[i]->0@) || hazards[i]->0@.is_prefix_of(
                retired.prefix,
            ));
        assert(hazards[i] is Some);
    }
}

/// What threads have reported and what they have not make up all allocations
/// that were retired and not reclaimed, and the largest report is kept.
pub proof fn law_garbage(garbage: Garbage, local: i32, threshold: usize, freed: nat)
    requires
        0 < threshold <= 0x4000_0000,
        -0x4000_0000 <= local <= 0x4000_0000,
        freed <= 0x2000_0000,
        0 <= garbage.count + local - freed,
        garbage.count + local < u32::MAX,
    ensures
        gained(garbage, local, threshold).0.count + gained(garbage, local, threshold).1
            == garbage.count + local + 1,
        gained(garbage, local, threshold).0.most == (if gained(garbage, local, threshold).0.count
            > garbage.most && local + 1 >= threshold {
            gained(garbage, local, threshold).0.count
        } else {
            garbage.most
        }),
        gained(garbage, local, threshold).1 < threshold,
        local + 1 < threshold ==> gained(garbage, local, threshold).0 == garbage,
        lost(garbage, local, threshold, freed).0.count + lost(garbage, local, threshold, freed).1
            == garbage.count + local - freed,
        lost(garbage, local, threshold, freed).0.most == garbage.most,
        lost(garbage, local, threshold, freed).1 > -threshold,
        local - freed > -threshold ==> lost(garbage, local, threshold, freed).0 == garbage,
{
}


/// What a thread does leaves the other threads alone: their hazards, what they have
/// retired, and what they have counted.
pub proof fn law_others(before: Hazard, after: Hazard, id: int, other: int)
    requires
        before.wf(),
        after.others_same(before, id),
        0 <= other < MAX,
        other != id,
    ensures
        after.hazards@[other] == before.hazards@[other],
        after.locals@[other] == before.locals@[other],
        after.reclaim_threshold == before.reclaim_threshold,
        after.membarrier == before.membarrier,
        after.wf(),
{
}

/// Taking out the allocations of the first threads takes out each of theirs, and no
/// other.
pub proof fn law_all_retired(locals: Seq<Local>, n: int, retired: RetiredView)
    requires
        0 <= n <= locals.len(),
    ensures
        all_retired(locals, n).contains(retired) <==> exists|i: int, j: int|
            #![trigger locals[i].retired@[j]]
            0 <= i < n && 0 <= j < locals[i].retired@.len() && locals[i].retired@[j]@ == retired,
        n > 0 ==> all_retired(locals, n).len() == all_retired(locals, n - 1).len()
            + locals[n - 1].retired@.len(),
    decreases n,
{
    if n > 0 {
        law_all_retired(locals, n - 1, retired);
        let front = all_retired(locals, n - 1);
        let back = views(locals[n - 1].retired@);
        let all = all_retired(locals, n);
        if all.contains(retired) {
            let k = all.index_of(retired);
            if k < front.len() {
                assert(front[k] == retired);
                assert(front.contains(retired));
            } else {
                let j = k - front.len();
                assert(back[j] == retired);
                assert(locals[n - 1].retired@[j]@ == retired);
            }
        }
        if exists|i: int, j: int|
            #![trigger locals[i].retired@[j]]
            0 <= i < n && 0 <= j < locals[i].retired@.len() && locals[i].retired@[j]@ == retired {
            let (i, j) = choose|i: int, j: int|
                #![trigger locals[i].retired@[j]]
                0 <= i < n && 0 <= j < locals[i].retired@.len() && locals[i].retired@[j]@ == retired;
            if i < n - 1 {
                assert(front.contains(retired));
                assert(all[front.index_of(retired)] == retired);
            } else {
                assert(back[j] == retired);
                assert(all[front.len() + j] == retired);
            }
        }
    }
}

/// An attempt to reclaim splits what a thread has retired: each allocation is either
/// kept because an operation may access it, or given up, and none is both.
pub proof fn law_split(hazards: Seq<Option<Vec<u8>>>, retired: Seq<RetiredView>, one: RetiredView)
    ensures
        ({
            let kept = retired.filter(|retired: RetiredView| protected(hazards, retired));
            let freed = retired.filter(|retired: RetiredView| !protected(hazards, retired));
            &&& kept.len() + freed.len() == retired.len()
            &&& retired.contains(one) <==> kept.contains(one) || freed.contains(one)
            &&& kept.contains(one) ==> protected(hazards, one)
            &&& freed.contains(one) ==> !protected(hazards, one)
        }),
    decreases retired.len(),
{
    let keep = |retired: RetiredView| protected(hazards, retired);
    let free = |retired: RetiredView| !protected(hazards, retired);
    let kept = retired.filter(keep);
    let freed = retired.filter(free);
    lemma_split_len(hazards, retired);
    if retired.contains(one) {
        if protected(hazards, one) {
            retired.lemma_filter_contains(keep, retired.index_of(one));
        } else {
            retired.lemma_filter_contains(free, retired.index_of(one));
        }
    }
    if kept.contains(one) {
        retired.lemma_filter_contains_rev(keep, one);
        retired.lemma_filter_pred(keep, kept.index_of(one));
    }
    if freed.contains(one) {
        retired.lemma_filter_contains_rev(free, one);
        retired.lemma_filter_pred(free, freed.index_of(one));
    }
}

proof fn lemma_split_len(hazards: Seq<Option<Vec<u8>>>, retired: Seq<RetiredView>)
    ensures
        retired.filter(|retired: RetiredView| protected(hazards, retired)).len() + retired.filter(
            |retired: RetiredView| !protected(hazards, retired),
        ).len() == retired.len(),
    decreases retired.len(),
{
    reveal(Seq::filter);
    if retired.len() > 0 {
        lemma_split_len(hazards, retired.drop_last());
    }
}


/// Retired allocations are told apart by all that they are: by the bytes that they
/// are filed under, by whether they are values, and by the allocation itself.
pub proof fn law_views(retired: Seq<Retired>, i: int)
    requires
        0 <= i < retired.len(),
    ensures
        views(retired).len() == retired.len(),
        views(retired)[i].prefix == retired[i].prefix@,
        views(retired)[i].value == retired[i].value,
        views(retired)[i].raw == retired[i].raw,
{
}


} // verus!
