//! Numbers of threads, which are reused as early as possible.
use vstd::prelude::*;

verus! {

/// Most threads that can have a number at a time.
pub const MAX: usize = 256;

/// Numbers of threads.
pub struct Ids {
    /// How many numbers were handed out for the first time.
    pub count: usize,
    /// Numbers that were given back, in descending order.
    pub free: Vec<usize>,
}

impl Ids {
    pub open spec fn wf(self) -> bool {
        &&& self.count <= MAX
        &&& forall|i: int| 0 <= i < self.free@.len() ==> #[trigger] self.free@[i] < self.count
        &&& forall|i: int, j: int| 0 <= i < j < self.free@.len() ==> self.free@[i] > self.free@[j]
    }

    /// The threads that have a number.
    pub open spec fn taken(self) -> Set<int> {
        Set::new(|id: int| 0 <= id < self.count && !self.free@.contains(id as usize))
    }

    /// No thread has a number.
    pub fn new() -> (ids: Self)
        ensures
            ids.wf(),
            ids.taken() == Set::<int>::empty(),
            ids.count == 0,
    {
        let ids = Ids { count: 0, free: Vec::new() };
        assert(ids.taken() =~= Set::<int>::empty());
        ids
    }

    /// How many numbers were handed out for the first time.
    pub fn count(&self) -> (count: usize)
        ensures
            count == self.count,
    {
        self.count
    }

    /// Hand out the smallest number that was given back, or else a new one.
    ///
    /// Returns `None` if there are too many threads.
    pub fn allocate(&mut self) -> (id: Option<usize>)
        requires
            old(self).wf(),
        ensures
            final(self).wf(),
            match id {
                Some(id) => {
                    &&& id < MAX
                    &&& !old(self).taken().contains(id as int)
                    &&& final(self).taken() == old(self).taken().insert(id as int)
                    &&& forall|other: int|
                        0 <= other < id ==> #[trigger] old(self).taken().contains(other)
                    &&& id < final(self).count
                    &&& final(self).count == (if old(self).free@.len() > 0 {
                        old(self).count
                    } else {
                        (old(self).count + 1) as usize
                    })
                },
                None => {
                    &&& *final(self) == *old(self)
                    &&& forall|other: int|
                        0 <= other < MAX ==> #[trigger] old(self).taken().contains(other)
                },
            },
    {
        let ghost before = *self;
        if self.free.len() > 0 {
            match self.free.pop() {
                Some(id) => {
                    proof {
                        let last = before.free@.len() - 1;
                        assert(before.free@[last] == id);
                        assert(before.free@.contains(id));
                        assert forall|other: int| 0 <= other < id implies #[trigger] before.taken().contains(
                        other) by {
                            if before.free@.contains(other as usize) {
                                let i = before.free@.index_of(other as usize);
                                if i < last {
                                    assert(before.free@[i] > before.free@[last]);
                                }
                            }
                        }
                        assert forall|other: int| self.taken().contains(other)
                            == before.taken().insert(id as int).contains(other) by {
                            if 0 <= other < before.count {
                                if before.free@.contains(other as usize) && other != id {
                                    let i = before.free@.index_of(other as usize);
                                    assert(self.free@[i] == other);
                                }
                                if self.free@.contains(other as usize) {
                                    let i = self.free@.index_of(other as usize);
                                    assert(before.free@[i] == other);
                                    assert(before.free@[i] > before.free@[last]);
                                }
                            }
                        }
                        assert(self.taken() =~= before.taken().insert(id as int));
                    }
                    return Some(id);
                },
                None => {},
            }
        }
        if self.count == MAX {
            proof {
                assert forall|other: int| 0 <= other < MAX implies #[trigger] before.taken().contains(
                other) by {
                    assert(!before.free@.contains(other as usize));
                }
            }
            return None;
        }
        let id: usize = self.count;
        self.count = id + 1;
        proof {
            assert(before.free@.len() == 0);
            assert(self.taken() =~= before.taken().insert(id as int));
        }
        Some(id)
    }

    /// Give a number back.
    pub fn release(&mut self, id: usize)
        requires
            old(self).wf(),
            old(self).taken().contains(id as int),
        ensures
            final(self).wf(),
            final(self).taken() == old(self).taken().remove(id as int),
            final(self).count == old(self).count,
    {
        let ghost before = *self;
        let mut at: usize = self.free.len();
        while at > 0 && self.free[at - 1] < id
            invariant
                *self == before,
                before.wf(),
                at <= self.free@.len(),
                forall|i: int| at <= i < self.free@.len() ==> self.free@[i] < id,
            decreases at,
        {
            at -= 1;
        }
        self.free.insert(at, id);
        proof {
            let old_free = before.free@;
            let new_free = self.free@;
            assert(new_free == old_free.insert(at as int, id));
            assert(!old_free.contains(id));
            assert(at > 0 ==> old_free[at - 1] > id) by {
                if at > 0 {
                    assert(old_free.contains(old_free[at - 1]));
                }
            }
            assert forall|i: int, j: int| 0 <= i < j < new_free.len() implies new_free[i]
                > new_free[j] by {
                let a = if i < at { i } else { i - 1 };
                let b = if j < at { j } else { j - 1 };
                if i < at && at > 0 && i < at - 1 {
                    assert(old_free[i] > old_free[at - 1]);
                }
                if i != at && j != at {
                    assert(old_free[a] > old_free[b]);
                }
            }
            assert forall|i: int| 0 <= i < new_free.len() implies #[trigger] new_free[i]
                < self.count by {
                if i < at {
                    assert(new_free[i] == old_free[i]);
                } else if i > at {
                    assert(new_free[i] == old_free[i - 1]);
                }
            }
            assert forall|other: int| self.taken().contains(other) == before.taken().remove(
                id as int,
            ).contains(other) by {
                if 0 <= other < before.count {
                    if old_free.contains(other as usize) {
                        let i = old_free.index_of(other as usize);
                        if i < at {
                            assert(new_free[i] == other);
                        } else {
                            assert(new_free[i + 1] == other);
                        }
                    }
                    if new_free.contains(other as usize) && other != id {
                        let i = new_free.index_of(other as usize);
                        if i < at {
                            assert(old_free[i] == other);
                        } else {
                            assert(old_free[i - 1] == other);
                        }
                    }
                    assert(new_free[at as int] == id);
                }
            }
            assert(self.taken() =~= before.taken().remove(id as int));
        }
    }
}

/// A thread has a number if it was handed out and not given back, and never more than
/// there can be.
pub proof fn law_taken(ids: Ids, id: int)
    requires
        ids.wf(),
    ensures
        ids.taken().contains(id) <==> 0 <= id < ids.count && forall|i: int|
            0 <= i < ids.free@.len() ==> #[trigger] ids.free@[i] != id,
        ids.taken().contains(id) ==> id < 256,
{
    if 0 <= id < ids.count {
        if ids.free@.contains(id as usize) {
            let i = ids.free@.index_of(id as usize);
            assert(ids.free@[i] == id);
        } else {
            assert forall|i: int| 0 <= i < ids.free@.len() implies #[trigger] ids.free@[i] != id by {
                assert(ids.free@.contains(ids.free@[i]));
            }
        }
    }
}


} // verus!
