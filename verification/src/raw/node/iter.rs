//! Iteration over the keys of a single node.
use vstd::prelude::*;

verus! {

/// A key byte and the index of the edge slot that it is mapped to.
#[derive(Copy, Clone, Debug, PartialEq, Eq, Structural)]
pub struct KeyIndex {
    pub key: u8,
    pub index: u8,
}

impl KeyIndex {
    /// Whether `self` sorts after `other`: by key first, then by index.
    pub fn is_after(self, other: KeyIndex) -> (after: bool)
        ensures
            after == (self.key > other.key || (self.key == other.key && self.index > other.index)),
    {
        self.key > other.key || (self.key == other.key && self.index > other.index)
    }
}

/// Entries with a key from `lower` to `upper` among the first `n` slots, in
/// slot order.
pub open spec fn in_slot_order(keys: Seq<u8>, lower: u8, upper: u8, n: int) -> Seq<KeyIndex>
    decreases n,
{
    if n <= 0 {
        Seq::empty()
    } else if lower <= keys[n - 1] <= upper {
        in_slot_order(keys, lower, upper, n - 1).push(
            KeyIndex { key: keys[n - 1], index: (n - 1) as u8 },
        )
    } else {
        in_slot_order(keys, lower, upper, n - 1)
    }
}

/// The slot that holds `key`.
pub open spec fn slot_of(keys: Seq<u8>, key: u8) -> int {
    choose|i: int| 0 <= i < keys.len() && keys[i] == key
}

/// Entries with a key from `lower` to `upper` and less than `n`, in key order.
pub open spec fn in_key_order(keys: Seq<u8>, lower: u8, upper: u8, n: int) -> Seq<KeyIndex>
    decreases n,
{
    if n <= 0 {
        Seq::empty()
    } else if lower <= n - 1 <= upper && keys.contains((n - 1) as u8) {
        in_key_order(keys, lower, upper, n - 1).push(
            KeyIndex { key: (n - 1) as u8, index: slot_of(keys, (n - 1) as u8) as u8 },
        )
    } else {
        in_key_order(keys, lower, upper, n - 1)
    }
}

/// Keys in strictly ascending order.
pub open spec fn ascending(entries: Seq<KeyIndex>) -> bool {
    forall|i: int, j: int|
        0 <= i < j < entries.len() ==> #[trigger] entries[i].key < #[trigger] entries[j].key
}

/// No key occurs twice.
pub open spec fn distinct(entries: Seq<KeyIndex>) -> bool {
    forall|i: int, j: int|
        0 <= i < j < entries.len() ==> #[trigger] entries[i].key != #[trigger] entries[j].key
}

/// Double-ended iterator over at most `N` entries.
#[derive(Copy, Clone, Debug)]
pub struct KeyIterN<const N: usize> {
    entries: [KeyIndex; N],
    head: u8,
    tail: u8,
}

pub type KeyIter3 = KeyIterN<3>;

pub type KeyIter15 = KeyIterN<15>;

pub type KeyIter47 = KeyIterN<47>;

impl<const N: usize> KeyIterN<N> {
    pub closed spec fn wf(self) -> bool {
        self.head <= self.tail <= N <= 255
    }

    /// Entries that are still to come.
    pub closed spec fn remaining(self) -> Seq<KeyIndex> {
        self.entries@.subrange(self.head as int, self.tail as int)
    }

    /// Iterator without entries.
    pub fn new() -> (iter: Self)
        requires
            N <= 255,
        ensures
            iter.wf(),
            iter.remaining() == Seq::<KeyIndex>::empty(),
            iter.room() == N,
            iter.fresh(),
    {
        let iter = KeyIterN { entries: [KeyIndex { key: 0, index: 0 }; N], head: 0, tail: 0 };
        assert(iter.remaining() =~= Seq::<KeyIndex>::empty());
        iter
    }

    /// Number of entries that can be added.
    pub closed spec fn room(self) -> int {
        N - self.tail
    }

    /// Add an entry at the back.
    pub fn push(&mut self, entry: KeyIndex)
        requires
            old(self).wf(),
            old(self).room() > 0,
        ensures
            final(self).wf(),
            final(self).remaining() == old(self).remaining().push(entry),
            final(self).room() == old(self).room() - 1,
            final(self).fresh() == old(self).fresh(),
    {
        self.entries[self.tail as usize] = entry;
        self.tail += 1;
        assert(self.remaining() =~= old(self).remaining().push(entry));
    }

    /// Take the entry at the front.
    pub fn next(&mut self) -> (entry: Option<KeyIndex>)
        requires
            old(self).wf(),
        ensures
            final(self).wf(),
            old(self).remaining().len() == 0 ==> entry is None && *final(self) == *old(self),
            old(self).remaining().len() > 0 ==> entry == Some(old(self).remaining().first())
                && final(self).remaining() == old(self).remaining().drop_first(),
    {
        if self.head == self.tail {
            return None;
        }
        let next = self.entries[self.head as usize];
        self.head += 1;
        assert(self.remaining() =~= old(self).remaining().drop_first());
        Some(next)
    }

    /// Take the entry at the back.
    pub fn next_back(&mut self) -> (entry: Option<KeyIndex>)
        requires
            old(self).wf(),
        ensures
            final(self).wf(),
            old(self).remaining().len() == 0 ==> entry is None && *final(self) == *old(self),
            old(self).remaining().len() > 0 ==> entry == Some(old(self).remaining().last())
                && final(self).remaining() == old(self).remaining().drop_last(),
    {
        if self.head == self.tail {
            return None;
        }
        self.tail -= 1;
        assert(self.remaining() =~= old(self).remaining().drop_last());
        Some(self.entries[self.tail as usize])
    }

    /// Number of entries that are still to come.
    pub fn len(&self) -> (len: usize)
        requires
            self.wf(),
        ensures
            len == self.remaining().len(),
    {
        (self.tail - self.head) as usize
    }
}

/// `b` holds the entries of `a`, perhaps in another order.
pub open spec fn same_entries(a: Seq<KeyIndex>, b: Seq<KeyIndex>) -> bool {
    &&& a.len() == b.len()
    &&& forall|e: KeyIndex|
        #![trigger a.contains(e)]
        #![trigger b.contains(e)]
        a.contains(e) <==> b.contains(e)
}

/// `a` sorts after `b`: by key first, then by index.
pub open spec fn sorts_after(a: KeyIndex, b: KeyIndex) -> bool {
    a.key > b.key || (a.key == b.key && a.index > b.index)
}

/// The entries are sorted by key, then by index.
pub open spec fn ordered(entries: Seq<KeyIndex>) -> bool {
    forall|i: int, j: int|
        0 <= i < j < entries.len() ==> !sorts_after(#[trigger] entries[i], #[trigger] entries[j])
}

/// Exchanging two entries keeps the entries.
proof fn lemma_swap(a: Seq<KeyIndex>, i: int, j: int)
    requires
        0 <= i < a.len(),
        0 <= j < a.len(),
        i != j,
    ensures
        a.update(i, a[j]).update(j, a[i]).to_multiset() == a.to_multiset(),
{
    broadcast use vstd::multiset::group_multiset_axioms;

    let b = a.update(i, a[j]);
    vstd::seq_lib::to_multiset_update(a, i, a[j]);
    vstd::seq_lib::to_multiset_update(b, j, a[i]);
    vstd::seq_lib::to_multiset_contains(a, a[i]);
    vstd::seq_lib::to_multiset_contains(a, a[j]);
    assert(a.contains(a[i]) && a.contains(a[j]));
    assert(b.update(j, a[i]).to_multiset() =~= a.to_multiset());
}

/// Sorted entries with distinct keys ascend.
proof fn lemma_ordered(a: Seq<KeyIndex>, b: Seq<KeyIndex>)
    requires
        distinct(a),
        ordered(b),
        a.to_multiset() == b.to_multiset(),
    ensures
        ascending(b),
        same_entries(a, b),
{
    broadcast use vstd::seq_lib::group_to_multiset_ensures;

    assert forall|i: int, j: int| 0 <= i < a.len() && 0 <= j < a.len() && i != j implies a[i]
        != a[j] by {
        if i < j {
            assert(a[i].key != a[j].key);
        } else {
            assert(a[j].key != a[i].key);
        }
    }
    a.lemma_multiset_has_no_duplicates();
    b.lemma_multiset_has_no_duplicates_conv();
    vstd::seq_lib::to_multiset_len(a);
    vstd::seq_lib::to_multiset_len(b);
    assert forall|e: KeyIndex|
        #![trigger a.contains(e)]
        #![trigger b.contains(e)]
        a.contains(e) <==> b.contains(e) by {
        vstd::seq_lib::to_multiset_contains(a, e);
        vstd::seq_lib::to_multiset_contains(b, e);
    }
    assert forall|i: int, j: int| 0 <= i < j < b.len() implies #[trigger] b[i].key
        < #[trigger] b[j].key by {
        assert(b.contains(b[i]) && b.contains(b[j]));
        let x = a.index_of(b[i]);
        let y = a.index_of(b[j]);
        assert(a[x] == b[i] && a[y] == b[j]);
        assert(!sorts_after(b[i], b[j]));
        if b[i].key == b[j].key {
            if x < y {
                assert(a[x].key != a[y].key);
            } else if y < x {
                assert(a[y].key != a[x].key);
            }
        }
    }
}

impl<const N: usize> KeyIterN<N> {
    /// No entry has been taken yet.
    pub closed spec fn fresh(self) -> bool {
        self.head == 0
    }

    /// Number of entries that were taken at the front.
    pub closed spec fn taken(self) -> nat {
        self.head as nat
    }

    /// The entries that were added, whether taken at the front or not.
    pub closed spec fn whole(self) -> Seq<KeyIndex> {
        self.entries@.subrange(0, self.tail as int)
    }

    /// What is stored beyond the entries that were added.
    pub closed spec fn beyond(self) -> Seq<KeyIndex> {
        self.entries@.subrange(self.tail as int, N as int)
    }

    /// What sorting does: the entries that were added are sorted by key, then
    /// by index, and nothing else changes.
    pub open spec fn sorts(self, after: Self) -> bool {
        &&& after.wf()
        &&& after.taken() == self.taken()
        &&& after.beyond() == self.beyond()
        &&& ordered(after.whole())
        &&& after.whole().to_multiset() == self.whole().to_multiset()
        &&& self.fresh() && distinct(self.remaining()) ==> {
            &&& ascending(after.remaining())
            &&& same_entries(self.remaining(), after.remaining())
        }
    }

    /// Sorting, given that the entries are in order.
    proof fn lemma_sorts(self, after: Self)
        requires
            self.wf(),
            after.wf(),
            after.head == self.head,
            after.tail == self.tail,
            after.beyond() == self.beyond(),
            ordered(after.whole()),
            after.whole().to_multiset() == self.whole().to_multiset(),
        ensures
            self.sorts(after),
    {
        if self.fresh() && distinct(self.remaining()) {
            assert(self.remaining() =~= self.whole());
            assert(after.remaining() =~= after.whole());
            lemma_ordered(self.whole(), after.whole());
        }
    }
}

impl KeyIterN<3> {
    /// Sort the entries by key, then by index.
    pub fn sort(&mut self)
        requires
            old(self).wf(),
        ensures
            old(self).sorts(*final(self)),
    {
        let ghost before = self.whole();
        if self.tail <= 1 {
            proof {
                old(self).lemma_sorts(*self);
            }
            return ;
        }
        let mut a = self.entries[0];
        let mut b = self.entries[1];
        assert(before[0] == a && before[1] == b);
        if self.tail == 2 {
            if a.is_after(b) {
                self.entries[0] = b;
                self.entries[1] = a;
                proof {
                    lemma_swap(before, 0, 1);
                    assert(self.whole() =~= before.update(0, before[1]).update(1, before[0]));
                }
            }
            assert(self.whole()[0] == self.entries@[0]);
            assert(self.whole()[1] == self.entries@[1]);
            proof {
                assert(self.beyond() =~= old(self).beyond());
                old(self).lemma_sorts(*self);
            }
            return ;
        }
        let mut c = self.entries[2];
        assert(before =~= seq![a, b, c]);
        if a.is_after(b) {
            proof {
                lemma_swap(seq![a, b, c], 0, 1);
                assert(seq![b, a, c] =~= seq![a, b, c].update(0, b).update(1, a));
            }
            core::mem::swap(&mut a, &mut b);
        }
        assert(seq![a, b, c].to_multiset() == before.to_multiset());
        if a.is_after(c) {
            proof {
                lemma_swap(seq![a, b, c], 0, 2);
                assert(seq![c, b, a] =~= seq![a, b, c].update(0, c).update(2, a));
            }
            core::mem::swap(&mut a, &mut c);
        }
        assert(seq![a, b, c].to_multiset() == before.to_multiset());
        if b.is_after(c) {
            proof {
                lemma_swap(seq![a, b, c], 1, 2);
                assert(seq![a, c, b] =~= seq![a, b, c].update(1, c).update(2, b));
            }
            core::mem::swap(&mut b, &mut c);
        }
        assert(seq![a, b, c].to_multiset() == before.to_multiset());
        self.entries[0] = a;
        self.entries[1] = b;
        self.entries[2] = c;
        proof {
            assert(self.whole() =~= seq![a, b, c]);
            assert(seq![a, b, c][0] == a && seq![a, b, c][1] == b && seq![a, b, c][2] == c);
            assert(self.beyond() =~= old(self).beyond());
            old(self).lemma_sorts(*self);
        }
    }
}

impl KeyIterN<15> {
    /// Sort the entries by key, then by index.
    pub fn sort(&mut self)
        requires
            old(self).wf(),
        ensures
            old(self).sorts(*final(self)),
    {
        let len: usize = self.tail as usize;
        let ghost before = self.whole();
        let mut i: usize = 0;
        while i < len
            invariant
                i <= len <= 15,
                self.head == old(self).head,
                self.tail == len,
                before == old(self).whole(),
                self.beyond() == old(self).beyond(),
                self.whole().to_multiset() == before.to_multiset(),
                ordered(self.entries@.subrange(0, i as int)),
            decreases len - i,
        {
            let mut j: usize = i;
            assert forall|x: int, y: int| 0 <= x < y < i + 1 && y != j implies !sorts_after(
                #[trigger] self.entries@[x],
                #[trigger] self.entries@[y],
            ) by {
                let part = self.entries@.subrange(0, i as int);
                assert(part[x] == self.entries@[x]);
                assert(part[y] == self.entries@[y]);
            }
            while j > 0 && self.entries[j - 1].is_after(self.entries[j])
                invariant
                    j <= i < len <= 15,
                    self.head == old(self).head,
                    self.tail == len,
                    before == old(self).whole(),
                    self.beyond() == old(self).beyond(),
                    self.whole().to_multiset() == before.to_multiset(),
                    forall|x: int, y: int|
                        0 <= x < y < i + 1 && y != j ==> !sorts_after(
                            #[trigger] self.entries@[x],
                            #[trigger] self.entries@[y],
                        ),
                decreases j,
            {
                let a = self.entries[j - 1];
                let b = self.entries[j];
                let ghost all = self.whole();
                assert(all[j - 1] == a && all[j as int] == b);
                self.entries[j - 1] = b;
                self.entries[j] = a;
                proof {
                    lemma_swap(all, j - 1, j as int);
                    assert(self.whole() =~= all.update(j - 1, all[j as int]).update(
                        j as int,
                        all[j - 1],
                    ));
                    assert(self.beyond() =~= old(self).beyond());
                }
                j -= 1;
            }
            proof {
                let part = self.entries@.subrange(0, i as int + 1);
                assert forall|x: int, y: int| 0 <= x < y < part.len() implies !sorts_after(
                    #[trigger] part[x],
                    #[trigger] part[y],
                ) by {
                    assert(part[x] == self.entries@[x]);
                    assert(part[y] == self.entries@[y]);
                    if y == j && x < y - 1 {
                        assert(!sorts_after(self.entries@[x], self.entries@[y - 1]));
                    }
                }
            }
            i += 1;
        }
        proof {
            assert(self.whole() =~= self.entries@.subrange(0, len as int));
            old(self).lemma_sorts(*self);
        }
    }
}

/// Ascending sequences with the same entries are equal.
pub proof fn lemma_ascending_equal(a: Seq<KeyIndex>, b: Seq<KeyIndex>)
    requires
        ascending(a),
        ascending(b),
        forall|e: KeyIndex|
        #![trigger a.contains(e)]
        #![trigger b.contains(e)]
        a.contains(e) <==> b.contains(e),
    ensures
        a == b,
    decreases a.len() + b.len(),
{
    if a.len() == 0 || b.len() == 0 {
        if a.len() > 0 {
            assert(a.contains(a[0]));
        }
        if b.len() > 0 {
            assert(b.contains(b[0]));
        }
        assert(a =~= b);
    } else {
        let x = a.last();
        let y = b.last();
        assert(a.contains(x) && b.contains(y));
        let i = b.index_of(x);
        let j = a.index_of(y);
        assert(b[i] == x && a[j] == y);
        assert(i < b.len() - 1 ==> b[i].key < b[b.len() - 1].key);
        assert(j < a.len() - 1 ==> a[j].key < a[a.len() - 1].key);
        assert(x == y);
        let c = a.drop_last();
        let d = b.drop_last();
        assert forall|e: KeyIndex|
            #![trigger c.contains(e)]
            #![trigger d.contains(e)]
            c.contains(e) <==> d.contains(e) by {
            if c.contains(e) {
                assert(a[c.index_of(e)] == e);
                assert(a.contains(e));
                let k = b.index_of(e);
                assert(b[k] == e);
                assert(e.key < x.key);
                assert(d[k] == e);
            }
            if d.contains(e) {
                assert(b[d.index_of(e)] == e);
                assert(b.contains(e));
                let k = a.index_of(e);
                assert(a[k] == e);
                assert(e.key < x.key);
                assert(c[k] == e);
            }
        }
        lemma_ascending_equal(c, d);
        assert(a =~= c.push(x));
        assert(b =~= d.push(y));
    }
}

/// Entries in slot order: each slot in bounds once.
pub proof fn lemma_in_slot_order(keys: Seq<u8>, lower: u8, upper: u8, n: int)
    requires
        0 <= n <= keys.len() <= 256,
        keys.no_duplicates(),
    ensures
        distinct(in_slot_order(keys, lower, upper, n)),
        in_slot_order(keys, lower, upper, n).len() <= n,
        forall|e: KeyIndex| #[trigger]
            in_slot_order(keys, lower, upper, n).contains(e) <==> e.index < n && keys[e.index as int]
                == e.key && lower <= e.key <= upper,
    decreases n,
{
    if n > 0 {
        lemma_in_slot_order(keys, lower, upper, n - 1);
        let before = in_slot_order(keys, lower, upper, n - 1);
        let after = in_slot_order(keys, lower, upper, n);
        let new = KeyIndex { key: keys[n - 1], index: (n - 1) as u8 };
        assert forall|e: KeyIndex| #[trigger] after.contains(e) <==> e.index < n
            && keys[e.index as int] == e.key && lower <= e.key <= upper by {
            if lower <= keys[n - 1] <= upper {
                assert(after == before.push(new));
                if before.contains(e) {
                    assert(after[before.index_of(e)] == e);
                }
                assert(after[before.len() as int] == new);
                if after.contains(e) {
                    let k = after.index_of(e);
                    if k < before.len() {
                        assert(before[k] == e);
                    }
                }
            }
        }
        if lower <= keys[n - 1] <= upper {
            assert forall|x: int, y: int| 0 <= x < y < after.len() implies #[trigger] after[x].key
                != #[trigger] after[y].key by {
                assert(after[x] == before[x]);
                assert(before.contains(before[x]));
                if y < before.len() {
                    assert(after[y] == before[y]);
                }
            }
        }
    }
}

/// Entries in key order: each key in bounds once, ascending.
pub proof fn lemma_in_key_order(keys: Seq<u8>, lower: u8, upper: u8, n: int)
    requires
        0 <= n <= 256,
        keys.len() <= 256,
        keys.no_duplicates(),
    ensures
        ascending(in_key_order(keys, lower, upper, n)),
        forall|e: KeyIndex| #[trigger]
            in_key_order(keys, lower, upper, n).contains(e) <==> e.index < keys.len()
                && keys[e.index as int] == e.key && lower <= e.key <= upper && e.key < n,
    decreases n,
{
    if n > 0 {
        lemma_in_key_order(keys, lower, upper, n - 1);
        let before = in_key_order(keys, lower, upper, n - 1);
        let after = in_key_order(keys, lower, upper, n);
        let c = (n - 1) as u8;
        let new = KeyIndex { key: c, index: slot_of(keys, c) as u8 };
        assert forall|e: KeyIndex| #[trigger] after.contains(e) <==> e.index < keys.len()
            && keys[e.index as int] == e.key && lower <= e.key <= upper && e.key < n by {
            if lower <= c <= upper && keys.contains(c) {
                let s = slot_of(keys, c);
                assert(keys[s] == c);
                assert(after == before.push(new));
                if before.contains(e) {
                    assert(after[before.index_of(e)] == e);
                }
                assert(after[before.len() as int] == new);
                if after.contains(e) {
                    let k = after.index_of(e);
                    if k < before.len() {
                        assert(before[k] == e);
                    }
                }
                if e.index < keys.len() && keys[e.index as int] == e.key && e.key == c {
                    assert(e.index == s);
                    assert(e == new);
                }
            } else if e.index < keys.len() && keys[e.index as int] == e.key && e.key == c {
                assert(keys.contains(c));
            }
        }
        if lower <= c <= upper && keys.contains(c) {
            assert forall|x: int, y: int| 0 <= x < y < after.len() implies #[trigger] after[x].key
                < #[trigger] after[y].key by {
                assert(after[x] == before[x]);
                assert(before.contains(before[x]));
                if y < before.len() {
                    assert(after[y] == before[y]);
                }
            }
        }
    }
}

/// Sorting the slots of a node by key gives the entries in key order.
pub proof fn lemma_sorted(keys: Seq<u8>, lower: u8, upper: u8, sorted: Seq<KeyIndex>)
    requires
        keys.len() <= 256,
        keys.no_duplicates(),
        ascending(sorted),
        same_entries(in_slot_order(keys, lower, upper, keys.len() as int), sorted),
    ensures
        sorted == in_key_order(keys, lower, upper, 256),
{
    lemma_in_slot_order(keys, lower, upper, keys.len() as int);
    lemma_in_key_order(keys, lower, upper, 256);
    lemma_ascending_equal(sorted, in_key_order(keys, lower, upper, 256));
}

/// Double-ended iterator over the directly addressed keys of a range.
#[derive(Copy, Clone, Debug)]
pub struct KeyIter256 {
    head: u16,
    tail: u16,
}

impl KeyIter256 {
    pub closed spec fn wf(self) -> bool {
        self.head <= self.tail <= 256
    }

    /// Entries that are still to come.
    pub closed spec fn remaining(self) -> Seq<KeyIndex> {
        Seq::new(
            (self.tail - self.head) as nat,
            |i: int| KeyIndex { key: (self.head + i) as u8, index: (self.head + i) as u8 },
        )
    }

    /// Iterator over the keys from `lower` to `upper`.
    pub fn new(lower: u8, upper: u8) -> (iter: KeyIter256)
        requires
            lower <= upper,
        ensures
            iter.wf(),
            iter.remaining() == Seq::new(
                (upper + 1 - lower) as nat,
                |i: int| KeyIndex { key: (lower + i) as u8, index: (lower + i) as u8 },
            ),
    {
        let iter = KeyIter256 { head: lower as u16, tail: upper as u16 + 1 };
        assert(iter.remaining() =~= Seq::new(
            (upper + 1 - lower) as nat,
            |i: int| KeyIndex { key: (lower + i) as u8, index: (lower + i) as u8 },
        ));
        iter
    }

    /// Take the entry at the front.
    pub fn next(&mut self) -> (entry: Option<KeyIndex>)
        requires
            old(self).wf(),
        ensures
            final(self).wf(),
            old(self).remaining().len() == 0 ==> entry is None && *final(self) == *old(self),
            old(self).remaining().len() > 0 ==> entry == Some(old(self).remaining().first())
                && final(self).remaining() == old(self).remaining().drop_first(),
    {
        if self.head == self.tail {
            return None;
        }
        let next: u8 = self.head as u8;
        self.head += 1;
        assert(self.remaining() =~= old(self).remaining().drop_first());
        Some(KeyIndex { key: next, index: next })
    }

    /// Take the entry at the back.
    pub fn next_back(&mut self) -> (entry: Option<KeyIndex>)
        requires
            old(self).wf(),
        ensures
            final(self).wf(),
            old(self).remaining().len() == 0 ==> entry is None && *final(self) == *old(self),
            old(self).remaining().len() > 0 ==> entry == Some(old(self).remaining().last())
                && final(self).remaining() == old(self).remaining().drop_last(),
    {
        if self.head == self.tail {
            return None;
        }
        self.tail -= 1;
        assert(self.remaining() =~= old(self).remaining().drop_last());
        Some(KeyIndex { key: self.tail as u8, index: self.tail as u8 })
    }

    /// Number of entries that are still to come.
    pub fn len(&self) -> (len: usize)
        requires
            self.wf(),
        ensures
            len == self.remaining().len(),
    {
        (self.tail - self.head) as usize
    }
}

/// Iterator over the key bytes and edge slots of a node of any type.
///
/// The larger iterators are boxed, because scans keep a stack of these and
/// most of them are [`KeyIter3`].
#[derive(Debug)]
pub enum KeyIter {
    Node3(KeyIter3),
    Node15(Box<KeyIter15>),
    Node47(Box<KeyIter47>),
    Node256(KeyIter256),
}

impl KeyIter {
    pub open spec fn wf(self) -> bool {
        match self {
            KeyIter::Node3(iter) => iter.wf(),
            KeyIter::Node15(iter) => iter.wf(),
            KeyIter::Node47(iter) => iter.wf(),
            KeyIter::Node256(iter) => iter.wf(),
        }
    }

    /// Entries that are still to come.
    pub open spec fn remaining(self) -> Seq<KeyIndex> {
        match self {
            KeyIter::Node3(iter) => iter.remaining(),
            KeyIter::Node15(iter) => iter.remaining(),
            KeyIter::Node47(iter) => iter.remaining(),
            KeyIter::Node256(iter) => iter.remaining(),
        }
    }

    /// Take the entry at the front.
    pub fn next(&mut self) -> (entry: Option<KeyIndex>)
        requires
            old(self).wf(),
        ensures
            final(self).wf(),
            old(self).remaining().len() == 0 ==> entry is None && final(self).remaining() == old(
                self,
            ).remaining(),
            old(self).remaining().len() > 0 ==> entry == Some(old(self).remaining().first())
                && final(self).remaining() == old(self).remaining().drop_first(),
    {
        match self {
            KeyIter::Node3(iter) => iter.next(),
            KeyIter::Node15(iter) => iter.next(),
            KeyIter::Node47(iter) => iter.next(),
            KeyIter::Node256(iter) => iter.next(),
        }
    }

    /// Take the entry at the back.
    pub fn next_back(&mut self) -> (entry: Option<KeyIndex>)
        requires
            old(self).wf(),
        ensures
            final(self).wf(),
            old(self).remaining().len() == 0 ==> entry is None && final(self).remaining() == old(
                self,
            ).remaining(),
            old(self).remaining().len() > 0 ==> entry == Some(old(self).remaining().last())
                && final(self).remaining() == old(self).remaining().drop_last(),
    {
        match self {
            KeyIter::Node3(iter) => iter.next_back(),
            KeyIter::Node15(iter) => iter.next_back(),
            KeyIter::Node47(iter) => iter.next_back(),
            KeyIter::Node256(iter) => iter.next_back(),
        }
    }

    /// Number of entries that are still to come.
    pub fn len(&self) -> (len: usize)
        requires
            self.wf(),
        ensures
            len == self.remaining().len(),
    {
        match self {
            KeyIter::Node3(iter) => iter.len(),
            KeyIter::Node15(iter) => iter.len(),
            KeyIter::Node47(iter) => iter.len(),
            KeyIter::Node256(iter) => iter.len(),
        }
    }
}

} // verus!
