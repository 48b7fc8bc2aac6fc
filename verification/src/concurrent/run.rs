//! Operations that run from their start to their end.
//!
//! No other operation takes a step in between, but others may have left the
//! tree in any state that their steps lead to.
use vstd::prelude::*;
use crate::bytes::{lemma_lex_total, lex_lt};
use crate::concurrent::cursor::Path;
use crate::concurrent::operation::get::{Get, GetStep};
use crate::concurrent::operation::remove::{Remove, RemoveStep};
use crate::concurrent::operation::update::{Update, UpdatePhase, UpdateStep};
use crate::concurrent::operation::upsert::{Upsert, UpsertPhase, UpsertStep};
use crate::concurrent::progress::hurdles;
use crate::concurrent::scan::{Scan, ScanStep};
use crate::concurrent::tree::{lookup, Tree};
use crate::raw::iter::range::Range;
use crate::raw::iter::Order;
use crate::raw::key::{Key, Read};
use crate::raw::shape::entries::{in_range, lists};

verus! {

/// The tree has no room for further nodes.
#[derive(Copy, Clone, Debug, PartialEq, Eq, Structural)]
pub struct Full;

/// Path of an operation that retains it.
fn retained<R: Read>() -> (path: Path<R>)
    ensures
        path is Full,
        path.segments().len() == 0,
        path.counted() == 0,
{
    Path::Full { len: 0, segments: Vec::new() }
}

/// Whether there is room for `count` nodes and one more.
fn fits<K: Key>(tree: &Tree<K>, count: usize) -> (fits: bool)
    ensures
        fits == tree.room(count as int + 1),
{
    count < usize::MAX - 1 && tree.nodes.len() < usize::MAX - 1 - count
}

/// What was seen since the last change is what the key has now.
proof fn lemma_last<K: Key>(tree: Tree<K>, key: Seq<u8>, value: Option<u64>)
    requires
        tree.wf(),
        tree.seen(tree.history@.len() - 1, key, value),
    ensures
        value == lookup(tree@, key),
{
}

/// The value of a key.
pub fn get<K: Key, R: Read<Edge = K::Edge>>(tree: &Tree<K>, reader: R) -> (value: Option<u64>)
    requires
        tree.wf(),
        reader.valid(),
        K::is_key(reader.bytes()),
    ensures
        value == lookup(tree@, reader.bytes()),
{
    let mut get = Get::<K, R>::new(tree, reader);
    loop
        invariant
            tree.wf(),
            get.wf(*tree),
            get.start@ == tree.history@.len() - 1,
            get.cursor.goal@ == reader.bytes(),
        decreases get.distance(),
    {
        let ghost from = get;
        let step = get.step(tree);
        match step {
            GetStep::Ready { value } => {
                proof {
                    lemma_last(*tree, reader.bytes(), value);
                }
                return value;
            },
            GetStep::Pending => {
                proof {
                    from.law_ends(get, tree.memory(), step);
                }
            },
        }
    }
}

/// Associate a key with a value, unless it has one and `replace` is not set.
///
/// Returns the value that the key had.
fn store<K: Key, R: Read<Edge = K::Edge>>(
    tree: &mut Tree<K>,
    reader: R,
    value: u64,
    replace: bool,
) -> (previous: Result<Option<u64>, Full>)
    requires
        old(tree).wf(),
        reader.valid(),
        K::is_key(reader.bytes()),
    ensures
        final(tree).wf(),
        match previous {
            Ok(previous) => {
                &&& previous == lookup(old(tree)@, reader.bytes())
                &&& final(tree)@ == (if replace || previous is None {
                    old(tree)@.insert(reader.bytes(), value)
                } else {
                    old(tree)@
                })
            },
            Err(_) => {
                &&& final(tree)@ == old(tree)@
                &&& !final(tree).room(reader.bytes().len() as int + 1)
            },
        },
        old(tree).memory().tidy() ==> final(tree).memory().tidy(),
{
    let count: usize = reader.len();
    let mut upsert = Upsert::<K, R>::new(tree, reader, retained(), None);
    proof {
        upsert.law_starts_alone(*tree);
    }
    loop
        invariant
            tree.wf(),
            tree@ == old(tree)@,
            count == reader.bytes().len(),
            upsert.alone(*tree),
            old(tree).memory().tidy() ==> tree.memory().tidy(),
            !(upsert.phase is Ask || upsert.phase is Done),
            upsert.phase matches UpsertPhase::Commit { old: previous, new, .. } ==> new == value && (
            replace || previous is None),
            upsert.start@ == tree.history@.len() - 1,
            upsert.cursor.goal@ == reader.bytes(),
        decreases
                hurdles(tree.memory(), upsert.cursor),
                upsert.mode(),
                upsert.major(*tree),
                upsert.minor(*tree),
    {
        if !fits(tree, count) {
            return Err(Full);
        }
        let ghost before = *tree;
        let ghost from = upsert;
        let step = upsert.step(tree);
        proof {
            if old(tree).memory().tidy() {
                from.law_tidy(upsert, before, *tree, step);
            }
        }
        match step {
            UpsertStep::Success { old: previous, .. } => {
                return Ok(previous);
            },
            UpsertStep::Ask { old: previous, .. } => {
                proof {
                    from.law_alone(upsert, before, *tree, step);
                    lemma_last(*tree, reader.bytes(), previous);
                }
                if !replace && previous.is_some() {
                    return Ok(previous);
                }
                let ghost asked = upsert;
                let _ = upsert.answer(tree, Some(value));
                proof {
                    asked.law_answered(upsert, *tree, value);
                }
            },
            UpsertStep::Pending | UpsertStep::Retire { .. } => {
                proof {
                    from.law_alone(upsert, before, *tree, step);
                }
            },
            _ => vstd::pervasive::unreached(),
        }
    }
}

/// Associate a key with a value, unless it has one.
///
/// Returns the value that the key had.
pub fn insert<K: Key, R: Read<Edge = K::Edge>>(
    tree: &mut Tree<K>,
    reader: R,
    value: u64,
) -> (previous: Result<Option<u64>, Full>)
    requires
        old(tree).wf(),
        reader.valid(),
        K::is_key(reader.bytes()),
    ensures
        final(tree).wf(),
        match previous {
            Ok(previous) => {
                &&& previous == lookup(old(tree)@, reader.bytes())
                &&& final(tree)@ == (if previous is None {
                    old(tree)@.insert(reader.bytes(), value)
                } else {
                    old(tree)@
                })
            },
            Err(_) => {
                &&& final(tree)@ == old(tree)@
                &&& !final(tree).room(reader.bytes().len() as int + 1)
            },
        },
        old(tree).memory().tidy() ==> final(tree).memory().tidy(),
{
    store(tree, reader, value, false)
}

/// Associate a key with a value.
///
/// Returns the value that the key had.
pub fn upsert<K: Key, R: Read<Edge = K::Edge>>(
    tree: &mut Tree<K>,
    reader: R,
    value: u64,
) -> (previous: Result<Option<u64>, Full>)
    requires
        old(tree).wf(),
        reader.valid(),
        K::is_key(reader.bytes()),
    ensures
        final(tree).wf(),
        match previous {
            Ok(previous) => {
                &&& previous == lookup(old(tree)@, reader.bytes())
                &&& final(tree)@ == old(tree)@.insert(reader.bytes(), value)
            },
            Err(_) => {
                &&& final(tree)@ == old(tree)@
                &&& !final(tree).room(reader.bytes().len() as int + 1)
            },
        },
        old(tree).memory().tidy() ==> final(tree).memory().tidy(),
{
    store(tree, reader, value, true)
}

/// Change the value of a key, if it has one.
///
/// Returns the value that the key had.
pub fn update<K: Key, R: Read<Edge = K::Edge>>(
    tree: &mut Tree<K>,
    reader: R,
    value: u64,
) -> (previous: Result<Option<u64>, Full>)
    requires
        old(tree).wf(),
        reader.valid(),
        K::is_key(reader.bytes()),
    ensures
        final(tree).wf(),
        match previous {
            Ok(previous) => {
                &&& previous == lookup(old(tree)@, reader.bytes())
                &&& final(tree)@ == (if previous is Some {
                    old(tree)@.insert(reader.bytes(), value)
                } else {
                    old(tree)@
                })
            },
            Err(_) => {
                &&& final(tree)@ == old(tree)@
                &&& !final(tree).room(reader.bytes().len() as int + 1)
            },
        },
        old(tree).memory().tidy() ==> final(tree).memory().tidy(),
{
    let count: usize = reader.len();
    let mut update = Update::<K, R>::new(tree, reader, retained(), None);
    proof {
        update.law_starts_alone(*tree);
    }
    loop
        invariant
            tree.wf(),
            tree@ == old(tree)@,
            count == reader.bytes().len(),
            update.alone(*tree),
            old(tree).memory().tidy() ==> tree.memory().tidy(),
            !(update.phase is Ask || update.phase is Done),
            update.phase matches UpdatePhase::Commit { new, .. } ==> new == value,
            update.start@ == tree.history@.len() - 1,
            update.cursor.goal@ == reader.bytes(),
        decreases
                hurdles(tree.memory(), update.cursor),
                update.mode(),
                update.major(),
                update.minor(),
    {
        if !fits(tree, count) {
            return Err(Full);
        }
        let ghost before = *tree;
        let ghost from = update;
        let step = update.step(tree);
        proof {
            if old(tree).memory().tidy() {
                from.law_tidy(update, before, *tree, step);
            }
        }
        match step {
            UpdateStep::Success { old: previous, .. } => {
                return Ok(Some(previous));
            },
            UpdateStep::Absent { .. } => {
                proof {
                    lemma_last(*tree, reader.bytes(), None);
                }
                return Ok(None);
            },
            UpdateStep::Ask { .. } => {
                proof {
                    from.law_alone(update, before, *tree, step);
                }
                let ghost asked = update;
                let _ = update.answer(tree, Some(value));
                proof {
                    asked.law_answered(update, *tree, value);
                }
            },
            UpdateStep::Pending | UpdateStep::Retire { .. } => {
                proof {
                    from.law_alone(update, before, *tree, step);
                }
            },
            _ => vstd::pervasive::unreached(),
        }
    }
}

/// Remove the value of a key, if it has one, and nodes without further use.
///
/// Returns the value that the key had. If every node of the tree had a child
/// before, every one has afterwards; without room for further nodes, those
/// without a child are left where they are.
pub fn remove<K: Key, R: Read<Edge = K::Edge>>(
    tree: &mut Tree<K>,
    reader: R,
) -> (previous: Result<Option<u64>, Full>)
    requires
        old(tree).wf(),
        reader.valid(),
        K::is_key(reader.bytes()),
    ensures
        final(tree).wf(),
        match previous {
            Ok(previous) => {
                &&& previous == lookup(old(tree)@, reader.bytes())
                &&& final(tree)@ == old(tree)@.remove(reader.bytes())
            },
            Err(_) => {
                &&& final(tree)@ == old(tree)@
                &&& !final(tree).room(1)
            },
        },
        old(tree).memory().tidy() && (final(tree).room(1) || !(previous matches Ok(Some(_))))
            ==> final(tree).memory().tidy(),
{
    let mut remove = Remove::<K, R>::new(tree, reader, retained(), true);
    let mut removed: Option<u64> = None;
    proof {
        remove.law_starts_alone(*tree);
    }
    loop
        invariant
            tree.wf(),
            remove.alone(*tree),
            old(tree).memory().tidy() ==> remove.neat(tree.memory()),
            remove.recursive,
            !(remove.phase is Ask || remove.phase is Done),
            remove.key@ == reader.bytes(),
            remove.phase.removed() == (removed is Some),
            removed is None ==> {
                &&& tree@ == old(tree)@
                &&& remove.start@ == tree.history@.len() - 1
            },
            removed is Some ==> {
                &&& removed == lookup(old(tree)@, reader.bytes())
                &&& tree@ == old(tree)@.remove(reader.bytes())
            },
        decreases
                remove.due(),
                remove.span(),
                hurdles(tree.memory(), remove.cursor),
                remove.mode(),
                remove.major(),
                remove.minor(),
    {
        if !fits(tree, 0) {
            return match removed {
                Some(previous) => Ok(Some(previous)),
                None => Err(Full),
            };
        }
        let ghost before = *tree;
        let ghost from = remove;
        let step = remove.step(tree);
        proof {
            if old(tree).memory().tidy() {
                from.law_neat(remove, before, *tree, step);
            }
        }
        match step {
            RemoveStep::Success { old: previous } => {
                removed = Some(previous);
                proof {
                    from.law_alone(remove, before, *tree, step);
                }
            },
            RemoveStep::Done => {
                return Ok(removed);
            },
            RemoveStep::Absent => {
                proof {
                    lemma_last(*tree, reader.bytes(), None);
                    assert(old(tree)@.remove(reader.bytes()) =~= old(tree)@);
                }
                return Ok(None);
            },
            RemoveStep::Ask { .. } => {
                proof {
                    from.law_alone(remove, before, *tree, step);
                }
                let ghost asked = remove;
                let _ = remove.answer(tree, true);
                proof {
                    asked.law_answered(remove, *tree);
                }
            },
            RemoveStep::Pending | RemoveStep::Retire { .. } => {
                proof {
                    from.law_alone(remove, before, *tree, step);
                }
            },
            _ => vstd::pervasive::unreached(),
        }
    }
}

/// `entries` lists what `contents` holds within bounds, in the direction of a
/// scan.
pub open spec fn listing(
    entries: Seq<(Seq<u8>, u64)>,
    contents: Map<Seq<u8>, u64>,
    lower: Option<Seq<u8>>,
    upper: Option<Seq<u8>>,
    order: Order,
) -> bool {
    lists(
        match order {
            Order::Ascend => entries,
            Order::Descend => entries.reverse(),
        },
        contents,
        |k: Seq<u8>| in_range(lower, upper, k),
    )
}

/// A scan during which nothing changes lists what is within bounds.
pub proof fn law_scan_lists<K: Key, R: Read<Edge = K::Edge>>(
    scan: Scan<K, R>,
    tree: Tree<K>,
    lower: Option<Seq<u8>>,
    upper: Option<Seq<u8>>,
)
    requires
        tree.wf(),
        scan.wf(tree),
        scan.over(),
        scan.start@ == tree.history@.len() - 1,
        forall|k: Seq<u8>| scan.goal@.covers(k) == in_range(lower, upper, k),
    ensures
        listing(scan.entries@, tree@, lower, upper, scan.order),
{
    let entries = scan.entries@;
    let contents = tree@;
    let forward = match scan.order {
        Order::Ascend => entries,
        Order::Descend => entries.reverse(),
    };
    let pred = |k: Seq<u8>| in_range(lower, upper, k);
    assert forall|i: int| 0 <= i < entries.len() implies {
        &&& pred((#[trigger] entries[i]).0)
        &&& contents.contains_key(entries[i].0)
        &&& contents[entries[i].0] == entries[i].1
    } by {
        lemma_last(tree, entries[i].0, Some(entries[i].1));
    }
    assert forall|k: Seq<u8>| contents.contains_key(k) && #[trigger] pred(k) implies forward.contains(
        (k, contents[k]),
    ) by {
        assert(K::is_key(k));
        assert(scan.goal@.covers(k));
        assert forall|i: int| scan.start@ <= i < tree.history@.len() implies (
        #[trigger] tree.history@[i]).contains_key(k) by {
            assert(tree.history@[i] == contents);
        }
        scan.law_complete(tree, k);
        let i = choose|i: int| 0 <= i < entries.len() && (#[trigger] entries[i]).0 == k;
        assert(entries[i] == (k, contents[k]));
        match scan.order {
            Order::Ascend => {
                assert(forward[i] == (k, contents[k]));
            },
            Order::Descend => {
                assert(forward[entries.len() - 1 - i] == (k, contents[k]));
            },
        }
    }
    assert forall|i: int, j: int| 0 <= i < j < forward.len() implies lex_lt(
        (#[trigger] forward[i]).0,
        (#[trigger] forward[j]).0,
    ) by {
        match scan.order {
            Order::Ascend => {
                scan.law_once(tree, i, j);
            },
            Order::Descend => {
                scan.law_once(tree, entries.len() - 1 - j, entries.len() - 1 - i);
            },
        }
    }
}

/// The values of the keys in a range, in the order of the keys.
pub fn scan<K: Key, R: Read<Edge = K::Edge>, B: Range<R>>(
    tree: &Tree<K>,
    range: &B,
    order: Order,
) -> (values: Vec<u64>)
    requires
        tree.wf(),
        range.valid(),
    ensures
        exists|entries: Seq<(Seq<u8>, u64)>| #[trigger]
            listing(entries, tree@, range.lower_limit(), range.upper_limit(), order)
                && values@ == entries.map_values(|entry: (Seq<u8>, u64)| entry.1),
{
    let mut values: Vec<u64> = Vec::new();
    let mut scanning = Scan::<K, R>::range(tree, range, order);
    loop
        invariant
            tree.wf(),
            scanning.wf(*tree),
            scanning.order == order,
            scanning.start@ == tree.history@.len() - 1,
            forall|k: Seq<u8>|
                scanning.goal@.covers(k) == in_range(range.lower_limit(), range.upper_limit(), k),
            values@ == scanning.entries@.map_values(|entry: (Seq<u8>, u64)| entry.1),
        decreases scanning.ahead(), scanning.toil(), scanning.frames@.len(),
    {
        let ghost from = scanning;
        let step = scanning.step(tree);
        match step {
            ScanStep::Pending => {
                proof {
                    from.law_ends(scanning, *tree, step);
                }
            },
            ScanStep::Entry { value } => {
                values.push(value);
                proof {
                    from.law_ends(scanning, *tree, step);
                    assert(values@ =~= scanning.entries@.map_values(
                        |entry: (Seq<u8>, u64)| entry.1,
                    ));
                }
            },
            ScanStep::End => {
                proof {
                    law_scan_lists(scanning, *tree, range.lower_limit(), range.upper_limit());
                }
                return values;
            },
        }
    }
}

/// What a scan lists is in the direction asked for, each key once, and it is
/// what the tree holds within bounds.
pub proof fn law_listing(
    entries: Seq<(Seq<u8>, u64)>,
    contents: Map<Seq<u8>, u64>,
    lower: Option<Seq<u8>>,
    upper: Option<Seq<u8>>,
    order: Order,
    key: Seq<u8>,
    i: int,
    j: int,
)
    requires
        listing(entries, contents, lower, upper, order),
        0 <= i < j < entries.len(),
    ensures
        order is Ascend ==> lex_lt(entries[i].0, entries[j].0),
        order is Descend ==> lex_lt(entries[j].0, entries[i].0),
        entries.contains((key, contents[key])) <==> contents.contains_key(key) && (
        lower matches Some(lower) ==> !lex_lt(key, lower)) && (upper matches Some(upper) ==> !lex_lt(
            upper,
            key,
        )),
{
    let n = entries.len() as int;
    let pred = |k: Seq<u8>| in_range(lower, upper, k);
    let forward = match order {
        Order::Ascend => entries,
        Order::Descend => entries.reverse(),
    };
    match order {
        Order::Ascend => {
            assert(lex_lt(forward[i].0, forward[j].0));
        },
        Order::Descend => {
            assert(lex_lt(forward[n - 1 - j].0, forward[n - 1 - i].0));
        },
    }
    if lower is Some {
        lemma_lex_total(lower->0, key);
    }
    if upper is Some {
        lemma_lex_total(key, upper->0);
    }
    let entry = (key, contents[key]);
    if entries.contains(entry) {
        let k = entries.index_of(entry);
        let p = if order is Ascend {
            k
        } else {
            n - 1 - k
        };
        assert(forward[p] == entry);
        assert(pred(forward[p].0));
    }
    if contents.contains_key(key) && pred(key) {
        assert(forward.contains(entry));
        let k = forward.index_of(entry);
        let p = if order is Ascend {
            k
        } else {
            n - 1 - k
        };
        assert(entries[p] == entry);
    }
}


} // verus!
