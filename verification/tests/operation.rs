use arctic::concurrent::cursor::{Cursor, Path};
use arctic::concurrent::events::{scan_event, Watch};
use arctic::concurrent::memory::Target;
use arctic::concurrent::operation::{
    traverse_node, Descent, Get, GetStep, Remove, RemoveStep, Update, UpdateStep, Upsert,
    UpsertStep,
};
use arctic::concurrent::run as whole;
use arctic::concurrent::scan::{Scan, ScanStep};
use arctic::concurrent::tree::Tree;
use arctic::raw::iter::range::{Include, Unbound};
use arctic::raw::key::unsigned::{Native, Reader};
use arctic::raw::key::{Key, Read, Write};
use arctic::stat::{Counter, Event, Record};
use arctic::Order;
use std::collections::BTreeMap;
use std::marker::PhantomData;

fn discard<R>() -> Path<R> {
    Path::Len { len: 0 }
}

fn full<R>() -> Path<R> {
    Path::Full { len: 0, segments: Vec::new() }
}

/// What an operation came to.
#[derive(Clone, Copy, Debug, PartialEq, Eq)]
enum Outcome {
    Inserted,
    Exists(u64),
    Stored(Option<u64>),
    Changed(u64),
    Removed(u64),
    Absent,
    Found(Option<u64>),
}

/// An operation in progress.
enum Operation<N: Native + Key> {
    Insert(N, u64, Upsert<N, Reader<N>>),
    Upsert(N, u64, Upsert<N, Reader<N>>),
    Update(N, u64, Update<N, Reader<N>>),
    Remove(N, Option<u64>, Remove<N, Reader<N>>),
    Get(Get<N, Reader<N>>),
}

fn insert<N>(tree: &Tree<N>, key: N, value: u64) -> Operation<N>
where
    N: Native + Key,
    Reader<N>: Read<Edge = N::Edge>,
{
    Operation::Insert(key, value, Upsert::new(tree, Reader::new(key), discard(), None))
}

fn upsert<N>(tree: &Tree<N>, key: N, value: u64) -> Operation<N>
where
    N: Native + Key,
    Reader<N>: Read<Edge = N::Edge>,
{
    Operation::Upsert(key, value, Upsert::new(tree, Reader::new(key), discard(), None))
}

fn update<N>(tree: &Tree<N>, key: N, value: u64) -> Operation<N>
where
    N: Native + Key,
    Reader<N>: Read<Edge = N::Edge>,
{
    Operation::Update(key, value, Update::new(tree, Reader::new(key), discard(), None))
}

fn remove<N>(tree: &Tree<N>, key: N) -> Operation<N>
where
    N: Native + Key,
    Reader<N>: Read<Edge = N::Edge>,
{
    Operation::Remove(key, None, Remove::new(tree, Reader::new(key), full(), true))
}

fn get<N>(tree: &Tree<N>, key: N) -> Operation<N>
where
    N: Native + Key,
    Reader<N>: Read<Edge = N::Edge>,
{
    Operation::Get(Get::new(tree, Reader::new(key)))
}

impl<N> Operation<N>
where
    N: Native + Key,
    Reader<N>: Read<Edge = N::Edge>,
{
    fn step(&mut self, tree: &mut Tree<N>) -> Option<Outcome> {
        match self {
            Operation::Insert(key, value, operation) => match operation.step(tree) {
                UpsertStep::Pending | UpsertStep::Retire { .. } => None,
                UpsertStep::Ask { old: Some(old), .. } => {
                    match operation.answer(tree, None) {
                        UpsertStep::Break { old: seen } => assert_eq!(seen, Some(old)),
                        step => panic!("unexpected step {step:?}"),
                    }
                    Some(Outcome::Exists(old))
                }
                UpsertStep::Ask { old: None, .. } => {
                    assert_eq!(operation.answer(tree, Some(*value)), UpsertStep::Pending);
                    None
                }
                UpsertStep::Success { old: None, new } => {
                    assert_eq!(new, *value);
                    Some(Outcome::Inserted)
                }
                UpsertStep::Retry { initial } => {
                    *operation = Upsert::new(tree, Reader::new(*key), full(), initial);
                    None
                }
                step => panic!("unexpected step {step:?}"),
            },
            Operation::Upsert(key, value, operation) => match operation.step(tree) {
                UpsertStep::Pending | UpsertStep::Retire { .. } => None,
                UpsertStep::Ask { .. } => {
                    assert_eq!(operation.answer(tree, Some(*value)), UpsertStep::Pending);
                    None
                }
                UpsertStep::Success { old, .. } => Some(Outcome::Stored(old)),
                UpsertStep::Retry { initial } => {
                    *operation = Upsert::new(tree, Reader::new(*key), full(), initial);
                    None
                }
                step => panic!("unexpected step {step:?}"),
            },
            Operation::Update(key, value, operation) => match operation.step(tree) {
                UpdateStep::Pending | UpdateStep::Retire { .. } => None,
                UpdateStep::Ask { .. } => {
                    assert_eq!(operation.answer(tree, Some(*value)), UpdateStep::Pending);
                    None
                }
                UpdateStep::Success { old, .. } => Some(Outcome::Changed(old)),
                UpdateStep::Absent { .. } => Some(Outcome::Absent),
                UpdateStep::Retry { initial } => {
                    *operation = Update::new(tree, Reader::new(*key), full(), initial);
                    None
                }
                step => panic!("unexpected step {step:?}"),
            },
            Operation::Remove(_, removed, operation) => match operation.step(tree) {
                RemoveStep::Pending | RemoveStep::Retire { .. } => None,
                RemoveStep::Ask { .. } => {
                    assert_eq!(operation.answer(tree, true), RemoveStep::Pending);
                    None
                }
                RemoveStep::Success { old } => {
                    *removed = Some(old);
                    None
                }
                RemoveStep::Done => removed.map(Outcome::Removed),
                RemoveStep::Absent => Some(Outcome::Absent),
                step => panic!("unexpected step {step:?}"),
            },
            Operation::Get(operation) => match operation.step(tree) {
                GetStep::Pending => None,
                GetStep::Ready { value } => Some(Outcome::Found(value)),
            },
        }
    }
}

fn run<N>(tree: &mut Tree<N>, mut operation: Operation<N>) -> Outcome
where
    N: Native + Key,
    Reader<N>: Read<Edge = N::Edge>,
{
    for _ in 0..10_000 {
        if let Some(outcome) = operation.step(tree) {
            return outcome;
        }
    }
    panic!("an operation that runs alone ends");
}

fn contents<N>(tree: &Tree<N>, order: Order) -> Vec<(N, u64)>
where
    N: Native + Key<Write = arctic::raw::key::unsigned::Writer<N>>,
    Reader<N>: Read<Edge = N::Edge>,
    arctic::raw::key::unsigned::Writer<N>: Write<Edge = N::Edge>,
{
    let mut scan = Scan::<N, Reader<N>>::all(tree, order);
    collect(tree, &mut scan)
}

fn collect<N>(tree: &Tree<N>, scan: &mut Scan<N, Reader<N>>) -> Vec<(N, u64)>
where
    N: Native + Key<Write = arctic::raw::key::unsigned::Writer<N>>,
    Reader<N>: Read<Edge = N::Edge>,
    arctic::raw::key::unsigned::Writer<N>: Write<Edge = N::Edge>,
{
    let mut entries = Vec::new();
    loop {
        match scan.step(tree) {
            ScanStep::Pending => {}
            ScanStep::Entry { value } => entries.push((scan.writer.get(), value)),
            ScanStep::End => return entries,
        }
    }
}

/// Two operations, interleaved by the bits of `schedule`; what is left of one
/// runs alone.
fn race<N>(
    tree: &mut Tree<N>,
    mut a: Vec<Operation<N>>,
    mut b: Vec<Operation<N>>,
    mut schedule: u64,
) -> (Vec<Outcome>, Vec<Outcome>)
where
    N: Native + Key,
    Reader<N>: Read<Edge = N::Edge>,
{
    a.reverse();
    b.reverse();
    let mut a_outcomes = Vec::new();
    let mut b_outcomes = Vec::new();
    for _ in 0..100_000 {
        let first = match (a.is_empty(), b.is_empty()) {
            (true, true) => return (a_outcomes, b_outcomes),
            (false, true) => true,
            (true, false) => false,
            (false, false) => {
                let bit = schedule & 1 == 1;
                schedule = schedule.rotate_right(1);
                bit
            }
        };
        let (queue, outcomes) = if first {
            (&mut a, &mut a_outcomes)
        } else {
            (&mut b, &mut b_outcomes)
        };
        let operation = queue.last_mut().unwrap();
        if let Some(outcome) = operation.step(tree) {
            outcomes.push(outcome);
            queue.pop();
        }
    }
    panic!("operations end");
}

fn random(state: &mut u64) -> u64 {
    *state = state.wrapping_mul(6364136223846793005).wrapping_add(1442695040888963407);
    let x = *state;
    (x ^ (x >> 29)).wrapping_mul(0xbf58_476d_1ce4_e5b9) ^ (x >> 32)
}

/// Of two insertions of a key, in any interleaving, one succeeds, and the
/// other one reports its value.
#[test]
fn race_insert() {
    for schedule in 0..1u64 << 12 {
        let mut tree = Tree::<u64>::new();
        let a = vec![insert(&tree, 5, 3)];
        let b = vec![insert(&tree, 5, 1)];
        let (a, b) = race(&mut tree, a, b, schedule);
        match (a[0], b[0]) {
            (Outcome::Inserted, Outcome::Exists(3)) => {
                assert_eq!(contents(&tree, Order::Ascend), vec![(5, 3)]);
            }
            (Outcome::Exists(1), Outcome::Inserted) => {
                assert_eq!(contents(&tree, Order::Ascend), vec![(5, 1)]);
            }
            _ => panic!("Impossible outcome: a={:?}, b={:x?}", a, b),
        }
    }
}

/// A removal that collapses nodes races an insertion that splits its edge, and
/// an insertion of the removed key.
#[test]
fn race_remove_split_reinsert() {
    const KEY: u128 = 0x0101_0101_0101_0101_0101_0101_0101_0101;
    const NEIGHBOR: u128 = KEY + 1;

    let mut state = 1;
    for _ in 0..1000 {
        let mut tree = Tree::<u128>::new();
        let first = insert(&tree, KEY, 1);
        assert_eq!(run(&mut tree, first), Outcome::Inserted);

        let a = vec![remove(&tree, KEY)];
        let b = vec![insert(&tree, NEIGHBOR, 2), insert(&tree, KEY, 3)];
        let (a, b) = race(&mut tree, a, b, random(&mut state));
        assert_eq!(b[0], Outcome::Inserted);
        let last = match (a[0], b[1]) {
            (Outcome::Removed(1), Outcome::Inserted) => Some(3),
            (Outcome::Removed(1), Outcome::Exists(1)) => None,
            (Outcome::Removed(3), Outcome::Inserted) => None,
            _ => panic!("Impossible outcome: a={:?}, b={:?}", a, b),
        };

        let neighbor = get(&tree, NEIGHBOR);
        assert_eq!(run(&mut tree, neighbor), Outcome::Found(Some(2)));
        let key = get(&tree, KEY);
        assert_eq!(run(&mut tree, key), Outcome::Found(last));
    }
}

/// Where a reader was trimmed, a value is not taken for a node.
#[test]
fn traverse_node_trimmed_reader_ignores_buffer_tail() {
    let key = 0x0101u16;
    let mut tree = Tree::<u16>::new();
    let first = insert(&tree, key, 7);
    assert_eq!(run(&mut tree, first), Outcome::Inserted);

    let reader = Reader::new(key);
    let mut cursor = Cursor::new(reader, full());
    cursor.trim(&tree, reader.len());

    let word = tree.load(cursor.place);
    assert!(matches!(traverse_node(&tree, &mut cursor, word), Descent::Missing { .. }));
}

/// Operations that run alone do what the operations of an ordered map do.
#[test]
fn operations_agree_with_an_ordered_map() {
    let mut state = 7;
    let mut tree = Tree::<u64>::new();
    let mut model = BTreeMap::new();
    for round in 0..4000u64 {
        let bits = random(&mut state);
        let key = (bits >> 8) % 400 * if bits & 1 == 0 { 1 } else { 0x0001_0000_0000_0001 };
        match bits >> 32 & 7 {
            0..=2 => {
                let operation = upsert(&tree, key, round);
                let old = model.insert(key, round);
                assert_eq!(run(&mut tree, operation), Outcome::Stored(old));
            }
            3 => {
                let operation = insert(&tree, key, round);
                match model.get(&key) {
                    Some(old) => assert_eq!(run(&mut tree, operation), Outcome::Exists(*old)),
                    None => {
                        assert_eq!(run(&mut tree, operation), Outcome::Inserted);
                        model.insert(key, round);
                    }
                }
            }
            4 => {
                let operation = update(&tree, key, round);
                match model.get_mut(&key) {
                    Some(old) => {
                        assert_eq!(run(&mut tree, operation), Outcome::Changed(*old));
                        *old = round;
                    }
                    None => assert_eq!(run(&mut tree, operation), Outcome::Absent),
                }
            }
            5 | 6 => {
                let operation = remove(&tree, key);
                match model.remove(&key) {
                    Some(old) => assert_eq!(run(&mut tree, operation), Outcome::Removed(old)),
                    None => assert_eq!(run(&mut tree, operation), Outcome::Absent),
                }
            }
            _ => {
                let operation = get(&tree, key);
                let expected = model.get(&key).copied();
                assert_eq!(run(&mut tree, operation), Outcome::Found(expected));
            }
        }
    }
    let expected = model.iter().map(|(key, value)| (*key, *value)).collect::<Vec<_>>();
    assert_eq!(contents(&tree, Order::Ascend), expected);
    let reversed = expected.iter().rev().copied().collect::<Vec<_>>();
    assert_eq!(contents(&tree, Order::Descend), reversed);
}

/// Operations of two threads on keys of their own do not affect each other.
#[test]
fn disjoint_operations_commute() {
    let mut state = 3;
    for _ in 0..200 {
        let mut tree = Tree::<u64>::new();
        let mut a = Vec::new();
        let mut b = Vec::new();
        for i in 0..20 {
            a.push(insert(&tree, i * 2, i));
            b.push(insert(&tree, i * 2 + 1, i + 100));
        }
        let (a, b) = race(&mut tree, a, b, random(&mut state));
        assert!(a.iter().chain(b.iter()).all(|outcome| *outcome == Outcome::Inserted));
        let expected = (0..40)
            .map(|key| (key, if key % 2 == 0 { key / 2 } else { key / 2 + 100 }))
            .collect::<Vec<_>>();
        assert_eq!(contents(&tree, Order::Ascend), expected);
    }
}

/// A scan reports what is there all the time, in order, whatever else goes on.
#[test]
fn scan_keeps_up_with_changes() {
    let mut state = 11;
    for round in 0..200 {
        let order = if round % 2 == 0 { Order::Ascend } else { Order::Descend };
        let mut tree = Tree::<u64>::new();
        for key in 0..60u64 {
            let operation = insert(&tree, key * 1000, key);
            assert_eq!(run(&mut tree, operation), Outcome::Inserted);
        }
        let mut scan = Scan::<u64, Reader<u64>>::all(&tree, order);
        let mut other: Option<Operation<u64>> = None;
        let mut entries = Vec::new();
        loop {
            if random(&mut state) % 3 == 0 {
                match scan.step(&tree) {
                    ScanStep::Pending => {}
                    ScanStep::Entry { value } => entries.push((scan.writer.get(), value)),
                    ScanStep::End => break,
                }
            } else {
                let mut operation = match other.take() {
                    Some(operation) => operation,
                    None => {
                        // Keys that are multiples of 3000 are left alone.
                        let bits = random(&mut state);
                        let key = bits % 60 * 1000;
                        if bits & 0x100 == 0 && key % 3000 != 0 {
                            remove(&tree, key)
                        } else if bits & 0x100 == 0 {
                            insert(&tree, key + 7, 1000)
                        } else {
                            upsert(&tree, key + 1 + bits % 5, 1001)
                        }
                    }
                };
                if operation.step(&mut tree).is_none() {
                    other = Some(operation);
                }
            }
        }
        if order == Order::Ascend {
            assert!(entries.windows(2).all(|pair| pair[0].0 < pair[1].0));
        } else {
            assert!(entries.windows(2).all(|pair| pair[0].0 > pair[1].0));
        }
        for key in (0..60u64).step_by(3) {
            assert!(entries.contains(&(key * 1000, key)));
        }
    }
}

#[test]
fn scans_are_bounded() {
    let mut tree = Tree::<u64>::new();
    for key in [3u64, 0x300, 0x301, 0x3ff, 0x400, 0x0300_0000] {
        let operation = insert(&tree, key, key + 1);
        assert_eq!(run(&mut tree, operation), Outcome::Inserted);
    }
    let keys = |lower: u64, upper: u64, order: Order| {
        let bounds = (Include(Reader::new(lower)), Include(Reader::new(upper)));
        let mut scan = Scan::<u64, Reader<u64>>::range(&tree, &bounds, order);
        collect(&tree, &mut scan).into_iter().map(|(key, _)| key).collect::<Vec<_>>()
    };
    assert_eq!(keys(0x300, 0x3ff, Order::Ascend), vec![0x300, 0x301, 0x3ff]);
    assert_eq!(keys(0x301, 0x400, Order::Descend), vec![0x400, 0x3ff, 0x301]);
    assert_eq!(keys(0x400, 0x300, Order::Ascend), Vec::<u64>::new());
    assert_eq!(keys(4, 0x2ff, Order::Ascend), Vec::<u64>::new());

    let bounds = (Include(Reader::new(0x3ffu64)), Unbound(PhantomData));
    let mut scan = Scan::<u64, Reader<u64>>::range(&tree, &bounds, Order::Ascend);
    let from = collect(&tree, &mut scan);
    assert_eq!(from, vec![(0x3ff, 0x400), (0x400, 0x401), (0x0300_0000, 0x0300_0001)]);

    let prefix = Reader::<u64>::from_prefix(&[0, 0, 0, 0, 0, 0, 3]).unwrap();
    let mut scan = Scan::<u64, Reader<u64>>::prefix(&tree, prefix, Order::Ascend);
    let begun = collect(&tree, &mut scan);
    assert_eq!(begun, vec![(0x300, 0x301), (0x301, 0x302), (0x3ff, 0x400)]);

    let prefix = Reader::<u64>::from_prefix(&[1]).unwrap();
    let mut scan = Scan::<u64, Reader<u64>>::prefix(&tree, prefix, Order::Ascend);
    assert_eq!(collect(&tree, &mut scan), vec![]);
}

/// A lookup takes a number of steps that its key bounds.
#[test]
fn lookups_are_short() {
    let mut tree = Tree::<u128>::new();
    for shift in 0..128 {
        let operation = upsert(&tree, 1u128 << shift, shift);
        run(&mut tree, operation);
    }
    for shift in 0..128 {
        let mut operation = Get::new(&tree, Reader::new(1u128 << shift));
        let mut steps = 1;
        while operation.step(&tree) == GetStep::Pending {
            steps += 1;
        }
        assert!(steps <= 2 * 16 + 2);
    }
}

/// Whatever others have begun and never finish, an operation that runs alone
/// ends.
#[test]
fn an_operation_that_runs_alone_ends() {
    let mut state = 11;
    for _ in 0..300 {
        let mut tree = Tree::<u64>::new();
        for key in 0..40u64 {
            let operation = upsert(&tree, key * 7 % 64, key);
            run(&mut tree, operation);
        }
        for _ in 0..12 {
            let bits = random(&mut state);
            let key = (bits >> 8) % 80;
            let mut operation = match bits >> 32 & 3 {
                0 => upsert(&tree, key, 1),
                1 => update(&tree, key, 2),
                _ => remove(&tree, key),
            };
            for _ in 0..bits >> 48 & 31 {
                if operation.step(&mut tree).is_some() {
                    break;
                }
            }
        }
        let key = random(&mut state) % 80;
        let old = get(&tree, key);
        let old = match run(&mut tree, old) {
            Outcome::Found(old) => old,
            outcome => panic!("unexpected outcome {outcome:?}"),
        };
        let operation = update(&tree, key, 1000);
        match old {
            Some(old) => assert_eq!(run(&mut tree, operation), Outcome::Changed(old)),
            None => assert_eq!(run(&mut tree, operation), Outcome::Absent),
        }
        let operation = upsert(&tree, key, 1001);
        assert_eq!(run(&mut tree, operation), Outcome::Stored(old.map(|_| 1000)));
        let operation = remove(&tree, key);
        assert_eq!(run(&mut tree, operation), Outcome::Removed(1001));
        let operation = get(&tree, key);
        assert_eq!(run(&mut tree, operation), Outcome::Found(None));
    }
}

/// Go on until the operation has replaced a node and made one more step.
fn replace_and_reserve(operation: &mut Upsert<u64, Reader<u64>>, tree: &mut Tree<u64>, value: u64) {
    let mut replaced = false;
    for _ in 0..100 {
        match operation.step(tree) {
            UpsertStep::Pending => {
                if replaced {
                    return;
                }
            }
            UpsertStep::Retire { .. } => replaced = true,
            UpsertStep::Ask { .. } => {
                assert_eq!(operation.answer(tree, Some(value)), UpsertStep::Pending);
            }
            step => panic!("unexpected step {step:?}"),
        }
    }
    panic!("a node is replaced");
}

/// Two insertions that stop right after each has reserved the last slot of a
/// node can hinder each other for as long as they are scheduled so; each ends
/// as soon as it runs alone.
#[test]
fn insertions_that_hinder_each_other_end_alone() {
    let mut tree = Tree::<u64>::new();
    for key in [1, 2] {
        let operation = insert(&tree, key, key);
        assert_eq!(run(&mut tree, operation), Outcome::Inserted);
    }
    let mut a = Upsert::new(&tree, Reader::new(3u64), full(), None);
    let mut b = Upsert::new(&tree, Reader::new(4u64), full(), None);
    assert_eq!(a.step(&mut tree), UpsertStep::Pending);
    assert_eq!(a.step(&mut tree), UpsertStep::Pending);
    for _ in 0..50 {
        replace_and_reserve(&mut b, &mut tree, 4);
        replace_and_reserve(&mut a, &mut tree, 3);
    }
    assert_eq!(contents(&tree, Order::Ascend), vec![(1, 1), (2, 2)]);
    let a = Operation::Upsert(3, 3, a);
    assert_eq!(run(&mut tree, a), Outcome::Stored(None));
    let b = Operation::Upsert(4, 4, b);
    assert_eq!(run(&mut tree, b), Outcome::Stored(None));
    assert_eq!(contents(&tree, Order::Ascend), vec![(1, 1), (2, 2), (3, 3), (4, 4)]);
}

/// Operations that run from their start to their end do what those of an
/// ordered map do, also where others were never finished.
#[test]
fn whole_operations_agree_with_an_ordered_map() {
    let mut state = 5;
    let mut tree = Tree::<u32>::new();
    let mut model = BTreeMap::new();
    for round in 0..6000u64 {
        let bits = random(&mut state);
        let key = (bits >> 8) as u32 % 300 * if bits & 1 == 0 { 1 } else { 0x0001_0001 };
        let reader = Reader::new(key);
        let old = model.get(&key).copied();
        match bits >> 32 & 7 {
            0 | 1 => {
                assert_eq!(whole::insert(&mut tree, reader, round), Ok(old));
                model.entry(key).or_insert(round);
            }
            2 => {
                assert_eq!(whole::upsert(&mut tree, reader, round), Ok(old));
                model.insert(key, round);
            }
            3 => {
                assert_eq!(whole::update(&mut tree, reader, round), Ok(old));
                if old.is_some() {
                    model.insert(key, round);
                }
            }
            4 | 5 => {
                assert_eq!(whole::remove(&mut tree, reader), Ok(old));
                model.remove(&key);
            }
            6 => assert_eq!(whole::get(&tree, reader), old),
            _ => {
                // An operation that reads and replaces nodes, and never
                // stores a value.
                let mut operation = Upsert::new(&tree, reader, full(), None);
                for _ in 0..bits >> 48 & 15 {
                    if let UpsertStep::Ask { .. } = operation.step(&mut tree) {
                        break;
                    }
                }
            }
        }
    }
    let range = (Include(Reader::new(50u32)), Include(Reader::new(250u32)));
    let values: Vec<_> = model.range(50..=250).map(|(_, value)| *value).collect();
    assert_eq!(whole::scan(&tree, &range, Order::Ascend), values);
    let values: Vec<_> = values.into_iter().rev().collect();
    assert_eq!(whole::scan(&tree, &range, Order::Descend), values);
    let entries: Vec<_> = model.into_iter().collect();
    assert_eq!(contents(&tree, Order::Ascend), entries);
}

/// Nodes that a walk from the root comes to, each with its number of children.
fn reachable<N: Key>(tree: &Tree<N>) -> BTreeMap<usize, usize> {
    let mut found = BTreeMap::new();
    let mut targets = vec![tree.root.target];
    while let Some(target) = targets.pop() {
        if let Target::Node(node) = target {
            let below: Vec<_> = tree.nodes[node]
                .words
                .iter()
                .map(|word| word.target)
                .filter(|target| *target != Target::Null)
                .collect();
            found.insert(node, below.len());
            targets.extend(below);
        }
    }
    found
}

/// A removal takes nodes without a child out of the tree, unless it was told
/// to leave them.
#[test]
fn no_node_is_left_without_a_child() {
    let mut state = 3;
    let mut tree = Tree::<u32>::new();
    for round in 0..4000u64 {
        let bits = random(&mut state);
        let key = (bits >> 8) as u32 % 200 * 0x0101;
        let reader = Reader::new(key);
        if bits & 1 == 0 {
            assert!(whole::upsert(&mut tree, reader, round).is_ok());
        } else {
            assert!(whole::remove(&mut tree, reader).is_ok());
        }
        assert!(reachable(&tree).values().all(|children| *children > 0));
    }
    for key in 0..200u32 {
        assert!(whole::remove(&mut tree, Reader::new(key * 0x0101)).is_ok());
    }
    assert_eq!(tree.root.target, Target::Null);

    // Without recursion, nodes without a child are left.
    for key in [0x0001_0001u32, 0x0001_0002, 0x0002_0001] {
        assert_eq!(whole::insert(&mut tree, Reader::new(key), 1), Ok(None));
    }
    for key in [0x0001_0001u32, 0x0001_0002] {
        let mut operation = Remove::new(&tree, Reader::new(key), full(), false);
        loop {
            match operation.step(&mut tree) {
                RemoveStep::Ask { .. } => {
                    operation.answer(&tree, true);
                }
                RemoveStep::Success { .. } => break,
                RemoveStep::Pending => {}
                step => panic!("unexpected step {step:?}"),
            }
        }
    }
    assert!(reachable(&tree).values().any(|children| *children == 0));
}

/// A node that is reported for retirement has left the tree for good.
#[test]
fn retired_nodes_are_gone() {
    let mut state = 23;
    let mut tree = Tree::<u32>::new();
    let mut retired = Vec::new();
    for round in 0..1500u64 {
        let bits = random(&mut state);
        let key = ((bits >> 8) as u32 % 12) << 16 | (bits >> 40) as u32 % 4;
        if bits & 1 == 0 {
            let mut operation = Upsert::new(&tree, Reader::new(key), full(), None);
            loop {
                let before = reachable(&tree);
                match operation.step(&mut tree) {
                    UpsertStep::Ask { .. } => {
                        operation.answer(&tree, Some(round));
                    }
                    UpsertStep::Retire { node, .. } => {
                        assert!(before.contains_key(&node));
                        retired.push(node);
                    }
                    UpsertStep::Success { .. } => break,
                    UpsertStep::Pending => {}
                    step => panic!("unexpected step {step:?}"),
                }
            }
        } else {
            let mut operation = Remove::new(&tree, Reader::new(key), full(), true);
            loop {
                let before = reachable(&tree);
                match operation.step(&mut tree) {
                    RemoveStep::Ask { .. } => {
                        operation.answer(&tree, true);
                    }
                    RemoveStep::Retire { node, .. } => {
                        assert!(before.contains_key(&node));
                        retired.push(node);
                    }
                    RemoveStep::Done | RemoveStep::Absent => break,
                    RemoveStep::Success { .. } | RemoveStep::Pending => {}
                    step => panic!("unexpected step {step:?}"),
                }
            }
        }
        let now = reachable(&tree);
        assert!(retired.iter().all(|node| !now.contains_key(node)));
    }
    assert!(retired.len() > 20);
}

/// Store a value, and collect what is to be reported.
fn watched_upsert<N>(tree: &mut Tree<N>, operation: &mut Upsert<N, Reader<N>>) -> Vec<Event>
where
    N: Native + Key,
    Reader<N>: Read<Edge = N::Edge>,
{
    let mut watch = Watch::new();
    let mut events = Vec::new();
    loop {
        let from = operation.phase;
        let step = operation.step(tree);
        events.extend(watch.upsert(tree, from, operation, step));
        match step {
            UpsertStep::Ask { .. } => {
                operation.answer(tree, Some(1));
            }
            UpsertStep::Success { .. } | UpsertStep::Retry { .. } => return events,
            _ => {}
        }
    }
}

/// Go on until the value is about to be stored.
fn commit<N>(tree: &mut Tree<N>, key: N) -> Upsert<N, Reader<N>>
where
    N: Native + Key,
    Reader<N>: Read<Edge = N::Edge>,
{
    let mut operation = Upsert::new(tree, Reader::new(key), discard(), None);
    while !matches!(operation.step(tree), UpsertStep::Ask { .. }) {}
    operation.answer(tree, Some(1));
    operation
}

#[test]
fn conflicts_are_reported() {
    // A key that does not fit on an edge comes with a node.
    let mut tree = Tree::<u64>::new();
    let mut operation = commit(&mut tree, 1);
    assert_eq!(whole::insert(&mut tree, Reader::new(1u64 << 32), 1), Ok(None));
    let events = watched_upsert(&mut tree, &mut operation);
    assert_eq!(events, [Event::Count(Counter::FreeConflict)]);

    let mut tree = Tree::<u16>::new();
    let mut operation = commit(&mut tree, 1);
    assert_eq!(whole::insert(&mut tree, Reader::new(0x0100u16), 1), Ok(None));
    assert_eq!(watched_upsert(&mut tree, &mut operation), []);
}

#[test]
fn replacements_are_reported() {
    // A full node is replaced in order to make room for one more child.
    let mut tree = Tree::<u16>::new();
    for key in 0..3u16 {
        assert_eq!(whole::insert(&mut tree, Reader::new(key), 1), Ok(None));
    }
    let mut operation = Upsert::new(&tree, Reader::new(3u16), discard(), None);
    let events = watched_upsert(&mut tree, &mut operation);
    assert_eq!(events, [Event::Count(Counter::Retire)]);

    // An operation that comes to a frozen word has to start again, and then
    // goes back one place.
    for key in 4..14u16 {
        assert_eq!(whole::insert(&mut tree, Reader::new(key), 1), Ok(None));
    }
    let node = match tree.root.target {
        Target::Node(node) => node,
        target => panic!("unexpected target {target:?}"),
    };
    for slot in 0..14 {
        tree.freeze(node, slot);
    }
    tree.close(node);
    let mut operation = Upsert::new(&tree, Reader::new(5u16), discard(), None);
    let events = watched_upsert(&mut tree, &mut operation);
    assert_eq!(events, [Event::Count(Counter::InsertPessimistic)]);
    let mut operation = Upsert::new(&tree, Reader::new(5u16), full(), None);
    let events = watched_upsert(&mut tree, &mut operation);
    assert_eq!(
        events,
        [Event::Sample(Record::FreezePop, 1), Event::Count(Counter::Retire)]
    );
}

#[test]
fn removals_report_how_far_they_went_back() {
    let mut tree = Tree::<u32>::new();
    for key in [0x0101_0101u32, 0x0101_0102, 0x0102_0000] {
        assert_eq!(whole::insert(&mut tree, Reader::new(key), 1), Ok(None));
    }
    let mut operation = Remove::new(&tree, Reader::new(0x0101_0101u32), full(), true);
    let mut watch = Watch::new();
    let mut events = Vec::new();
    loop {
        let from = operation.phase;
        let step = operation.step(&mut tree);
        events.extend(watch.remove(&tree, from, &operation, step));
        match step {
            RemoveStep::Ask { .. } => {
                operation.answer(&tree, true);
            }
            RemoveStep::Done => break,
            _ => {}
        }
    }
    // The inner node gave way to a longer edge; the outer one stays.
    assert_eq!(
        events,
        [
            Event::Sample(Record::FreezePop, 1),
            Event::Count(Counter::Retire),
            Event::Sample(Record::RemovePop, 1),
        ]
    );
}

#[test]
fn scans_report_the_nodes_that_they_enter() {
    let mut tree = Tree::<u16>::new();
    for key in [0x0101u16, 0x0102, 0x0201] {
        assert_eq!(whole::insert(&mut tree, Reader::new(key), 1), Ok(None));
    }
    let range = (Include(Reader::new(0x0100u16)), Include(Reader::new(0x0101u16)));
    let mut scan = Scan::<u16, Reader<u16>>::range(&tree, &range, Order::Ascend);
    let mut events = Vec::new();
    loop {
        let depth = scan.frames.len();
        let step = scan.step(&tree);
        events.extend(scan_event(&tree, depth, &scan));
        if step == ScanStep::End {
            break;
        }
    }
    assert_eq!(events, [Event::Count(Counter::EntriesOne)]);

    let mut scan =
        Scan::<u16, Reader<u16>>::range(&tree, &(Unbound(PhantomData), Unbound(PhantomData)), Order::Ascend);
    let mut events = Vec::new();
    loop {
        let depth = scan.frames.len();
        let step = scan.step(&tree);
        events.extend(scan_event(&tree, depth, &scan));
        if step == ScanStep::End {
            break;
        }
    }
    assert_eq!(events, [Event::Count(Counter::EntriesMany); 2]);
}
