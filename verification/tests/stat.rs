use arctic::concurrent::map::ConcurrentMap;
use arctic::concurrent::smr::no_op::NoOp;
use arctic::stat;
use arctic::stat::{Archive, Counter, Event, Max, Record, Recorder, Samples};
use base64::engine::general_purpose::STANDARD;
use base64::Engine;
use hdrhistogram::serialization::Deserializer;
use hdrhistogram::Histogram;

/// What a histogram holds, read from its text with the libraries that the
/// format belongs to.
fn read(samples: &Samples) -> Histogram<u64> {
    let text = samples.serialize().unwrap();
    let bytes = STANDARD.decode(text).unwrap();
    Deserializer::new().deserialize(&mut bytes.as_slice()).unwrap()
}

#[test]
fn histograms_are_written_as_text() {
    let mut samples = Samples::default();
    for value in [0, 1, 1, 7, 2047, 2048, 2049, 1_000_000] {
        samples.record(value);
    }
    let histogram = read(&samples);
    assert_eq!(histogram.len(), 8);
    assert_eq!(histogram.count_at(0), 1);
    assert_eq!(histogram.count_at(1), 2);
    assert_eq!(histogram.count_at(7), 1);
    assert_eq!(histogram.count_at(2047), 1);
    // Two values that are too close to be told apart.
    assert_eq!(histogram.count_at(2048), 2);
    assert_eq!(histogram.count_at(2049), 2);
    assert_eq!(histogram.lowest_equivalent(2049), 2048);
    assert_eq!(histogram.lowest_equivalent(1_000_000), 1_000_000 / 512 * 512);

    let text = samples.serialize().unwrap();
    assert!(Archive::deserialize(&text).is_some());
    assert!(samples.archive().is_some());
}

#[test]
fn other_texts_are_rejected() {
    assert!(Archive::deserialize("not base64!").is_none());
    assert!(Archive::deserialize("").is_none());
    assert!(Archive::deserialize("AAAA").is_none());
}

#[test]
fn what_follows_a_histogram_is_ignored() {
    let mut samples = Samples::default();
    for value in 0..100 {
        samples.record(value * value);
    }
    let text = samples.serialize().unwrap();
    assert!(Archive::deserialize(&(text.clone() + "!!!!")).is_some());
    // But none of the histogram can be left out.
    assert!(Archive::deserialize(&text[..text.len() / 2]).is_none());
}

#[test]
fn any_value_can_be_recorded() {
    let mut samples = Samples::default();
    for value in [5, 1 << 62, 1 << 63, u64::MAX - 1, u64::MAX] {
        samples.record(value);
    }
    let histogram = read(&samples);
    assert_eq!(histogram.len(), 5);
    assert_eq!(histogram.count_at(5), 1);
    assert_eq!(histogram.count_at(1 << 62), 1);
    assert_eq!(histogram.count_at(1 << 63), 1);
    assert_eq!(histogram.count_at(2047 << 53), 2);
    assert!(samples.archive().is_some());
}

#[test]
fn every_edge_and_node_is_counted() {
    let mut map = ConcurrentMap::<u64, u64, NoOp>::new();
    let process = stat::process(&map);
    assert_eq!(read(&process.compression).len(), 0);
    assert_eq!(process.garbage, 0);

    for key in 0..20u64 {
        assert!(map.insert(key, key).is_ok());
    }
    assert!(map.insert(1 << 56, 0).is_ok());
    let process = stat::process(&map);
    // One edge to the root, two below it, and twenty below the inner node.
    let compression = read(&process.compression);
    assert_eq!(compression.len(), 23);
    assert_eq!(compression.count_at(0), 21);
    assert_eq!(compression.count_at(6), 1);
    assert_eq!(compression.count_at(7), 1);
    let node_3 = read(&process.node_3);
    assert_eq!(node_3.len(), 1);
    assert_eq!(node_3.count_at(2), 1);
    assert_eq!(read(&process.node_15).len(), 0);
    let node_47 = read(&process.node_47);
    assert_eq!(node_47.len(), 1);
    assert_eq!(node_47.count_at(20), 1);
    assert_eq!(read(&process.node_256).len(), 0);
}

#[test]
fn events_are_counted_between_start_and_stop() {
    let mut recorder = Recorder::default();
    let mut recording = false;
    stat::increment(&mut recorder, recording, Counter::Retire);
    assert_eq!(stat::thread(&recorder).retire, 0);

    stat::start(&mut recording);
    stat::increment(&mut recorder, recording, Counter::Retire);
    stat::observe(&mut recorder, recording, Event::Count(Counter::Retire));
    stat::increment(&mut recorder, recording, Counter::FreeDrop);
    stat::max(&mut recorder, recording, Max::RetireCache, 7);
    stat::observe(&mut recorder, recording, Event::Most(Max::RetireCache, 5));
    stat::record(&mut recorder, recording, Record::FreezePop, 3);
    stat::stop(&mut recording);
    stat::increment(&mut recorder, recording, Counter::Retire);
    stat::observe(&mut recorder, recording, Event::Sample(Record::FreezePop, 3));

    let thread = stat::thread(&recorder);
    assert_eq!(thread.retire, 2);
    assert_eq!(thread.free_drop, 1);
    assert_eq!(thread.free_retire, 0);
    assert_eq!(thread.retire_cache, 7);
    assert_eq!(read(&thread.freeze_pop).count_at(3), 1);
    assert_eq!(read(&thread.flush).len(), 0);

    stat::reset(&mut recorder);
    assert_eq!(stat::thread(&recorder).retire, 0);
    assert_eq!(read(&stat::thread(&recorder).freeze_pop).len(), 0);
}
