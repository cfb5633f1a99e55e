use std::collections::HashMap;

use eigenlog::cache::CacheLimit;
use eigenlog::error::Error;
use eigenlog::level::Level;
use eigenlog::record::LogData;
use eigenlog::shipper::{Action, Event, Phase, Shipper};

fn sample(message: &str) -> LogData {
    LogData {
        message: message.to_string(),
        code_module: None,
        code_file: None,
        code_line: None,
        tags: HashMap::new(),
    }
}

fn record(shipper: &mut Shipper, level: Level, message: &str) -> Action {
    shipper.step(Event::Record(level, sample(message)), 0).unwrap()
}

#[test]
fn three_records_fill_a_batch_of_three() {
    let limits = CacheLimit { error: 1, warn: 1, info: 3, debug: 100, trace: 100 };
    let mut shipper = Shipper::new(limits, 30_000);
    assert!(matches!(record(&mut shipper, Level::Info, "a"), Action::Wait));
    assert!(matches!(record(&mut shipper, Level::Info, "b"), Action::Wait));
    match record(&mut shipper, Level::Info, "c") {
        Action::Send(level, batch) => {
            assert_eq!(level, Level::Info);
            assert_eq!(batch.len(), 3);
            let messages: Vec<String> =
                batch.entries().iter().map(|e| e.1.message.clone()).collect();
            assert_eq!(messages, vec!["a", "b", "c"]);
            let ids: Vec<u128> = batch.entries().iter().map(|e| e.0).collect();
            assert!(ids[0] < ids[1] && ids[1] < ids[2]);
        }
        _ => panic!("the batch was not sent"),
    }
    // exactly one send: nothing waits, and nothing more is sent
    assert_eq!(shipper.phase(), Phase::Sending);
    assert!(matches!(shipper.step(Event::SendDone, 0).unwrap(), Action::Wait));
    assert_eq!(shipper.phase(), Phase::Idle);
}

#[test]
fn the_more_significant_batch_is_sent_first() {
    let mut shipper = Shipper::new(CacheLimit::default(), 30_000);
    // a send in flight holds everything else back
    assert!(matches!(record(&mut shipper, Level::Warn, "w"), Action::Send(Level::Warn, _)));
    for i in 0..100 {
        assert!(matches!(record(&mut shipper, Level::Trace, &format!("t{}", i)), Action::Wait));
    }
    assert!(matches!(record(&mut shipper, Level::Error, "e"), Action::Wait));
    // both batches are ready: the error goes first
    match shipper.step(Event::SendDone, 0).unwrap() {
        Action::Send(level, batch) => {
            assert_eq!(level, Level::Error);
            assert_eq!(batch.len(), 1);
            assert_eq!(batch.entries()[0].1.message, "e");
        }
        _ => panic!("nothing was sent"),
    }
    match shipper.step(Event::SendDone, 0).unwrap() {
        Action::Send(level, batch) => {
            assert_eq!(level, Level::Trace);
            assert_eq!(batch.len(), 100);
        }
        _ => panic!("nothing was sent"),
    }
    assert!(matches!(shipper.step(Event::SendDone, 0).unwrap(), Action::Wait));
}

#[test]
fn a_flush_hands_out_what_is_below_its_limit() {
    let limits = CacheLimit { error: 1, warn: 1, info: 3, debug: 100, trace: 100 };
    let mut shipper = Shipper::new(limits, 30_000);
    assert!(matches!(record(&mut shipper, Level::Info, "one"), Action::Wait));
    assert!(matches!(record(&mut shipper, Level::Info, "two"), Action::Wait));
    assert_eq!(shipper.phase(), Phase::HasCachedBatches);
    match shipper.step(Event::Flush, 0).unwrap() {
        Action::Flush(batches) => {
            assert_eq!(batches.len(), 1);
            assert_eq!(batches[0].0, Level::Info);
            let messages: Vec<String> =
                batches[0].1.entries().iter().map(|e| e.1.message.clone()).collect();
            assert_eq!(messages, vec!["one", "two"]);
        }
        _ => panic!("nothing was flushed"),
    }
    assert_eq!(shipper.phase(), Phase::Idle);
    match shipper.step(Event::Flush, 0).unwrap() {
        Action::Flush(batches) => assert!(batches.is_empty()),
        _ => panic!("nothing was flushed"),
    }
}

#[test]
fn a_flush_takes_the_severities_in_their_order() {
    let limits = CacheLimit { error: 9, warn: 9, info: 9, debug: 9, trace: 9 };
    let mut shipper = Shipper::new(limits, 30_000);
    record(&mut shipper, Level::Trace, "t");
    record(&mut shipper, Level::Error, "e");
    record(&mut shipper, Level::Info, "i1");
    record(&mut shipper, Level::Info, "i2");
    let batches = shipper.flush();
    let seen: Vec<(Level, usize)> = batches.iter().map(|b| (b.0, b.1.len())).collect();
    assert_eq!(seen, vec![(Level::Error, 1), (Level::Info, 2), (Level::Trace, 1)]);
}

#[test]
fn one_send_is_in_flight_at_most() {
    let mut shipper = Shipper::new(CacheLimit::default(), 30_000);
    assert!(matches!(record(&mut shipper, Level::Error, "e1"), Action::Send(Level::Error, _)));
    assert!(matches!(record(&mut shipper, Level::Error, "e2"), Action::Wait));
    assert!(matches!(record(&mut shipper, Level::Warn, "w1"), Action::Wait));
    assert!(shipper.next_send(0).is_none());
    match shipper.step(Event::SendDone, 0).unwrap() {
        Action::Send(level, batch) => {
            assert_eq!(level, Level::Error);
            assert_eq!(batch.entries()[0].1.message, "e2");
        }
        _ => panic!("nothing was sent"),
    }
    assert!(matches!(shipper.step(Event::SendDone, 0).unwrap(), Action::Send(Level::Warn, _)));
}

#[test]
fn an_old_record_is_sent_below_its_limit() {
    let mut shipper = Shipper::new(CacheLimit::default(), 30_000);
    let id = shipper.record(Level::Debug, sample("d")).unwrap();
    shipper.record(Level::Debug, sample("d2")).unwrap();
    // the age of a batch is that of its oldest record
    let made = (id >> 80) as u64;
    assert!(shipper.next_send(made + 30_000).is_none());
    match shipper.next_send(made + 60_000) {
        Some((level, batch)) => {
            assert_eq!(level, Level::Debug);
            assert_eq!(batch.len(), 2);
        }
        None => panic!("nothing was sent"),
    }
}

#[test]
fn a_closed_channel_stops_the_shipper() {
    let mut shipper = Shipper::new(CacheLimit::default(), 30_000);
    record(&mut shipper, Level::Info, "left over");
    assert!(matches!(shipper.step(Event::Closed, 0).unwrap(), Action::Stop));
    // what is left is still there for the last delivery
    let left = shipper.flush();
    assert_eq!(left.len(), 1);
    assert_eq!(left[0].1.entries()[0].1.message, "left over");
}

#[test]
fn a_record_is_cached_under_a_given_identifier() {
    let limits = CacheLimit { error: 2, warn: 2, info: 2, debug: 2, trace: 2 };
    let mut shipper = Shipper::new(limits, 30_000);
    assert!(shipper.add_to_cache(Level::Info, 3, sample("early")).is_ok());
    assert!(shipper.add_to_cache(Level::Info, 9, sample("late")).is_ok());
    match shipper.next_send(0) {
        Some((level, batch)) => {
            assert_eq!(level, Level::Info);
            let ids: Vec<u128> = batch.entries().iter().map(|e| e.0).collect();
            assert_eq!(ids, vec![3, 9]);
        }
        None => panic!("nothing was sent"),
    }
    shipper.send_done();
    assert_eq!(shipper.phase(), Phase::Idle);
}

#[test]
fn an_identifier_that_does_not_rise_is_refused() {
    let limits = CacheLimit { error: 9, warn: 9, info: 9, debug: 9, trace: 9 };
    let mut shipper = Shipper::new(limits, 30_000);
    assert!(shipper.add_to_cache(Level::Info, 9, sample("first")).is_ok());
    for stale in [0u128, 3, 9] {
        match shipper.add_to_cache(Level::Warn, stale, sample("stale")) {
            Err(Error::Ulid(text)) => {
                assert_eq!(text, "the identifier is not larger than the last one")
            }
            _ => panic!("the identifier {} was accepted", stale),
        }
    }
    assert!(shipper.add_to_cache(Level::Warn, 10, sample("next")).is_ok());
    let held = shipper.flush();
    let seen: Vec<(Level, usize)> = held.iter().map(|b| (b.0, b.1.len())).collect();
    assert_eq!(seen, vec![(Level::Warn, 1), (Level::Info, 1)]);
}

#[test]
fn a_record_that_arrives_during_a_send_adds_one_entry() {
    let limits = CacheLimit { error: 1, warn: 1, info: 1, debug: 1, trace: 1 };
    let mut shipper = Shipper::new(limits, 30_000);
    assert!(matches!(record(&mut shipper, Level::Warn, "w"), Action::Send(Level::Warn, _)));
    let mut last = 0u128;
    for n in 1..=5usize {
        // the batch is ready, yet nothing is sent while the send is in flight
        let id = shipper.record(Level::Info, sample("i")).unwrap();
        assert!(id > last);
        last = id;
        assert!(shipper.next_send(0).is_none());
        assert_eq!(shipper.phase(), Phase::Sending);
        let _ = n;
    }
    match shipper.step(Event::SendDone, 0).unwrap() {
        Action::Send(level, batch) => {
            assert_eq!(level, Level::Info);
            assert_eq!(batch.len(), 5);
        }
        _ => panic!("nothing was sent"),
    }
}
