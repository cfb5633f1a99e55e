//! The decisions of the shipper: what becomes of the cache when a record
//! arrives, when a send completes and when a flush is asked for.
//!
//! The task that owns a `Shipper` waits for records, for the send in flight
//! and for flush requests; it hands each event to `step` and carries out the
//! action that comes back. One send is in flight at most.

use vstd::prelude::*;
use crate::cache::{batch_views, held, picked, CacheLimit, SubscriberCache, Waiting};
use crate::error::Error;
use crate::id::{stale_text, IdGenerator};
use crate::level::{levels_by_weight, Level};
use crate::record::{batch_insert, has_id, lemma_insert_ids, LogBatch, LogData};

verus! {

/// What happened.
pub enum Event {
    /// A record arrived.
    Record(Level, LogData),
    /// The send in flight completed, well or not.
    SendDone,
    /// A flush was asked for.
    Flush,
    /// The channel of the records closed.
    Closed,
}

/// What is to be done.
pub enum Action {
    /// Nothing but to wait for the next event.
    Wait,
    /// Send this batch of this severity; it is in flight from now on.
    Send(Level, LogBatch),
    /// Send each of these batches, then answer the flush request.
    Flush(Vec<(Level, LogBatch)>),
    /// Wait for the send in flight, if any, and stop.
    Stop,
}

/// Where the shipper stands.
#[derive(Clone, Copy, Debug, PartialEq, Eq, Structural)]
pub enum Phase {
    /// Nothing is cached and nothing is in flight.
    Idle,
    /// Records are cached and nothing is in flight.
    HasCachedBatches,
    /// A send is in flight.
    Sending,
}

/// The state of a shipper.
pub struct Shipper {
    cache: SubscriberCache,
    generator: IdGenerator,
    limits: CacheLimit,
    timeout: u64,
    in_flight: bool,
}

/// What a look for the next send comes to, from a cache and the state of the
/// flight: while a send is in flight nothing is sent; otherwise the batch of
/// the most significant ready severity is detached and is in flight.
pub open spec fn sends(
    before: Waiting,
    flying: bool,
    limits: CacheLimit,
    now: u64,
    timeout: u64,
    after: Waiting,
    flying_after: bool,
    out: Option<(Level, Seq<(u128, LogData)>)>,
) -> bool {
    if flying {
        after == before && flying_after && out is None
    } else {
        match picked(before, limits, now, timeout) {
            Some(l) => after == before.insert(l, Seq::empty()) && flying_after && out == Some(
                (l, before[l]),
            ),
            None => after == before && !flying_after && out is None,
        }
    }
}

/// No record waits under an identifier that is larger than `last`.
pub open spec fn ids_at_most(cache: Waiting, last: u128) -> bool {
    forall|l: Level, i: int| 0 <= i < cache[l].len() ==> (#[trigger] cache[l][i]).0 <= last
}

impl Shipper {
    /// What waits under each severity.
    pub closed spec fn waiting(&self) -> Waiting {
        self.cache@
    }

    /// Whether a send is in flight.
    pub closed spec fn in_flight(&self) -> bool {
        self.in_flight
    }

    /// The limits of the batches.
    pub closed spec fn limits(&self) -> CacheLimit {
        self.limits
    }

    /// The age in milliseconds after which a record is shipped whatever the
    /// size of its batch.
    pub closed spec fn timeout(&self) -> u64 {
        self.timeout
    }

    /// The last identifier given to a record, or zero before the first.
    pub closed spec fn last_id(&self) -> u128 {
        self.generator.last()
    }

    /// The state is well formed: every batch is, and no record waits under
    /// an identifier that is larger than the last one given.
    pub closed spec fn wf(&self) -> bool {
        &&& self.cache.wf()
        &&& ids_at_most(self.cache@, self.generator.last())
    }

    /// In a well-formed state no record waits under an identifier that is
    /// larger than the last one given.
    pub proof fn lemma_ids_at_most(&self)
        requires
            self.wf(),
        ensures
            ids_at_most(self.waiting(), self.last_id()),
    {
    }

    /// Where the shipper stands.
    pub open spec fn phase_of(&self) -> Phase {
        if self.in_flight() {
            Phase::Sending
        } else if forall|l: Level| (#[trigger] self.waiting()[l]).len() == 0 {
            Phase::Idle
        } else {
            Phase::HasCachedBatches
        }
    }

    /// A shipper with an empty cache and nothing in flight.
    pub fn new(limits: CacheLimit, timeout: u64) -> (r: Shipper)
        ensures
            r.wf(),
            r.limits() == limits,
            r.timeout() == timeout,
            !r.in_flight(),
            r.last_id() == 0,
            forall|l: Level| (#[trigger] r.waiting()[l]).len() == 0,
            r.phase_of() == Phase::Idle,
    {
        let cache = SubscriberCache::new();
        assert forall|l: Level| (#[trigger] cache@[l]).len() == 0 by {
            assert(cache.batch(l).len() == 0);
        }
        Shipper { cache, generator: IdGenerator::new(), limits, timeout, in_flight: false }
    }

    /// Where the shipper stands.
    pub fn phase(&self) -> (r: Phase)
        ensures
            r == self.phase_of(),
    {
        if self.in_flight {
            return Phase::Sending;
        }
        let levels = Level::by_weight();
        let mut i: usize = 0;
        while i < levels.len()
            invariant
                i <= levels@.len(),
                levels@ == levels_by_weight(),
                !self.in_flight(),
                forall|k: int| 0 <= k < i ==> (#[trigger] self.waiting()[levels@[k]]).len() == 0,
            decreases levels@.len() - i,
        {
            if !self.cache.get(levels[i]).is_empty() {
                assert(self.waiting()[levels@[i as int]].len() > 0);
                return Phase::HasCachedBatches;
            }
            i = i + 1;
        }
        proof {
            assert forall|l: Level| (#[trigger] self.waiting()[l]).len() == 0 by {
                assert(levels@[l.weight()] == l);
                assert(self.waiting()[levels@[l.weight()]].len() == 0);
            }
        }
        Phase::Idle
    }

    /// Puts a record under a given identifier into the batch of its
    /// severity, if the identifier is larger than every one given before; it
    /// is then the last one given, and the batch has one record more. Any
    /// other identifier is refused and nothing changes. Nothing is sent here.
    pub fn add_to_cache(&mut self, level: Level, id: u128, data: LogData) -> (r: Result<(), Error>)
        requires
            old(self).wf(),
        ensures
            final(self).wf(),
            final(self).in_flight() == old(self).in_flight(),
            final(self).limits() == old(self).limits(),
            final(self).timeout() == old(self).timeout(),
            id > old(self).last_id() ==> {
                &&& r is Ok
                &&& final(self).last_id() == id
                &&& final(self).waiting() == old(self).waiting().insert(
                    level,
                    batch_insert(old(self).waiting()[level], id, data),
                )
                &&& final(self).waiting()[level].len() == old(self).waiting()[level].len() + 1
            },
            id <= old(self).last_id() ==> {
                &&& r matches Err(Error::Ulid(t))
                &&& t@ == stale_text()
                &&& final(self).last_id() == old(self).last_id()
                &&& final(self).waiting() == old(self).waiting()
            },
    {
        match self.generator.accept(id) {
            Ok(_) => {
                self.put(level, id, data);
                Ok(())
            },
            Err(e) => Err(e),
        }
    }

    /// Puts a record into the batch of its severity under the identifier
    /// that was given last, which is new to the cache.
    fn put(&mut self, level: Level, id: u128, data: LogData)
        requires
            old(self).cache.wf(),
            old(self).generator.last() == id,
            forall|l: Level, i: int|
                0 <= i < old(self).cache@[l].len() ==> (#[trigger] old(self).cache@[l][i]).0 < id,
        ensures
            final(self).wf(),
            final(self).in_flight() == old(self).in_flight(),
            final(self).limits() == old(self).limits(),
            final(self).timeout() == old(self).timeout(),
            final(self).last_id() == id,
            final(self).waiting() == old(self).waiting().insert(
                level,
                batch_insert(old(self).waiting()[level], id, data),
            ),
            final(self).waiting()[level].len() == old(self).waiting()[level].len() + 1,
    {
        let ghost before = self.cache@;
        proof {
            self.cache.lemma_rises(level);
            lemma_insert_ids(before[level], id, data);
            assert(!has_id(before[level], id)) by {
                if has_id(before[level], id) {
                    let i = choose|i: int|
                        0 <= i < before[level].len() && (#[trigger] before[level][i]).0 == id;
                    assert(before[level][i].0 < id);
                }
            }
        }
        self.cache.insert(level, id, data);
        proof {
            let after = self.cache@;
            assert forall|l: Level, i: int| 0 <= i < after[l].len() implies (
            #[trigger] after[l][i]).0 <= id by {
                if l == level {
                    assert(has_id(after[l], after[l][i].0));
                    if after[l][i].0 != id {
                        assert(has_id(before[l], after[l][i].0));
                        let k = choose|k: int|
                            0 <= k < before[l].len() && (#[trigger] before[l][k]).0
                                == after[l][i].0;
                        assert(before[l][k].0 < id);
                    }
                } else {
                    assert(after[l] == before[l]);
                    assert(before[l][i].0 < id);
                }
            }
        }
    }

    /// Takes a record in: it gets a new identifier, larger than every one
    /// given before, and waits in the batch of its severity. Where no
    /// identifier can be made, the record is refused and nothing changes.
    pub fn record(&mut self, level: Level, data: LogData) -> (r: Result<u128, Error>)
        requires
            old(self).wf(),
        ensures
            final(self).wf(),
            final(self).in_flight() == old(self).in_flight(),
            final(self).limits() == old(self).limits(),
            final(self).timeout() == old(self).timeout(),
            match r {
                Ok(id) => {
                    &&& id > old(self).last_id()
                    &&& final(self).last_id() == id
                    &&& final(self).waiting() == old(self).waiting().insert(
                        level,
                        batch_insert(old(self).waiting()[level], id, data),
                    )
                    &&& final(self).waiting()[level].len() == old(self).waiting()[level].len()
                        + 1
                },
                Err(e) => {
                    &&& e is Ulid
                    &&& final(self).last_id() == old(self).last_id()
                    &&& final(self).waiting() == old(self).waiting()
                },
            },
    {
        match self.generator.generate() {
            Ok(id) => {
                self.put(level, id, data);
                Ok(id)
            },
            Err(e) => Err(e),
        }
    }

    /// Takes note that the send in flight completed.
    pub fn send_done(&mut self)
        ensures
            !final(self).in_flight(),
            final(self).wf() == old(self).wf(),
            final(self).waiting() == old(self).waiting(),
            final(self).limits() == old(self).limits(),
            final(self).timeout() == old(self).timeout(),
            final(self).last_id() == old(self).last_id(),
    {
        self.in_flight = false;
    }

    /// Looks for the next batch to send at the time `now`. While a send is
    /// in flight there is none. Otherwise the severities are looked at from
    /// the most significant on, and the first batch that is ready is
    /// detached and is in flight from now on.
    pub fn next_send(&mut self, now: u64) -> (r: Option<(Level, LogBatch)>)
        requires
            old(self).wf(),
        ensures
            final(self).wf(),
            final(self).limits() == old(self).limits(),
            final(self).timeout() == old(self).timeout(),
            final(self).last_id() == old(self).last_id(),
            sends(
                old(self).waiting(),
                old(self).in_flight(),
                old(self).limits(),
                now,
                old(self).timeout(),
                final(self).waiting(),
                final(self).in_flight(),
                match r {
                    Some((l, b)) => Some((l, b@)),
                    None => None,
                },
            ),
            r matches Some((l, b)) ==> b.wf(),
    {
        if self.in_flight {
            return None;
        }
        match self.cache.next_ready(&self.limits, now, self.timeout) {
            Some(level) => {
                let batch = self.cache.take(level);
                self.in_flight = true;
                Some((level, batch))
            },
            None => None,
        }
    }

    /// Detaches every batch that holds records, the most significant
    /// severity first, for a flush or for the last delivery before the
    /// shipper goes. The cache is empty afterwards.
    pub fn flush(&mut self) -> (r: Vec<(Level, LogBatch)>)
        requires
            old(self).wf(),
        ensures
            final(self).wf(),
            final(self).in_flight() == old(self).in_flight(),
            final(self).limits() == old(self).limits(),
            final(self).timeout() == old(self).timeout(),
            final(self).last_id() == old(self).last_id(),
            batch_views(r@) == held(old(self).waiting(), levels_by_weight(), 0),
            forall|l: Level| (#[trigger] final(self).waiting()[l]).len() == 0,
            forall|i: int| 0 <= i < r@.len() ==> (#[trigger] r@[i]).1.wf(),
    {
        let r = self.cache.drain();
        proof {
            assert forall|l: Level| (#[trigger] self.waiting()[l]).len() == 0 by {
                assert(self.cache.batch(l).len() == 0);
            }
            assert forall|l: Level, i: int| 0 <= i < self.cache@[l].len() implies (
            #[trigger] self.cache@[l][i]).0 <= self.generator.last() by {
                assert(self.waiting()[l].len() == 0);
            }
        }
        r
    }

    /// Takes one event at the time `now` and says what is to be done.
    ///
    /// A record is cached under a new identifier, so that its batch has one
    /// record more; a completed send clears the flight. After either, the next batch to send is looked for as
    /// `next_send` does. A flush detaches every batch that holds records. A
    /// closed channel stops the shipper and changes nothing.
    pub fn step(&mut self, event: Event, now: u64) -> (r: Result<Action, Error>)
        requires
            old(self).wf(),
        ensures
            final(self).wf(),
            final(self).limits() == old(self).limits(),
            final(self).timeout() == old(self).timeout(),
            match event {
                Event::Record(level, data) => match r {
                    Ok(action) => {
                        let id = final(self).last_id();
                        let before = old(self).waiting()[level];
                        &&& id > old(self).last_id()
                        &&& batch_insert(before, id, data).len() == before.len() + 1
                        &&& action is Wait || action is Send
                        &&& sends(
                            old(self).waiting().insert(
                                level,
                                batch_insert(old(self).waiting()[level], id, data),
                            ),
                            old(self).in_flight(),
                            old(self).limits(),
                            now,
                            old(self).timeout(),
                            final(self).waiting(),
                            final(self).in_flight(),
                            match action {
                                Action::Send(l, b) => Some((l, b@)),
                                _ => None,
                            },
                        )
                    },
                    Err(e) => {
                        &&& e is Ulid
                        &&& final(self).last_id() == old(self).last_id()
                        &&& final(self).waiting() == old(self).waiting()
                        &&& final(self).in_flight() == old(self).in_flight()
                    },
                },
                Event::SendDone => {
                    &&& r matches Ok(action)
                    &&& action is Wait || action is Send
                    &&& final(self).last_id() == old(self).last_id()
                    &&& sends(
                        old(self).waiting(),
                        false,
                        old(self).limits(),
                        now,
                        old(self).timeout(),
                        final(self).waiting(),
                        final(self).in_flight(),
                        match action {
                            Action::Send(l, b) => Some((l, b@)),
                            _ => None,
                        },
                    )
                },
                Event::Flush => {
                    &&& r matches Ok(Action::Flush(batches))
                    &&& batch_views(batches@) == held(old(self).waiting(), levels_by_weight(), 0)
                    &&& final(self).last_id() == old(self).last_id()
                    &&& final(self).in_flight() == old(self).in_flight()
                    &&& forall|l: Level| (#[trigger] final(self).waiting()[l]).len() == 0
                },
                Event::Closed => {
                    &&& r matches Ok(Action::Stop)
                    &&& final(self).last_id() == old(self).last_id()
                    &&& final(self).waiting() == old(self).waiting()
                    &&& final(self).in_flight() == old(self).in_flight()
                },
            },
            r matches Ok(Action::Send(l, b)) ==> b.wf(),
    {
        match event {
            Event::Record(level, data) => {
                match self.record(level, data) {
                    Ok(_) => {},
                    Err(e) => {
                        return Err(e);
                    },
                }
                match self.next_send(now) {
                    Some((l, b)) => Ok(Action::Send(l, b)),
                    None => Ok(Action::Wait),
                }
            },
            Event::SendDone => {
                self.send_done();
                match self.next_send(now) {
                    Some((l, b)) => Ok(Action::Send(l, b)),
                    None => Ok(Action::Wait),
                }
            },
            Event::Flush => Ok(Action::Flush(self.flush())),
            Event::Closed => Ok(Action::Stop),
        }
    }
}

} // verus!
