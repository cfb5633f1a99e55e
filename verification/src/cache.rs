//! The subscriber's cache: one batch for each severity, and the rule that
//! says when a batch is shipped.

use vstd::prelude::*;
use crate::id::time_of;
use crate::level::{levels_by_weight, Level};
use crate::record::{batch_insert, ids_rise, LogBatch, LogData};

verus! {

/// The age in milliseconds after which a record is shipped whatever the size
/// of its batch, where nothing else is asked for: half a minute.
pub const DEFAULT_CACHE_TIMEOUT: u64 = 30_000;

/// How many records of each severity are held back before their batch is
/// shipped.
#[derive(Clone, Copy, Debug)]
pub struct CacheLimit {
    pub error: usize,
    pub warn: usize,
    pub info: usize,
    pub debug: usize,
    pub trace: usize,
}

/// The batch holds as many records as the limit asks for.
pub open spec fn is_full(limit: usize, batch: Seq<(u128, LogData)>) -> bool {
    batch.len() >= limit
}

/// The oldest record of the batch is older than the timeout, at the time
/// `now`. Both are in milliseconds.
pub open spec fn is_aged(batch: Seq<(u128, LogData)>, now: u64, timeout: u64) -> bool {
    batch.len() > 0 && now - time_of(batch[0].0) > timeout
}

/// The batch is ready to be shipped: it is full, or its oldest record is too
/// old.
pub open spec fn is_eligible(
    limit: usize,
    batch: Seq<(u128, LogData)>,
    now: u64,
    timeout: u64,
) -> bool {
    is_full(limit, batch) || is_aged(batch, now, timeout)
}

impl CacheLimit {
    /// The limit of a severity.
    pub open spec fn limit_of(&self, level: Level) -> usize {
        match level {
            Level::Trace => self.trace,
            Level::Debug => self.debug,
            Level::Info => self.info,
            Level::Warn => self.warn,
            Level::Error => self.error,
        }
    }

    /// The limit of a severity.
    pub fn get_limit(&self, level: Level) -> (r: usize)
        ensures
            r == self.limit_of(level),
    {
        match level {
            Level::Trace => self.trace,
            Level::Debug => self.debug,
            Level::Info => self.info,
            Level::Warn => self.warn,
            Level::Error => self.error,
        }
    }

    /// Tells whether the batch of a severity has reached its limit.
    pub fn reached_limit(&self, level: Level, batch: &LogBatch) -> (r: bool)
        ensures
            r == is_full(self.limit_of(level), batch@),
    {
        batch.len() >= self.get_limit(level)
    }

    /// Tells whether the batch of a severity is to be shipped at the time
    /// `now`: it has reached its limit, or its oldest record is older than
    /// the timeout. Both times are in milliseconds.
    pub fn should_send(&self, level: Level, batch: &LogBatch, now: u64, timeout: u64) -> (r: bool)
        ensures
            r == is_eligible(self.limit_of(level), batch@, now, timeout),
    {
        if self.reached_limit(level, batch) {
            return true;
        }
        match batch.first_id() {
            Some(id) => {
                let made = crate::id::timestamp_ms(id);
                now > made && now - made > timeout
            },
            None => false,
        }
    }
}

impl Default for CacheLimit {
    /// Errors and warnings are shipped one by one, information in tens, and
    /// the rest in hundreds.
    fn default() -> (r: CacheLimit)
        ensures
            r == (CacheLimit { error: 1, warn: 1, info: 10, debug: 100, trace: 100 }),
    {
        CacheLimit { error: 1, warn: 1, info: 10, debug: 100, trace: 100 }
    }
}

/// The records that wait to be shipped, one batch for each severity.
pub struct SubscriberCache {
    error: LogBatch,
    warn: LogBatch,
    info: LogBatch,
    debug: LogBatch,
    trace: LogBatch,
}

/// What waits under each severity.
pub type Waiting = Map<Level, Seq<(u128, LogData)>>;

/// The first severity of `levels` from `from` on whose batch is ready, or
/// `None` where none is.
pub open spec fn first_ready(
    cache: Waiting,
    limits: CacheLimit,
    now: u64,
    timeout: u64,
    levels: Seq<Level>,
    from: int,
) -> Option<Level>
    decreases levels.len() - from,
{
    if from < 0 || from >= levels.len() {
        None
    } else if is_eligible(limits.limit_of(levels[from]), cache[levels[from]], now, timeout) {
        Some(levels[from])
    } else {
        first_ready(cache, limits, now, timeout, levels, from + 1)
    }
}

/// The severities of `levels` from `from` on that hold records, each with
/// its batch.
pub open spec fn held(cache: Waiting, levels: Seq<Level>, from: int) -> Seq<
    (Level, Seq<(u128, LogData)>),
>
    decreases levels.len() - from,
{
    if from < 0 || from >= levels.len() {
        Seq::empty()
    } else if cache[levels[from]].len() > 0 {
        seq![(levels[from], cache[levels[from]])] + held(cache, levels, from + 1)
    } else {
        held(cache, levels, from + 1)
    }
}

/// The batches as plain values.
pub open spec fn batch_views(batches: Seq<(Level, LogBatch)>) -> Seq<
    (Level, Seq<(u128, LogData)>),
> {
    Seq::new(batches.len(), |i: int| (batches[i].0, batches[i].1@))
}

/// The most significant severity whose batch is ready, or `None` where no
/// batch is.
pub open spec fn picked(cache: Waiting, limits: CacheLimit, now: u64, timeout: u64) -> Option<
    Level,
> {
    first_ready(cache, limits, now, timeout, levels_by_weight(), 0)
}

impl View for SubscriberCache {
    type V = Waiting;

    closed spec fn view(&self) -> Waiting {
        Map::new(
            |l: Level| true,
            |l: Level|
                match l {
                    Level::Trace => self.trace@,
                    Level::Debug => self.debug@,
                    Level::Info => self.info@,
                    Level::Warn => self.warn@,
                    Level::Error => self.error@,
                },
        )
    }
}

impl SubscriberCache {
    /// The records that wait under a severity.
    pub open spec fn batch(&self, level: Level) -> Seq<(u128, LogData)> {
        self@[level]
    }

    /// Every batch is well formed.
    pub closed spec fn wf(&self) -> bool {
        &&& self.error.wf()
        &&& self.warn.wf()
        &&& self.info.wf()
        &&& self.debug.wf()
        &&& self.trace.wf()
    }

    /// In a well-formed cache the identifiers of every batch rise.
    pub proof fn lemma_rises(&self, level: Level)
        requires
            self.wf(),
        ensures
            ids_rise(self@[level]),
    {
    }

    /// No record waits.
    pub open spec fn is_empty(&self) -> bool {
        forall|l: Level| (#[trigger] self.batch(l)).len() == 0
    }

    /// The empty cache.
    pub fn new() -> (r: SubscriberCache)
        ensures
            r.wf(),
            r.is_empty(),
    {
        SubscriberCache {
            error: LogBatch::new(),
            warn: LogBatch::new(),
            info: LogBatch::new(),
            debug: LogBatch::new(),
            trace: LogBatch::new(),
        }
    }

    /// The batch of a severity.
    pub fn get(&self, level: Level) -> (r: &LogBatch)
        ensures
            r@ == self.batch(level),
            self.wf() ==> r.wf(),
    {
        match level {
            Level::Trace => &self.trace,
            Level::Debug => &self.debug,
            Level::Info => &self.info,
            Level::Warn => &self.warn,
            Level::Error => &self.error,
        }
    }

    /// Puts a record under its identifier into the batch of its severity.
    pub fn insert(&mut self, level: Level, id: u128, data: LogData)
        requires
            old(self).wf(),
        ensures
            final(self).wf(),
            final(self)@ == old(self)@.insert(
                level,
                batch_insert(old(self).batch(level), id, data),
            ),
    {
        let ghost want = self@.insert(level, batch_insert(self.batch(level), id, data));
        match level {
            Level::Trace => self.trace.insert(id, data),
            Level::Debug => self.debug.insert(id, data),
            Level::Info => self.info.insert(id, data),
            Level::Warn => self.warn.insert(id, data),
            Level::Error => self.error.insert(id, data),
        }
        assert(self@ =~= want);
    }

    /// Detaches the batch of a severity: it is handed out, and an empty one
    /// takes its place.
    pub fn take(&mut self, level: Level) -> (r: LogBatch)
        requires
            old(self).wf(),
        ensures
            final(self).wf(),
            r.wf(),
            r@ == old(self).batch(level),
            final(self)@ == old(self)@.insert(level, Seq::empty()),
    {
        let ghost want = self@.insert(level, Seq::empty());
        let mut out = LogBatch::new();
        match level {
            Level::Trace => std::mem::swap(&mut self.trace, &mut out),
            Level::Debug => std::mem::swap(&mut self.debug, &mut out),
            Level::Info => std::mem::swap(&mut self.info, &mut out),
            Level::Warn => std::mem::swap(&mut self.warn, &mut out),
            Level::Error => std::mem::swap(&mut self.error, &mut out),
        }
        assert(self@[level] =~= Seq::empty());
        assert(self@ =~= want);
        out
    }

    /// The most significant severity whose batch is ready to be shipped at
    /// the time `now`, or `None` where no batch is ready.
    pub fn next_ready(&self, limits: &CacheLimit, now: u64, timeout: u64) -> (r: Option<Level>)
        ensures
            r == picked(self@, *limits, now, timeout),
    {
        let levels = Level::by_weight();
        let mut i: usize = 0;
        while i < levels.len()
            invariant
                i <= levels@.len(),
                levels@ == levels_by_weight(),
                first_ready(self@, *limits, now, timeout, levels_by_weight(), 0) == first_ready(
                    self@,
                    *limits,
                    now,
                    timeout,
                    levels_by_weight(),
                    i as int,
                ),
            decreases levels@.len() - i,
        {
            let level = levels[i];
            if limits.should_send(level, self.get(level), now, timeout) {
                return Some(level);
            }
            i = i + 1;
        }
        None
    }

    /// Detaches every batch that holds records, the most significant
    /// severity first. The cache is empty afterwards.
    pub fn drain(&mut self) -> (r: Vec<(Level, LogBatch)>)
        requires
            old(self).wf(),
        ensures
            final(self).wf(),
            final(self).is_empty(),
            batch_views(r@) == held(old(self)@, levels_by_weight(), 0),
            forall|i: int| 0 <= i < r@.len() ==> (#[trigger] r@[i]).1.wf(),
    {
        let levels = Level::by_weight();
        let mut out: Vec<(Level, LogBatch)> = Vec::new();
        let mut i: usize = 0;
        let ghost start = self@;
        proof {
            assert(batch_views(out@) =~= Seq::empty());
        }
        while i < levels.len()
            invariant
                i <= levels@.len(),
                levels@ == levels_by_weight(),
                self.wf(),
                start == old(self)@,
                forall|k: int| 0 <= k < i ==> self.batch(#[trigger] levels@[k]).len() == 0,
                forall|k: int|
                    i <= k < levels@.len() ==> self.batch(#[trigger] levels@[k])
                        == start[levels@[k]],
                forall|k: int| 0 <= k < out@.len() ==> (#[trigger] out@[k]).1.wf(),
                held(start, levels_by_weight(), 0) == batch_views(out@) + held(
                    start,
                    levels_by_weight(),
                    i as int,
                ),
            decreases levels@.len() - i,
        {
            let level = levels[i];
            let ghost before = batch_views(out@);
            if !self.get(level).is_empty() {
                let batch = self.take(level);
                out.push((level, batch));
                proof {
                    assert(batch_views(out@) =~= before + seq![(level, start[level])]);
                    assert(before + (seq![(level, start[level])] + held(
                        start,
                        levels_by_weight(),
                        i + 1,
                    )) =~= batch_views(out@) + held(start, levels_by_weight(), i + 1));
                }
            }
            proof {
                assert forall|k: int| i + 1 <= k < levels@.len() implies self.batch(
                    #[trigger] levels@[k],
) == start[levels@[k]] by {
                    assert(levels@[k] != level);
                }
                assert forall|k: int| 0 <= k < i + 1 implies self.batch(#[trigger] levels@[k]).len()
                    == 0 by {
                    if k < i {
                        assert(levels@[k] != level);
                    }
                }
            }
            i = i + 1;
        }
        proof {
            assert(batch_views(out@) + Seq::empty() =~= batch_views(out@));
            assert forall|l: Level| self.batch(l).len() == 0 by {
                assert(levels@[l.weight()] == l);
            }
        }
        out
    }
}

} // verus!
