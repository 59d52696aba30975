//! The event pulse: which firehoses a request asks for, and what happens
//! to each arriving event and each timer tick: ingest, batch, flush.
use vstd::prelude::*;
use crate::event_pulse::{
    Aggregator, AggregatorView, IngestedItem, ingest_spec, trending_ok, window_tokens,
};
use crate::sources::RawEvent;
use crate::strings::{push_str, chars_of};

verus! {

/// The trending window: thirty seconds.
pub const TRENDING_WINDOW_MS: i64 = 30_000;

/// A batch is flushed early once it holds this many events.
pub const EAGER_FLUSH_EVENTS: usize = 8;

pub open spec fn known_source(s: Seq<char>) -> bool {
    s == "bluesky"@ || s == "wikipedia"@ || s == "stackoverflow"@
}

/// The error a request naming source `s` is refused with.
pub open spec fn unknown_source_text(s: Seq<char>) -> Seq<char> {
    "unknown source \""@ + s + "\" \u{2014} expected \"bluesky\", \"wikipedia\", or \"stackoverflow\""@
}

pub open spec fn names(v: Seq<String>) -> Seq<Seq<char>> {
    v.map_values(|s: String| s@)
}

fn is_known_source(s: &String) -> (r: bool)
    ensures
        r == known_source(s@),
{
    proof {
        reveal_strlit("bluesky");
        reveal_strlit("wikipedia");
        reveal_strlit("stackoverflow");
    }
    let a = String::from_str("bluesky");
    let b = String::from_str("wikipedia");
    let c = String::from_str("stackoverflow");
    *s == a || *s == b || *s == c
}

/// The sources a request asks for: bluesky and wikipedia when it names
/// none; otherwise the ones it names, as long as each is one of bluesky,
/// wikipedia and stackoverflow.  The first unknown name refuses the
/// request.
pub fn wanted_sources(sources: &Vec<String>) -> (r: Result<Vec<String>, String>)
    ensures
        sources@.len() == 0 ==> (r matches Ok(v) && names(v@) == seq!["bluesky"@, "wikipedia"@]),
        sources@.len() > 0 && (forall|i: int| 0 <= i < sources@.len() ==> known_source(#[trigger] sources@[i]@))
            ==> (r matches Ok(v) && names(v@) == names(sources@)),
        (exists|i: int| 0 <= i < sources@.len() && !known_source(#[trigger] sources@[i]@)) ==> (r matches Err(e)
            && exists|i: int|
            0 <= i < sources@.len() && !known_source(#[trigger] sources@[i]@) && (forall|j: int|
                0 <= j < i ==> known_source(sources@[j]@)) && e@ == unknown_source_text(sources@[i]@)),
{
    if sources.len() == 0 {
        let mut v: Vec<String> = Vec::new();
        v.push(String::from_str("bluesky"));
        v.push(String::from_str("wikipedia"));
        proof {
            assert(names(v@) =~= seq!["bluesky"@, "wikipedia"@]);
        }
        return Ok(v);
    }
    let mut out: Vec<String> = Vec::new();
    let mut i: usize = 0;
    while i < sources.len()
        invariant
            i <= sources@.len(),
            forall|j: int| 0 <= j < i ==> known_source(#[trigger] sources@[j]@),
            names(out@) == names(sources@.take(i as int)),
        decreases sources@.len() - i,
    {
        if !is_known_source(&sources[i]) {
            let mut e = String::new();
            push_str(&mut e, "unknown source \"");
            push_str(&mut e, sources[i].as_str());
            push_str(&mut e, "\" \u{2014} expected \"bluesky\", \"wikipedia\", or \"stackoverflow\"");
            proof {
                assert(e@ =~= unknown_source_text(sources@[i as int]@));
            }
            return Err(e);
        }
        let ghost prev = out@;
        let c = sources[i].clone();
        assert(c@ == sources@[i as int]@);
        out.push(c);
        proof {
            assert(names(out@) =~= names(prev).push(sources@[i as int]@));
            assert(names(sources@.take(i + 1)) =~= names(sources@.take(i as int)).push(sources@[i as int]@));
        }
        i = i + 1;
    }
    proof {
        assert(sources@.take(sources@.len() as int) =~= sources@);
    }
    Ok(out)
}

/// Whether `name` is among the wanted sources.
pub fn source_wanted(wanted: &Vec<String>, name: &str) -> (r: bool)
    ensures
        r == names(wanted@).contains(name@),
{
    let target = String::from_str(name);
    let mut i: usize = 0;
    while i < wanted.len()
        invariant
            i <= wanted@.len(),
            target@ == name@,
            forall|j: int| 0 <= j < i ==> wanted@[j]@ != name@,
        decreases wanted@.len() - i,
    {
        if wanted[i] == target {
            proof {
                assert(names(wanted@)[i as int] == name@);
            }
            return true;
        }
        i = i + 1;
    }
    proof {
        if names(wanted@).contains(name@) {
            let j = choose|j: int| 0 <= j < names(wanted@).len() && names(wanted@)[j] == name@;
            assert(wanted@[j]@ == name@);
        }
    }
    false
}

/// The settings of one pulse run.
#[derive(Clone, Copy, Debug)]
pub struct PulseConfig {
    /// Milliseconds between timer flushes.
    pub batch_ms: u64,
    /// Trending words per batch.
    pub top_n: usize,
    /// Events after which the run ends.
    pub max_events: u64,
}

/// The pulse settings a request asks for; each one that is not positive
/// takes its default (250 ms, 5 words, no event limit).
pub fn pulse_config(batch_ms: i32, trending_top_n: i32, max_events: i64) -> (c: PulseConfig)
    ensures
        c.batch_ms == (if batch_ms > 0 { batch_ms as u64 } else { 250 }),
        c.top_n == (if trending_top_n > 0 { trending_top_n as usize } else { 5 }),
        c.max_events == (if max_events > 0 { max_events as u64 } else { u64::MAX }),
{
    PulseConfig {
        batch_ms: if batch_ms > 0 { batch_ms as u64 } else { 250 },
        top_n: if trending_top_n > 0 { trending_top_n as usize } else { 5 },
        max_events: if max_events > 0 { max_events as u64 } else { u64::MAX },
    }
}

/// A batch sent to the client.
pub struct PulseBatch {
    pub batch_seq: u64,
    pub events: Vec<RawEvent>,
    pub trending: Vec<(String, u64)>,
    pub total_ingested: u64,
    pub is_final: bool,
}

/// What an arriving event leads to.
pub enum PulseStep {
    /// Nothing to send yet.
    Continue,
    /// A batch to send now, the batch having reached `EAGER_FLUSH_EVENTS`.
    Flush(PulseBatch),
    /// The event limit is reached: the run ends.
    Stop,
    /// Taking the event would overflow a counter; nothing changed.
    Refused,
}

pub struct PulseRunView {
    pub agg: AggregatorView,
    pub top_n: usize,
    pub max_events: u64,
    /// Events since the last batch.
    pub events: Seq<RawEvent>,
    /// The number of the last batch sent.
    pub batch_seq: u64,
}

/// Whether an event can be taken without a counter overflowing.
pub open spec fn can_take(a: PulseRunView, raw: RawEvent) -> bool {
    &&& a.agg.total_ingested < u64::MAX
    &&& window_tokens(a.agg.history) + raw.summary@.len() + 1 <= u64::MAX
    &&& i64::MIN <= raw.ts_ms - a.agg.window_ms <= i64::MAX
    &&& a.batch_seq < u64::MAX
}

/// One run of the pulse.
pub struct PulseRun {
    aggregator: Aggregator,
    top_n: usize,
    max_events: u64,
    events: Vec<RawEvent>,
    batch_seq: u64,
}

impl View for PulseRun {
    type V = PulseRunView;

    closed spec fn view(&self) -> PulseRunView {
        PulseRunView {
            agg: self.aggregator@,
            top_n: self.top_n,
            max_events: self.max_events,
            events: self.events@,
            batch_seq: self.batch_seq,
        }
    }
}

impl PulseRun {
    pub closed spec fn wf(&self) -> bool {
        self.aggregator.wf()
    }

    pub fn new(config: PulseConfig) -> (r: Self)
        ensures
            r.wf(),
            r@ == (PulseRunView {
                agg: AggregatorView { window_ms: TRENDING_WINDOW_MS, total_ingested: 0, history: seq![] },
                top_n: config.top_n,
                max_events: config.max_events,
                events: seq![],
                batch_seq: 0,
            }),
    {
        PulseRun {
            aggregator: Aggregator::new(TRENDING_WINDOW_MS),
            top_n: config.top_n,
            max_events: config.max_events,
            events: Vec::new(),
            batch_seq: 0,
        }
    }

    /// The number of the last batch sent.
    pub fn batch_seq(&self) -> (r: u64)
        ensures
            r == self@.batch_seq,
    {
        self.batch_seq
    }

    pub fn total_ingested(&self) -> (r: u64)
        ensures
            r == self@.agg.total_ingested,
    {
        self.aggregator.total_ingested()
    }

    /// An event arrives: its summary is ingested and the event joins the
    /// open batch.  Reaching the event limit ends the run; otherwise a
    /// batch of `EAGER_FLUSH_EVENTS` is flushed with the trending words.
    pub fn on_event(&mut self, raw: RawEvent) -> (r: PulseStep)
        requires
            old(self).wf(),
        ensures
            final(self).wf(),
            !can_take(old(self)@, raw) ==> (r is Refused && final(self)@ == old(self)@),
            can_take(old(self)@, raw) ==> {
                let a = old(self)@;
                let agg = ingest_spec(a.agg, raw.summary@, raw.ts_ms);
                let evs = a.events.push(raw);
                &&& final(self)@.agg == agg
                &&& final(self)@.top_n == a.top_n
                &&& final(self)@.max_events == a.max_events
                &&& agg.total_ingested >= a.max_events ==> {
                    &&& r is Stop
                    &&& final(self)@.events == evs
                    &&& final(self)@.batch_seq == a.batch_seq
                }
                &&& agg.total_ingested < a.max_events && evs.len() >= 8 ==> {
                    &&& r matches PulseStep::Flush(b) && {
                        &&& b.batch_seq == a.batch_seq + 1
                        &&& b.events@ == evs
                        &&& trending_ok(agg.history, a.top_n as int, b.trending@)
                        &&& b.total_ingested == agg.total_ingested
                        &&& !b.is_final
                    }
                    &&& final(self)@.events == Seq::<RawEvent>::empty()
                    &&& final(self)@.batch_seq == a.batch_seq + 1
                }
                &&& agg.total_ingested < a.max_events && evs.len() < 8 ==> {
                    &&& r is Continue
                    &&& final(self)@.events == evs
                    &&& final(self)@.batch_seq == a.batch_seq
                }
            },
    {
        let n = chars_of(raw.summary.as_str()).len() as u64;
        let wt = self.aggregator.window_token_count();
        let total = self.aggregator.total_ingested();
        let window = self.aggregator.window_ms();
        let fits_ts = if window >= 0 {
            raw.ts_ms >= i64::MIN + window
        } else {
            raw.ts_ms <= i64::MAX + window
        };
        if total == u64::MAX || n >= u64::MAX - wt || !fits_ts || self.batch_seq == u64::MAX {
            return PulseStep::Refused;
        }
        let item = IngestedItem { text: raw.summary.clone(), ts_ms: raw.ts_ms };
        self.aggregator.ingest(&item);
        self.events.push(raw);
        if self.aggregator.total_ingested() >= self.max_events {
            return PulseStep::Stop;
        }
        if self.events.len() >= EAGER_FLUSH_EVENTS {
            self.batch_seq = self.batch_seq + 1;
            let trending = self.aggregator.trending(self.top_n);
            let mut events: Vec<RawEvent> = Vec::new();
            core::mem::swap(&mut events, &mut self.events);
            let b = PulseBatch {
                batch_seq: self.batch_seq,
                events,
                trending,
                total_ingested: self.aggregator.total_ingested(),
                is_final: false,
            };
            return PulseStep::Flush(b);
        }
        PulseStep::Continue
    }

    /// The timer fires: the open batch goes out with the trending words.
    pub fn on_tick(&mut self) -> (b: PulseBatch)
        requires
            old(self).wf(),
            old(self)@.batch_seq < u64::MAX,
        ensures
            final(self).wf(),
            b.batch_seq == old(self)@.batch_seq + 1,
            b.events@ == old(self)@.events,
            trending_ok(old(self)@.agg.history, old(self)@.top_n as int, b.trending@),
            b.total_ingested == old(self)@.agg.total_ingested,
            !b.is_final,
            final(self)@ == (PulseRunView {
                events: Seq::<RawEvent>::empty(),
                batch_seq: (old(self)@.batch_seq + 1) as u64,
                ..old(self)@
            }),
    {
        self.batch_seq = self.batch_seq + 1;
        let trending = self.aggregator.trending(self.top_n);
        let mut events: Vec<RawEvent> = Vec::new();
        core::mem::swap(&mut events, &mut self.events);
        PulseBatch {
            batch_seq: self.batch_seq,
            events,
            trending,
            total_ingested: self.aggregator.total_ingested(),
            is_final: false,
        }
    }

    /// The run ends: what is left of the open batch goes out as the final
    /// batch, with no trending words.
    pub fn finish(&mut self) -> (b: PulseBatch)
        requires
            old(self).wf(),
            old(self)@.batch_seq < u64::MAX,
        ensures
            final(self).wf(),
            b.batch_seq == old(self)@.batch_seq + 1,
            b.events@ == old(self)@.events,
            b.trending@ == Seq::<(String, u64)>::empty(),
            b.total_ingested == old(self)@.agg.total_ingested,
            b.is_final,
            final(self)@ == (PulseRunView { events: Seq::<RawEvent>::empty(), ..old(self)@ }),
    {
        let mut events: Vec<RawEvent> = Vec::new();
        core::mem::swap(&mut events, &mut self.events);
        PulseBatch {
            batch_seq: self.batch_seq + 1,
            events,
            trending: Vec::new(),
            total_ingested: self.aggregator.total_ingested(),
            is_final: true,
        }
    }
}

} // verus!
