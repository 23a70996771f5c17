//! The statistics engine: what is kept of a stream of digits under fixed
//! memory.
//!
//! The engine counts the digits by value, keeps the first digits and a window
//! of the most recent ones, and records a sample of the counters at intervals
//! that widen as the stream grows. The record is halved whenever it outgrows
//! its limit.

use crate::sample::{Ratio, Sample, Snapshot, BINS};
use vstd::prelude::*;

verus! {

/// The most digits that the window of recent digits holds.
pub const RECENT_LIMIT: usize = 500;

/// How many of its oldest digits the window drops when it outgrows its limit.
pub const RECENT_EVICT: usize = 200;

/// How many digits from the start of the stream are kept for good.
pub const FIRST_LIMIT: usize = 200;

/// The most samples that the history holds.
pub const HISTORY_LIMIT: usize = 300;

/// After how many digits a sample is due, for a stream of `total` digits.
pub open spec fn sample_interval(total: nat) -> nat {
    if total <= 999 {
        50
    } else if total <= 9_999 {
        200
    } else if total <= 99_999 {
        1_000
    } else {
        5_000
    }
}

/// Every second element of `s`, from the first on.
pub open spec fn decimated<T>(s: Seq<T>) -> Seq<T> {
    Seq::new((s.len() + 1) / 2, |i: int| s[2 * i])
}

/// The window after one more digit: over the limit it loses its oldest
/// `RECENT_EVICT` digits at once.
pub open spec fn slide(window: Seq<u8>) -> Seq<u8> {
    if window.len() > RECENT_LIMIT {
        window.skip(RECENT_EVICT as int)
    } else {
        window
    }
}

/// The history after one more sample: over the limit it is decimated.
pub open spec fn thin(history: Seq<Snapshot>) -> Seq<Snapshot> {
    if history.len() > HISTORY_LIMIT {
        decimated(history)
    } else {
        history
    }
}

/// What the engine holds, as mathematical values.
pub struct StatsModel {
    /// The counters now.
    pub current: Snapshot,
    /// The first digits of the stream.
    pub first_digits: Seq<u8>,
    /// The most recent digits, oldest first.
    pub recent_digits: Seq<u8>,
    /// The samples taken, oldest first.
    pub history: Seq<Snapshot>,
}

impl StatsModel {
    /// The engine before any digit.
    pub open spec fn initial() -> StatsModel {
        StatsModel {
            current: Snapshot::zero(),
            first_digits: Seq::empty(),
            recent_digits: Seq::empty(),
            history: Seq::empty(),
        }
    }

    /// The counters add up, the three sequences keep to their limits, and the
    /// samples are readings of earlier instants in the order they were taken.
    pub open spec fn wf(self) -> bool {
        &&& self.current.wf()
        &&& self.first_digits.len() <= FIRST_LIMIT
        &&& self.first_digits.len() <= self.current.total
        &&& self.first_digits.len() < FIRST_LIMIT ==> self.first_digits.len() == self.current.total
        &&& self.recent_digits.len() <= RECENT_LIMIT
        &&& self.recent_digits.len() <= self.current.total
        &&& self.history.len() <= HISTORY_LIMIT
        &&& forall|i: int|
            0 <= i < self.history.len() ==> (#[trigger] self.history[i]).wf() && self.history[i].total
                <= self.current.total
        &&& forall|i: int, j: int|
            0 <= i < j < self.history.len() ==> (#[trigger] self.history[i]).total < (
            #[trigger] self.history[j]).total
    }

    /// The engine after one more digit `d`.
    pub open spec fn add_digit(self, d: u8) -> StatsModel {
        let current = self.current.bump(d);
        StatsModel {
            current,
            first_digits: if self.first_digits.len() < FIRST_LIMIT {
                self.first_digits.push(d)
            } else {
                self.first_digits
            },
            recent_digits: slide(self.recent_digits.push(d)),
            history: if current.total % sample_interval(current.total) == 0 {
                thin(self.history.push(current))
            } else {
                self.history
            },
        }
    }

    /// The engine after the digits of `digits` more, fed in order.
    pub open spec fn feed(self, digits: Seq<u8>) -> StatsModel
        decreases digits.len(),
    {
        if digits.len() == 0 {
            self
        } else {
            self.feed(digits.drop_last()).add_digit(digits.last())
        }
    }

    /// The engine after the digits of `stream`, fed in order from the start.
    pub open spec fn fed(stream: Seq<u8>) -> StatsModel {
        StatsModel::initial().feed(stream)
    }
}

/// How often the value `v` occurs in `stream`.
pub open spec fn occurrences(stream: Seq<u8>, v: u8) -> nat
    decreases stream.len(),
{
    if stream.len() == 0 {
        0
    } else {
        occurrences(stream.drop_last(), v) + if stream.last() == v {
            1nat
        } else {
            0nat
        }
    }
}

/// The length of the window of recent digits after `n` digits: all of them up
/// to the limit, and from then on between 301 and 500, falling back to 301
/// each time the limit is passed.
pub open spec fn window_len(n: nat) -> nat {
    if n <= RECENT_LIMIT {
        n
    } else {
        (RECENT_LIMIT - RECENT_EVICT + 1 + (n - RECENT_LIMIT - 1) % (RECENT_EVICT as int)) as nat
    }
}

/// Halving keeps every second sample in order: a history of `n` samples is
/// left with `ceil(n / 2)`, the samples at the even positions.
pub proof fn lemma_decimated<T>(s: Seq<T>)
    ensures
        decimated(s).len() == (s.len() + 1) / 2,
        2 * decimated(s).len() >= s.len(),
        forall|i: int| 0 <= i < decimated(s).len() ==> #[trigger] decimated(s)[i] == s[2 * i],
{
}

/// One more digit keeps the engine well formed.
pub proof fn lemma_add_digit_wf(m: StatsModel, d: u8)
    requires
        m.wf(),
        d < BINS,
    ensures
        m.add_digit(d).wf(),
        m.add_digit(d).current.total == m.current.total + 1,
{
    let current = m.current.bump(d);
    assert(current.wf());
    if current.total % sample_interval(current.total) == 0 {
        let pushed = m.history.push(current);
        assert forall|i: int| 0 <= i < pushed.len() implies (#[trigger] pushed[i]).wf()
            && pushed[i].total <= current.total by {
            if i < m.history.len() {
                assert(pushed[i] == m.history[i]);
            }
        }
        assert forall|i: int, j: int| 0 <= i < j < pushed.len() implies (#[trigger] pushed[i]).total
            < (#[trigger] pushed[j]).total by {
            assert(pushed[i] == m.history[i]);
            if j < m.history.len() {
                assert(pushed[j] == m.history[j]);
            }
        }
        let thinned = thin(pushed);
        assert forall|i: int| 0 <= i < thinned.len() implies (#[trigger] thinned[i]).wf()
            && thinned[i].total <= current.total by {
            if pushed.len() > HISTORY_LIMIT {
                assert(thinned[i] == pushed[2 * i]);
            }
        }
        assert forall|i: int, j: int| 0 <= i < j < thinned.len() implies (#[trigger] thinned[i]).total
            < (#[trigger] thinned[j]).total by {
            if pushed.len() > HISTORY_LIMIT {
                assert(thinned[i] == pushed[2 * i]);
                assert(thinned[j] == pushed[2 * j]);
            }
        }
    }
}

/// More decimal digits keep the engine well formed, and raise its total by
/// their number.
pub proof fn lemma_feed_wf(m: StatsModel, digits: Seq<u8>)
    requires
        m.wf(),
        forall|i: int| 0 <= i < digits.len() ==> #[trigger] digits[i] < BINS,
    ensures
        m.feed(digits).wf(),
        m.feed(digits).current.total == m.current.total + digits.len(),
    decreases digits.len(),
{
    if digits.len() > 0 {
        lemma_feed_wf(m, digits.drop_last());
        lemma_add_digit_wf(m.feed(digits.drop_last()), digits.last());
    }
}

/// After any stream of decimal digits the engine is well formed, and its
/// total is the length of the stream.
pub proof fn lemma_fed_wf(stream: Seq<u8>)
    requires
        forall|i: int| 0 <= i < stream.len() ==> #[trigger] stream[i] < BINS,
    ensures
        StatsModel::fed(stream).wf(),
        StatsModel::fed(stream).current.total == stream.len(),
{
    lemma_feed_wf(StatsModel::initial(), stream);
}

/// Each counter is the number of times its digit occurred in the stream.
pub proof fn lemma_fed_counts(stream: Seq<u8>, v: u8)
    requires
        forall|i: int| 0 <= i < stream.len() ==> #[trigger] stream[i] < BINS,
        v < BINS,
    ensures
        StatsModel::fed(stream).current.counts[v as int] == occurrences(stream, v),
    decreases stream.len(),
{
    if stream.len() > 0 {
        lemma_fed_wf(stream.drop_last());
        lemma_fed_counts(stream.drop_last(), v);
    }
}

/// The kept first digits are the first digits of the stream, up to the limit.
pub proof fn lemma_fed_first_digits(stream: Seq<u8>)
    requires
        forall|i: int| 0 <= i < stream.len() ==> #[trigger] stream[i] < BINS,
    ensures
        StatsModel::fed(stream).first_digits == if stream.len() <= FIRST_LIMIT {
            stream
        } else {
            stream.take(FIRST_LIMIT as int)
        },
    decreases stream.len(),
{
    if stream.len() > 0 {
        let before = stream.drop_last();
        lemma_fed_wf(before);
        lemma_fed_first_digits(before);
        let kept = StatsModel::fed(stream).first_digits;
        if stream.len() <= FIRST_LIMIT {
            assert(kept =~= stream);
        } else {
            assert(kept =~= stream.take(FIRST_LIMIT as int));
        }
    } else {
        assert(StatsModel::fed(stream).first_digits =~= stream);
    }
}

/// The window holds the most recently added digits, in the order they came:
/// it is the end of the stream, of length `window_len`.
pub proof fn lemma_fed_window(stream: Seq<u8>)
    requires
        forall|i: int| 0 <= i < stream.len() ==> #[trigger] stream[i] < BINS,
    ensures
        StatsModel::fed(stream).recent_digits.len() == window_len(stream.len()),
        StatsModel::fed(stream).recent_digits == stream.skip(
            stream.len() - window_len(stream.len()),
        ),
    decreases stream.len(),
{
    if stream.len() > 0 {
        let before = stream.drop_last();
        lemma_fed_window(before);
        let window = StatsModel::fed(before).recent_digits;
        let grown = window.push(stream.last());
        assert(grown =~= stream.skip(stream.len() - grown.len()));
        assert(StatsModel::fed(stream).recent_digits == slide(grown));
        assert(slide(grown) =~= stream.skip(stream.len() - slide(grown).len()));
    } else {
        assert(StatsModel::fed(stream).recent_digits =~= stream.skip(0));
    }
}

/// The samples of `samples` at the even positions.
pub fn decimate(samples: &Vec<Sample>) -> (kept: Vec<Sample>)
    ensures
        kept@ == decimated(samples@),
        kept.len() == (samples.len() + 1) / 2,
{
    let count = samples.len() / 2 + samples.len() % 2;
    let mut kept: Vec<Sample> = Vec::new();
    let mut i: usize = 0;
    while i < count
        invariant
            i <= count,
            count == (samples.len() + 1) / 2,
            kept.len() == i,
            forall|j: int| 0 <= j < i ==> #[trigger] kept[j] == samples[2 * j],
        decreases count - i,
    {
        kept.push(samples[2 * i]);
        i += 1;
    }
    assert(kept@ =~= decimated(samples@));
    kept
}

/// The statistics engine.
pub struct Stats {
    counts: [u64; 10],
    total: u64,
    first_digits: Vec<u8>,
    recent_digits: Vec<u8>,
    history: Vec<Sample>,
}

impl View for Stats {
    type V = StatsModel;

    closed spec fn view(&self) -> StatsModel {
        StatsModel {
            current: Snapshot {
                total: self.total as nat,
                counts: Seq::new(BINS as nat, |i: int| self.counts[i] as nat),
            },
            first_digits: self.first_digits@,
            recent_digits: self.recent_digits@,
            history: Seq::new(self.history.len() as nat, |i: int| self.history[i]@),
        }
    }
}

impl Stats {
    /// The engine is well formed, and its total fits the counter.
    pub open spec fn wf(&self) -> bool {
        self@.wf() && self@.current.total <= u64::MAX
    }

    /// An engine that has seen no digit.
    pub fn new() -> (stats: Stats)
        ensures
            stats.wf(),
            stats@ == StatsModel::initial(),
    {
        let stats = Stats {
            counts: [0; 10],
            total: 0,
            first_digits: Vec::with_capacity(200),
            recent_digits: Vec::with_capacity(600),
            history: Vec::new(),
        };
        assert(stats@.current.counts =~= Snapshot::zero().counts);
        assert(stats@.history =~= Seq::empty());
        stats
    }

    /// Takes in one digit: counts it, keeps it among the first digits while
    /// there is room, moves the window of recent digits on, and records a
    /// sample where one is due.
    pub fn add_digit(&mut self, d: u8)
        requires
            old(self).wf(),
            d < BINS,
            old(self)@.current.total < u64::MAX,
        ensures
            final(self).wf(),
            final(self)@ == old(self)@.add_digit(d),
    {
        proof {
            lemma_add_digit_wf(self@, d);
        }
        let ghost before = self@;
        let bin = d as usize;
        self.counts[bin] = self.counts[bin] + 1;
        self.total = self.total + 1;
        if self.first_digits.len() < FIRST_LIMIT {
            self.first_digits.push(d);
        }
        self.recent_digits.push(d);
        if self.recent_digits.len() > RECENT_LIMIT {
            let kept = self.recent_digits.split_off(RECENT_EVICT);
            self.recent_digits = kept;
        }
        let interval: u64 = if self.total <= 999 {
            50
        } else if self.total <= 9_999 {
            200
        } else if self.total <= 99_999 {
            1_000
        } else {
            5_000
        };
        if self.total % interval == 0 {
            self.history.push(Sample { total: self.total, counts: self.counts });
            if self.history.len() > HISTORY_LIMIT {
                self.history = decimate(&self.history);
            }
        }
        proof {
            let after = before.add_digit(d);
            assert(self@.current.counts =~= after.current.counts);
            assert(self@.first_digits =~= after.first_digits);
            assert(self@.recent_digits =~= after.recent_digits);
            assert(self@.history =~= after.history);
        }
    }

    /// Takes in the digits of `batch`, in order.
    pub fn add_digits(&mut self, batch: &Vec<u8>)
        requires
            old(self).wf(),
            forall|i: int| 0 <= i < batch.len() ==> #[trigger] batch[i] < BINS,
            old(self)@.current.total + batch.len() <= u64::MAX,
        ensures
            final(self).wf(),
            final(self)@ == old(self)@.feed(batch@),
    {
        let mut i: usize = 0;
        while i < batch.len()
            invariant
                i <= batch.len(),
                self.wf(),
                forall|j: int| 0 <= j < batch.len() ==> #[trigger] batch[j] < BINS,
                old(self)@.current.total + batch.len() <= u64::MAX,
                old(self).wf(),
                self@ == old(self)@.feed(batch@.take(i as int)),
            decreases batch.len() - i,
        {
            proof {
                lemma_feed_wf(old(self)@, batch@.take(i as int));
                assert(batch@.take(i + 1).drop_last() =~= batch@.take(i as int));
            }
            self.add_digit(batch[i]);
            i += 1;
        }
        assert(batch@.take(i as int) =~= batch@);
    }

    /// How many digits were taken in.
    pub fn total(&self) -> (total: u64)
        ensures
            total == self@.current.total,
    {
        self.total
    }

    /// How many digits of each value were taken in.
    pub fn counts(&self) -> (counts: [u64; 10])
        ensures
            forall|i: int| 0 <= i < BINS ==> #[trigger] counts[i] == self@.current.counts[i],
    {
        self.counts
    }

    /// The counters as a sample.
    pub fn snapshot(&self) -> (sample: Sample)
        ensures
            sample@ == self@.current,
    {
        let sample = Sample { total: self.total, counts: self.counts };
        assert(sample@.counts =~= self@.current.counts);
        sample
    }

    /// The first digits of the stream, at most `FIRST_LIMIT` of them.
    pub fn first_digits(&self) -> (digits: &Vec<u8>)
        ensures
            digits@ == self@.first_digits,
    {
        &self.first_digits
    }

    /// The most recent digits, oldest first, at most `RECENT_LIMIT` of them.
    pub fn recent_digits(&self) -> (digits: &Vec<u8>)
        ensures
            digits@ == self@.recent_digits,
    {
        &self.recent_digits
    }

    /// The samples taken, oldest first, at most `HISTORY_LIMIT` of them.
    pub fn history(&self) -> (samples: &Vec<Sample>)
        ensures
            samples.len() == self@.history.len(),
            forall|i: int| 0 <= i < samples.len() ==> (#[trigger] samples[i])@ == self@.history[i],
    {
        &self.history
    }

    /// Chi-squared of the counters against the uniform distribution, as
    /// `Sample::chi_squared` gives it.
    pub fn chi_squared(&self) -> (r: Option<Ratio>)
        ensures
            self@.current.chi_squared_is(r),
    {
        self.snapshot().chi_squared()
    }

    /// Chi-squared at each sample of the history, oldest first.
    pub fn chi_squared_history(&self) -> (trend: Vec<Option<Ratio>>)
        ensures
            trend.len() == self@.history.len(),
            forall|i: int|
                0 <= i < trend.len() ==> (#[trigger] self@.history[i]).chi_squared_is(trend[i]),
    {
        let mut trend: Vec<Option<Ratio>> = Vec::new();
        let mut i: usize = 0;
        while i < self.history.len()
            invariant
                i <= self.history.len(),
                trend.len() == i,
                forall|j: int|
                    0 <= j < i ==> (#[trigger] self@.history[j]).chi_squared_is(trend[j]),
            decreases self.history.len() - i,
        {
            trend.push(self.history[i].chi_squared());
            i += 1;
        }
        trend
    }

    /// The largest deviation of a digit's share from ten percent, as
    /// `Sample::max_deviation` gives it.
    pub fn max_deviation(&self) -> (r: Ratio)
        ensures
            self@.current.max_deviation_is(r),
    {
        self.snapshot().max_deviation()
    }

    /// The largest deviation at each sample of the history, oldest first.
    pub fn max_deviation_history(&self) -> (trend: Vec<Ratio>)
        ensures
            trend.len() == self@.history.len(),
            forall|i: int|
                0 <= i < trend.len() ==> (#[trigger] self@.history[i]).max_deviation_is(trend[i]),
    {
        let mut trend: Vec<Ratio> = Vec::new();
        let mut i: usize = 0;
        while i < self.history.len()
            invariant
                i <= self.history.len(),
                trend.len() == i,
                forall|j: int|
                    0 <= j < i ==> (#[trigger] self@.history[j]).max_deviation_is(trend[j]),
            decreases self.history.len() - i,
        {
            trend.push(self.history[i].max_deviation());
            i += 1;
        }
        trend
    }
}

} // verus!
