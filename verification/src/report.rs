//! The tallies of a run: status codes, cache states and response times.

use counter::Counter;
use histogram::Histogram;
use vstd::arithmetic::power2::pow2;
use vstd::multiset::Multiset;
use vstd::prelude::*;

verus! {

/// The counter of the counter crate: how often each item was counted.
#[verifier::external_type_specification]
#[verifier::external_body]
#[verifier::reject_recursive_types(T)]
#[verifier::reject_recursive_types(N)]
#[verifier::reject_recursive_types(S)]
pub struct ExCounter<T, N, S>(Counter<T, N, S>);

/// The histogram of the histogram crate: how many values fell into each
/// of its buckets.
#[verifier::external_type_specification]
#[verifier::external_body]
pub struct ExHistogram(Histogram);

/// The status codes that a counter holds, each as often as it was counted.
pub uninterp spec fn status_counts(c: Counter<u16>) -> Multiset<u16>;

/// The cache states that a counter holds, each as often as it was counted.
pub uninterp spec fn cache_counts(c: Counter<Option<bool>>) -> Multiset<Option<bool>>;

/// The buckets that a histogram has counted a value in, each as often as it did.
pub uninterp spec fn histogram_buckets(h: Histogram) -> Multiset<nat>;

/// The grouping power and the power of the largest value that a histogram
/// was made with.
pub uninterp spec fn histogram_powers(h: Histogram) -> (u8, u8);

/// The bucket in which a histogram of the given powers counts a value.
pub uninterp spec fn bucket_index(grouping_power: u8, max_value_power: u8, value: u64) -> nat;

/// The largest value that a histogram of the given power takes.
pub open spec fn largest_value(max_value_power: u8) -> nat {
    if max_value_power >= 64 {
        u64::MAX as nat
    } else {
        (pow2(max_value_power as nat) - 1) as nat
    }
}

/// `Counter::new`: a counter that holds nothing.
#[verifier::external_body]
fn new_status_counter() -> (c: Counter<u16>)
    ensures
        status_counts(c) == Multiset::<u16>::empty(),
{
    Counter::new()
}

/// `IndexMut::index_mut` of a counter and `+= 1` on what it gives: the
/// status is counted once more.
#[verifier::external_body]
fn count_status(c: &mut Counter<u16>, status: u16)
    requires
        status_counts(*old(c)).len() < usize::MAX,
    ensures
        status_counts(*final(c)) == status_counts(*old(c)).insert(status),
{
    c[&status] += 1;
}

/// `Counter::new`: a counter that holds nothing.
#[verifier::external_body]
fn new_cache_counter() -> (c: Counter<Option<bool>>)
    ensures
        cache_counts(c) == Multiset::<Option<bool>>::empty(),
{
    Counter::new()
}

/// `IndexMut::index_mut` of a counter and `+= 1` on what it gives: the cache
/// state is counted once more.
#[verifier::external_body]
fn count_cache(c: &mut Counter<Option<bool>>, state: Option<bool>)
    requires
        cache_counts(*old(c)).len() < usize::MAX,
    ensures
        cache_counts(*final(c)) == cache_counts(*old(c)).insert(state),
{
    c[&state] += 1;
}

/// `Histogram::new`, which refuses only a grouping power that is not below
/// the power of the largest value, a power over 64, or a number of buckets
/// beyond `u32`: within these bounds it gives an empty histogram of the two powers.
#[verifier::external_body]
fn new_histogram(grouping_power: u8, max_value_power: u8) -> (h: Histogram)
    requires
        grouping_power < 16,
        grouping_power < max_value_power <= 64,
    ensures
        histogram_powers(h) == (grouping_power, max_value_power),
        histogram_buckets(h) == Multiset::<nat>::empty(),
{
    Histogram::new(grouping_power, max_value_power).expect("could not initialize histogram")
}

/// `Histogram::increment`: a value up to the largest one is counted in its
/// bucket, and the answer is `true`; a larger one is refused and nothing
/// changes.
#[verifier::external_body]
fn histogram_increment(h: &mut Histogram, value: u64) -> (r: bool)
    requires
        histogram_buckets(*old(h)).len() < u64::MAX,
    ensures
        histogram_powers(*final(h)) == histogram_powers(*old(h)),
        r == (value <= largest_value(histogram_powers(*old(h)).1)),
        r ==> histogram_buckets(*final(h)) == histogram_buckets(*old(h)).insert(
            bucket_index(histogram_powers(*old(h)).0, histogram_powers(*old(h)).1, value),
        ),
        !r ==> histogram_buckets(*final(h)) == histogram_buckets(*old(h)),
{
    h.increment(value).is_ok()
}

/// The grouping power of the histogram of response times.
pub const GROUPING_POWER: u8 = 10;

/// The power of two below which the response times in milliseconds must stay.
pub const MAX_VALUE_POWER: u8 = 30;

/// The longest response time, in milliseconds, that a report takes.
pub const MAX_ELAPSED_MS: u64 = 1073741823;

/// What one answered request told.
#[derive(Clone, Copy, Debug, PartialEq, Eq)]
pub struct Outcome {
    /// The status code of the response.
    pub status: u16,
    /// Whether a cache served the response, where the response says so.
    pub cache_hit: Option<bool>,
    /// The milliseconds from before the request was sent until the response came.
    pub elapsed_ms: u64,
}

/// What a report holds.
pub struct ReportView {
    /// The status codes of the answered requests.
    pub statuses: Multiset<u16>,
    /// The cache states of the answered requests.
    pub cache_hits: Multiset<Option<bool>>,
    /// The histogram buckets of the answered requests' response times.
    pub latencies: Multiset<nat>,
    /// The number of requests that were not answered.
    pub failures: nat,
}

impl ReportView {
    /// The report of a run in which nothing has come back yet.
    pub open spec fn empty() -> ReportView {
        ReportView {
            statuses: Multiset::empty(),
            cache_hits: Multiset::empty(),
            latencies: Multiset::empty(),
            failures: 0,
        }
    }

    /// The number of requests that the report has counted.
    pub open spec fn total(self) -> nat {
        self.statuses.len() + self.failures
    }

    /// The report with one more answered request.
    pub open spec fn record(self, outcome: Outcome) -> ReportView {
        ReportView {
            statuses: self.statuses.insert(outcome.status),
            cache_hits: self.cache_hits.insert(outcome.cache_hit),
            latencies: self.latencies.insert(
                bucket_index(GROUPING_POWER, MAX_VALUE_POWER, outcome.elapsed_ms),
            ),
            failures: self.failures,
        }
    }

    /// The report with one more request that was not answered.
    pub open spec fn record_failure(self) -> ReportView {
        ReportView { failures: self.failures + 1, ..self }
    }

    /// The report after the outcomes were recorded in turn.
    pub open spec fn record_all(self, outcomes: Seq<Outcome>) -> ReportView {
        outcomes.fold_left(self, |r: ReportView, o: Outcome| r.record(o))
    }
}

/// The tallies of a run.
#[derive(Debug)]
pub struct AggregateReport {
    statuses: Counter<u16>,
    cache_hits: Counter<Option<bool>>,
    latencies: Histogram,
    failures: usize,
}

impl View for AggregateReport {
    type V = ReportView;

    closed spec fn view(&self) -> ReportView {
        ReportView {
            statuses: status_counts(self.statuses),
            cache_hits: cache_counts(self.cache_hits),
            latencies: histogram_buckets(self.latencies),
            failures: self.failures as nat,
        }
    }
}

impl AggregateReport {
    /// The three tallies count the same requests, and the histogram is the
    /// one that a report is made with.
    pub closed spec fn wf(&self) -> bool {
        &&& histogram_powers(self.latencies) == (GROUPING_POWER, MAX_VALUE_POWER)
        &&& self@.cache_hits.len() == self@.statuses.len()
        &&& self@.latencies.len() == self@.statuses.len()
        &&& self@.total() <= usize::MAX
    }

    /// A report that has counted nothing.
    pub fn new() -> (r: Self)
        ensures
            r.wf(),
            r@ == ReportView::empty(),
    {
        let statuses = new_status_counter();
        let cache_hits = new_cache_counter();
        let latencies = new_histogram(GROUPING_POWER, MAX_VALUE_POWER);
        AggregateReport { statuses, cache_hits, latencies, failures: 0 }
    }

    /// Counts one answered request.
    pub fn record(&mut self, outcome: &Outcome)
        requires
            old(self).wf(),
            old(self)@.total() < usize::MAX,
            outcome.elapsed_ms <= MAX_ELAPSED_MS,
        ensures
            final(self).wf(),
            final(self)@ == old(self)@.record(*outcome),
    {
        proof {
            vstd::arithmetic::power2::lemma2_to64();
        }
        count_status(&mut self.statuses, outcome.status);
        count_cache(&mut self.cache_hits, outcome.cache_hit);
        let counted = histogram_increment(&mut self.latencies, outcome.elapsed_ms);
        assert(counted);
    }

    /// Counts one request that was not answered.
    pub fn record_failure(&mut self)
        requires
            old(self).wf(),
            old(self)@.total() < usize::MAX,
        ensures
            final(self).wf(),
            final(self)@ == old(self)@.record_failure(),
    {
        self.failures = self.failures + 1;
    }

    /// The number of requests that were not answered.
    pub fn failures(&self) -> (n: usize)
        ensures
            n == self@.failures,
    {
        self.failures
    }

    /// The status codes with their counts.
    pub fn statuses(&self) -> (c: &Counter<u16>)
        ensures
            status_counts(*c) == self@.statuses,
    {
        &self.statuses
    }

    /// The cache states with their counts.
    pub fn cache_hits(&self) -> (c: &Counter<Option<bool>>)
        ensures
            cache_counts(*c) == self@.cache_hits,
    {
        &self.cache_hits
    }

    /// The histogram of the response times in milliseconds.
    pub fn latencies(&self) -> (h: &Histogram)
        requires
            self.wf(),
        ensures
            histogram_buckets(*h) == self@.latencies,
            histogram_powers(*h) == (GROUPING_POWER, MAX_VALUE_POWER),
    {
        &self.latencies
    }

    /// The three tallies, for whoever presents them.
    pub fn into_parts(self) -> (parts: (Counter<u16>, Counter<Option<bool>>, Histogram))
        ensures
            status_counts(parts.0) == self@.statuses,
            cache_counts(parts.1) == self@.cache_hits,
            histogram_buckets(parts.2) == self@.latencies,
    {
        (self.statuses, self.cache_hits, self.latencies)
    }
}

/// Recording two outcomes in either order gives the same report.
pub proof fn lemma_record_commutes(r: ReportView, a: Outcome, b: Outcome)
    ensures
        r.record(a).record(b) == r.record(b).record(a),
{
    let x = r.record(a).record(b);
    let y = r.record(b).record(a);
    assert(x.statuses =~= y.statuses);
    assert(x.cache_hits =~= y.cache_hits);
    assert(x.latencies =~= y.latencies);
}

/// Recording the same outcomes in any two orders gives the same report:
/// the same counts of status codes and cache states and the same histogram.
pub proof fn lemma_record_all_any_order(r: ReportView, first: Seq<Outcome>, second: Seq<Outcome>)
    requires
        first.to_multiset() == second.to_multiset(),
    ensures
        r.record_all(first) == r.record_all(second),
{
    let f = |r: ReportView, o: Outcome| r.record(o);
    assert forall|x: Outcome, y: Outcome, v: ReportView| #[trigger]
        f(f(v, x), y) == f(f(v, y), x) by {
        lemma_record_commutes(v, x, y);
    }
    vstd::seq_lib::lemma_fold_left_permutation(first, second, f, r);
}

/// A report that has recorded outcomes and nothing else has one status code
/// for each of them.
pub proof fn lemma_record_all_total(r: ReportView, outcomes: Seq<Outcome>)
    ensures
        r.record_all(outcomes).statuses.len() == r.statuses.len() + outcomes.len(),
        r.record_all(outcomes).cache_hits.len() == r.cache_hits.len() + outcomes.len(),
        r.record_all(outcomes).latencies.len() == r.latencies.len() + outcomes.len(),
        r.record_all(outcomes).failures == r.failures,
    decreases outcomes.len(),
{
    if outcomes.len() > 0 {
        lemma_record_all_total(r, outcomes.drop_last());
    }
}

} // verus!
