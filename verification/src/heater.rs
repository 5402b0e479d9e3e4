//! The run: which request goes out next, how many are under way, and what
//! has come back.

use crate::classify::{classify, uncovered, Response};
use crate::combine::{
    contains_text, lemma_div_mod_in_range, lemma_div_mod_of_parts, lemma_unseen_extends, unseen,
};
use crate::config::Config;
use crate::header::HeaderVariation;
use crate::report::{AggregateReport, Outcome, ReportView, MAX_ELAPSED_MS};
use vstd::prelude::*;

verus! {

/// A header set as names and values.
pub type HeaderSetView = Seq<(Seq<char>, Seq<char>)>;

/// One request of a run: a URL with one header set.
#[derive(Debug)]
pub struct WorkItem {
    /// The place of the request among the requests of the run.
    pub index: usize,
    /// The URL to ask for.
    pub url: String,
    /// The headers to send.
    pub headers: Vec<HeaderVariation>,
}

/// What the one who runs the requests does next.
#[derive(Debug)]
pub enum Action {
    /// Send this request, then ask again.
    Send(WorkItem),
    /// Wait for one of the requests under way, report it, then ask again.
    Wait,
    /// Every request has been sent and has come back.
    Done,
}

/// The URL and the header set of request `i`: every header set with the
/// first URL, then every header set with the second, and so on.
pub open spec fn work_item(urls: Seq<Seq<char>>, sets: Seq<HeaderSetView>, i: int) -> (
    Seq<char>,
    HeaderSetView,
) {
    (urls[i / (sets.len() as int)], sets[i % (sets.len() as int)])
}

/// Whether the request of place `i` is among those that came back.
pub open spec fn came_back(log: Seq<Completion>, i: int) -> bool {
    exists|k: int| 0 <= k < log.len() && (#[trigger] log[k]).0 == i
}

/// Each pair of a URL and a header set is the work item of one place, which
/// lies among the places of the run.
pub proof fn lemma_work_items_cover(urls: Seq<Seq<char>>, sets: Seq<HeaderSetView>, u: int, v: int)
    requires
        0 <= u < urls.len(),
        0 <= v < sets.len(),
    ensures
        0 <= u * sets.len() + v < urls.len() * sets.len(),
        work_item(urls, sets, u * sets.len() + v) == (urls[u], sets[v]),
{
    lemma_div_mod_of_parts(u, v, urls.len() as int, sets.len() as int);
}

/// Two places of a run that differ have work items that differ in the URL's
/// place or in the header set's place.
pub proof fn lemma_work_items_differ(m: int, k: int, i: int, j: int)
    requires
        0 <= i < m * k,
        0 <= j < m * k,
        0 <= m,
        0 <= k,
        i != j,
    ensures
        i / k != j / k || i % k != j % k,
{
    lemma_div_mod_in_range(i, m, k);
    lemma_div_mod_in_range(j, m, k);
}

/// A copy of the header set.
pub(crate) fn clone_headers(headers: &Vec<HeaderVariation>) -> (r: Vec<HeaderVariation>)
    ensures
        r.deep_view() == headers.deep_view(),
{
    let mut out: Vec<HeaderVariation> = Vec::new();
    let mut i: usize = 0;
    while i < headers.len()
        invariant
            i <= headers.len(),
            out.len() == i,
            forall|k: int| 0 <= k < i ==> (#[trigger] out.deep_view()[k]) == headers.deep_view()[k],
        decreases headers.len() - i,
    {
        let ghost before = out.deep_view();
        let copy = HeaderVariation {
            header: headers[i].header.clone(),
            value: headers[i].value.clone(),
        };
        out.push(copy);
        assert(out.deep_view() =~= before.push(headers.deep_view()[i as int]));
        i += 1;
    }
    out
}

/// What came of one request: its place among the requests of the run, and
/// the outcome if it was answered.
pub type Completion = (int, Option<Outcome>);

/// The report of a run in which these requests came back, in this order.
pub open spec fn replay(log: Seq<Completion>) -> ReportView
    decreases log.len(),
{
    if log.len() == 0 {
        ReportView::empty()
    } else {
        let before = replay(log.drop_last());
        match log.last().1 {
            Some(outcome) => before.record(outcome),
            None => before.record_failure(),
        }
    }
}

/// A report counts each request that came back once.
pub proof fn lemma_replay_total(log: Seq<Completion>)
    ensures
        replay(log).total() == log.len(),
        replay(log).cache_hits.len() == replay(log).statuses.len(),
        replay(log).latencies.len() == replay(log).statuses.len(),
    decreases log.len(),
{
    if log.len() > 0 {
        lemma_replay_total(log.drop_last());
    }
}

/// The state of a run.
pub struct Heater {
    urls: Vec<String>,
    sets: Vec<Vec<HeaderVariation>>,
    limit: usize,
    total: usize,
    dispatched: usize,
    under_way: Vec<usize>,
    report: AggregateReport,
    warned: Vec<String>,
    log: Ghost<Seq<Completion>>,
}

impl Heater {
    /// The URLs of the run.
    pub closed spec fn urls(&self) -> Seq<Seq<char>> {
        self.urls.deep_view()
    }

    /// The header sets of the run.
    pub closed spec fn sets(&self) -> Seq<HeaderSetView> {
        self.sets.deep_view()
    }

    /// How many requests may be under way at once.
    pub closed spec fn limit(&self) -> nat {
        self.limit as nat
    }

    /// How many requests have been handed out: those of the places below
    /// this number.
    pub closed spec fn dispatched(&self) -> nat {
        self.dispatched as nat
    }

    /// The places of the requests that are under way.
    pub closed spec fn under_way(&self) -> Set<int> {
        Set::new(|i: int| exists|k: int| 0 <= k < self.under_way.len() && self.under_way[k] == i)
    }

    /// How many requests are under way.
    pub closed spec fn in_flight(&self) -> nat {
        self.under_way.len() as nat
    }

    /// The requests that have come back, in the order in which they did.
    pub closed spec fn completed(&self) -> Seq<Completion> {
        self.log@
    }

    /// What has been counted so far.
    pub closed spec fn report(&self) -> ReportView {
        self.report@
    }

    /// The headers that a response varied on and no request carried, each once.
    pub closed spec fn warned(&self) -> Seq<Seq<char>> {
        self.warned.deep_view()
    }

    /// The number of requests of the run: one for each URL with each header set.
    pub open spec fn total(&self) -> nat {
        self.urls().len() * self.sets().len()
    }

    /// Whether every request has been handed out and has come back.
    pub open spec fn is_done(&self) -> bool {
        self.dispatched() == self.total() && self.in_flight() == 0
    }

    /// No more requests are under way than the limit allows, none is handed
    /// out beyond the last, each one that was handed out is under way or has
    /// come back once, and the report has counted exactly those that have
    /// come back.
    pub closed spec fn wf(&self) -> bool {
        &&& self.limit >= 1
        &&& self.total == self.urls.deep_view().len() * self.sets.deep_view().len()
        &&& self.dispatched <= self.total
        &&& self.under_way.len() <= self.limit
        &&& self.under_way@.no_duplicates()
        &&& forall|k: int|
            0 <= k < self.under_way.len() ==> (#[trigger] self.under_way[k]) < self.dispatched
        &&& forall|k: int|
            0 <= k < self.log@.len() ==> 0 <= (#[trigger] self.log@[k]).0 < self.dispatched
        &&& forall|a: int, b: int|
            0 <= a < self.log@.len() && 0 <= b < self.log@.len() && a != b ==> (
            #[trigger] self.log@[a]).0 != (#[trigger] self.log@[b]).0
        &&& forall|k: int, j: int|
            0 <= k < self.log@.len() && 0 <= j < self.under_way.len() ==> (
            #[trigger] self.log@[k]).0 != #[trigger] self.under_way[j]
        &&& forall|i: int|
            0 <= i < self.dispatched ==> self.under_way@.contains(i as usize) || came_back(
                self.log@,
                i,
            )
        &&& self.log@.len() + self.under_way.len() == self.dispatched
        &&& self.report.wf()
        &&& self.report@ == replay(self.log@)
        &&& self.warned.deep_view().no_duplicates()
    }

    /// What holds of every run: the limit is kept, each request that was
    /// handed out is under way or has come back, none has come back twice,
    /// and the report has counted those that have come back, each once.
    pub proof fn lemma_state(&self)
        requires
            self.wf(),
        ensures
            self.limit() >= 1,
            self.in_flight() <= self.limit(),
            self.dispatched() <= self.total(),
            self.total() <= usize::MAX,
            self.under_way().finite(),
            self.under_way().len() == self.in_flight(),
            self.completed().len() + self.in_flight() == self.dispatched(),
            forall|i: int|
                0 <= i < self.dispatched() ==> (self.under_way().contains(i) != came_back(
                    self.completed(),
                    i,
                )),
            forall|i: int| self.under_way().contains(i) ==> 0 <= i < self.dispatched(),
            forall|k: int|
                0 <= k < self.completed().len() ==> 0 <= (#[trigger] self.completed()[k]).0
                    < self.dispatched(),
            forall|a: int, b: int|
                0 <= a < self.completed().len() && 0 <= b < self.completed().len() && a != b ==> (
                #[trigger] self.completed()[a]).0 != (#[trigger] self.completed()[b]).0,
            self.report() == replay(self.completed()),
            self.report().total() == self.completed().len(),
            self.warned().no_duplicates(),
    {
        lemma_replay_total(self.log@);
        let places = self.under_way@.map_values(|i: usize| i as int);
        assert(places.to_set() =~= self.under_way()) by {
            assert forall|i: int| places.to_set().contains(i) implies self.under_way().contains(
                i,
            ) by {}
            assert forall|i: int| self.under_way().contains(i) implies places.to_set().contains(
                i,
            ) by {
                let k = choose|k: int| 0 <= k < self.under_way.len() && self.under_way[k] == i;
                assert(places[k] == i);
            }
        }
        places.unique_seq_to_set();
        vstd::seq_lib::seq_to_set_is_finite(places);
    }

    /// When a run is done, each of its requests has come back exactly once,
    /// and the report has counted each of them: as many as there are URLs
    /// times header sets.
    pub proof fn lemma_done(&self)
        requires
            self.wf(),
            self.is_done(),
        ensures
            self.completed().len() == self.urls().len() * self.sets().len(),
            forall|i: int| 0 <= i < self.total() ==> came_back(self.completed(), i),
            forall|a: int, b: int|
                0 <= a < self.completed().len() && 0 <= b < self.completed().len() && a != b ==> (
                #[trigger] self.completed()[a]).0 != (#[trigger] self.completed()[b]).0,
            self.report() == replay(self.completed()),
            self.report().total() == self.urls().len() * self.sets().len(),
    {
        self.lemma_state();
    }

    /// A run of every header set of `config` against every URL, with as many
    /// requests at once as `config` allows. Nothing has been sent yet.
    pub fn new(config: &Config, urls: Vec<String>) -> (r: Self)
        requires
            config.wf(),
            config.fits(),
            config.concurrency() >= 1,
            urls.len() * config.variations().len() <= usize::MAX,
        ensures
            r.wf(),
            r.urls() == urls.deep_view(),
            r.sets() == config.variations(),
            r.limit() == config.concurrency(),
            r.dispatched() == 0,
            r.in_flight() == 0,
            r.under_way() == Set::<int>::empty(),
            r.completed() == Seq::<Completion>::empty(),
            r.report() == ReportView::empty(),
            r.warned() == Seq::<Seq<char>>::empty(),
    {
        let sets = config.generate_header_variations();
        let limit = config.concurrency_limit();
        let total = urls.len() * sets.len();
        let warned: Vec<String> = Vec::new();
        let r = Heater {
            urls,
            sets,
            limit,
            total,
            dispatched: 0,
            under_way: Vec::new(),
            report: AggregateReport::new(),
            warned,
            log: Ghost(Seq::empty()),
        };
        r
    }

    /// The number of requests of the run.
    pub fn work_count(&self) -> (n: usize)
        requires
            self.wf(),
        ensures
            n == self.total(),
    {
        self.total
    }

    /// What to do next. A request is handed out while one is left and the
    /// limit allows one more; else one that is under way is waited for; the
    /// run is done when none is left and none is under way.
    pub fn next_action(&mut self) -> (action: Action)
        requires
            old(self).wf(),
        ensures
            final(self).wf(),
            final(self).urls() == old(self).urls(),
            final(self).sets() == old(self).sets(),
            final(self).limit() == old(self).limit(),
            final(self).report() == old(self).report(),
            final(self).completed() == old(self).completed(),
            final(self).warned() == old(self).warned(),
            old(self).dispatched() < old(self).total() && old(self).in_flight() < old(
                self,
            ).limit() ==> {
                &&& action matches Action::Send(item)
                &&& item.index == old(self).dispatched()
                &&& (item.url@, item.headers.deep_view()) == work_item(
                    old(self).urls(),
                    old(self).sets(),
                    old(self).dispatched() as int,
                )
                &&& final(self).dispatched() == old(self).dispatched() + 1
                &&& final(self).in_flight() == old(self).in_flight() + 1
                &&& final(self).under_way() == old(self).under_way().insert(
                    old(self).dispatched() as int,
                )
            },
            !(old(self).dispatched() < old(self).total() && old(self).in_flight() < old(
                self,
            ).limit()) ==> {
                &&& final(self).dispatched() == old(self).dispatched()
                &&& final(self).in_flight() == old(self).in_flight()
                &&& final(self).under_way() == old(self).under_way()
                &&& old(self).in_flight() > 0 ==> action is Wait
                &&& old(self).in_flight() == 0 ==> action is Done && final(self).is_done()
            },
    {
        if self.dispatched < self.total && self.under_way.len() < self.limit {
            let k = self.sets.len();
            proof {
                lemma_div_mod_in_range(
                    self.dispatched as int,
                    self.urls.len() as int,
                    self.sets.len() as int,
                );
            }
            let index = self.dispatched;
            let item = WorkItem {
                index,
                url: self.urls[index / k].clone(),
                headers: clone_headers(&self.sets[index % k]),
            };
            let ghost before = self.under_way@;
            self.under_way.push(index);
            self.dispatched = self.dispatched + 1;
            proof {
                assert forall|i: int| 0 <= i < self.dispatched implies self.under_way@.contains(
                    i as usize,
                ) || came_back(self.log@, i) by {
                    if i == index {
                        assert(self.under_way@[before.len() as int] == index);
                    } else if before.contains(i as usize) {
                        let j = choose|j: int| 0 <= j < before.len() && before[j] == i as usize;
                        assert(self.under_way@[j] == i as usize);
                    }
                }
                assert(self.under_way() =~= old(self).under_way().insert(index as int)) by {
                    assert forall|i: int| self.under_way().contains(i) implies old(
                        self,
                    ).under_way().insert(index as int).contains(i) by {}
                    assert forall|i: int|
                        old(self).under_way().insert(index as int).contains(
                            i,
                        ) implies self.under_way().contains(i) by {
                        if i != index {
                            let j = choose|j: int| 0 <= j < before.len() && before[j] == i;
                            assert(self.under_way[j] == i);
                        }
                    }
                }
            }
            Action::Send(item)
        } else if self.under_way.len() > 0 {
            Action::Wait
        } else {
            Action::Done
        }
    }

    /// Whether the request of this place is under way.
    pub fn is_under_way(&self, item: usize) -> (r: bool)
        ensures
            r == self.under_way().contains(item as int),
    {
        self.place_of(item) < self.under_way.len()
    }

    fn place_of(&self, item: usize) -> (at: usize)
        ensures
            at <= self.under_way.len(),
            at < self.under_way.len() ==> self.under_way[at as int] == item,
            at < self.under_way.len() <==> self.under_way().contains(item as int),
    {
        let mut at: usize = 0;
        while at < self.under_way.len() && self.under_way[at] != item
            invariant
                at <= self.under_way.len(),
                forall|k: int| 0 <= k < at ==> self.under_way[k] != item,
            decreases self.under_way.len() - at,
        {
            at += 1;
        }
        at
    }

    /// Takes what came of the request of place `item`: a response after
    /// `elapsed_ms` milliseconds, or none where the request failed. The
    /// response is classified and counted, a failure is counted as such.
    /// What comes back are the headers to warn about: those that the response
    /// varies on, that the request did not carry, and that no earlier
    /// response gave.
    pub fn complete(
        &mut self,
        item: usize,
        response: Option<&Response>,
        elapsed_ms: u64,
    ) -> (fresh_names: Vec<String>)
        requires
            old(self).wf(),
            old(self).under_way().contains(item as int),
            elapsed_ms <= MAX_ELAPSED_MS,
        ensures
            final(self).wf(),
            final(self).urls() == old(self).urls(),
            final(self).sets() == old(self).sets(),
            final(self).limit() == old(self).limit(),
            final(self).dispatched() == old(self).dispatched(),
            final(self).in_flight() == old(self).in_flight() - 1,
            final(self).under_way() == old(self).under_way().remove(item as int),
            final(self).completed() == old(self).completed().push(
                (
                    item as int,
                    match response {
                        Some(r) => Some(
                            Outcome {
                                status: r.status,
                                cache_hit: crate::classify::cache_state(r.x_cache_view()),
                                elapsed_ms,
                            },
                        ),
                        None => None,
                    },
                ),
            ),
            final(self).report() == replay(final(self).completed()),
            fresh_names.deep_view() == match response {
                Some(r) => unseen(
                    uncovered(
                        r.vary.deep_view(),
                        work_item(old(self).urls(), old(self).sets(), item as int).1,
                    ),
                    old(self).warned(),
                ),
                None => Seq::<Seq<char>>::empty(),
            },
            final(self).warned() == old(self).warned() + fresh_names.deep_view(),
    {
        let mut fresh_names: Vec<String> = Vec::new();
        proof {
            lemma_replay_total(self.log@);
        }
        let at = self.place_of(item);
        let ghost before = self.under_way@;
        let ghost log = self.log@;
        self.under_way.remove(at);
        proof {
            assert(self.under_way() =~= old(self).under_way().remove(item as int)) by {
                assert forall|i: int| self.under_way().contains(i) implies old(
                    self,
                ).under_way().remove(item as int).contains(i) by {}
                assert forall|i: int|
                    old(self).under_way().remove(item as int).contains(
                        i,
                    ) implies self.under_way().contains(i) by {
                    let x = choose|x: int| 0 <= x < before.len() && before[x] == i;
                    let k = if x < at { x } else { x - 1 };
                    assert(self.under_way[k] == i);
                }
            }
        }
        let ghost outcome: Option<Outcome>;
        match response {
            None => {
                self.report.record_failure();
                proof {
                    outcome = None;
                }
            },
            Some(r) => {
                let k = self.sets.len();
                proof {
                    lemma_div_mod_in_range(
                        item as int,
                        self.urls.len() as int,
                        self.sets.len() as int,
                    );
                }
                let (counted, names) = classify(r, elapsed_ms, &self.sets[item % k]);
                self.report.record(&counted);
                proof {
                    outcome = Some(counted);
                }
                let ghost known = self.warned.deep_view();
                let ghost all = names.deep_view();
                let mut i: usize = 0;
                while i < names.len()
                    invariant
                        i <= names.len(),
                        all == names.deep_view(),
                        fresh_names.deep_view() == unseen(all.take(i as int), known),
                        self.warned.deep_view() == known + fresh_names.deep_view(),
                        self.urls == old(self).urls,
                        self.sets == old(self).sets,
                        self.limit == old(self).limit,
                        self.total == old(self).total,
                        self.dispatched == old(self).dispatched,
                        self.under_way@ == before.remove(at as int),
                        self.log@ == log,
                        self.report.wf(),
                        self.report@ == replay(log).record(counted),
                    decreases names.len() - i,
                {
                    proof {
                        assert(all.take(i + 1).drop_last() =~= all.take(i as int));
                    }
                    let ghost found = fresh_names.deep_view();
                    if !contains_text(&self.warned, &names[i]) {
                        proof {
                            let name = names[i as int]@;
                            if known.contains(name) {
                                let at = choose|at: int| 0 <= at < known.len() && known[at] == name;
                                assert((known + found)[at] == name);
                            }
                            if found.contains(name) {
                                let at = choose|at: int| 0 <= at < found.len() && found[at] == name;
                                assert((known + found)[known.len() + at] == name);
                            }
                        }
                        let ghost told = self.warned.deep_view();
                        self.warned.push(names[i].clone());
                        fresh_names.push(names[i].clone());
                        assert(self.warned.deep_view() =~= told.push(names[i as int]@));
                    }
                    i += 1;
                }
                assert(all.take(i as int) =~= all);
            },
        }
        proof {
            lemma_unseen_extends(
                match response {
                    Some(r) => uncovered(
                        r.vary.deep_view(),
                        work_item(old(self).urls(), old(self).sets(), item as int).1,
                    ),
                    None => Seq::empty(),
                },
                old(self).warned(),
            );
            self.log@ = log.push((item as int, outcome));
            let after = self.log@;
            assert(after.drop_last() =~= log);
            assert forall|i: int| 0 <= i < self.dispatched implies self.under_way@.contains(
                i as usize,
            ) || came_back(after, i) by {
                assert(before.contains(i as usize) || came_back(log, i));
                if i == item {
                    assert(after[log.len() as int].0 == i);
                } else if before.contains(i as usize) {
                    let x = choose|x: int| 0 <= x < before.len() && before[x] == i as usize;
                    let k = if x < at { x } else { x - 1 };
                    assert(self.under_way@[k] == i as usize);
                }
            }
        }
        fresh_names
    }

    /// The report of the run as far as it has come.
    pub fn finish(self) -> (r: AggregateReport)
        requires
            self.wf(),
        ensures
            r.wf(),
            r@ == self.report(),
            r@ == replay(self.completed()),
            self.is_done() ==> r@.total() == self.total(),
    {
        proof {
            self.lemma_done_total();
        }
        self.report
    }

    proof fn lemma_done_total(&self)
        requires
            self.wf(),
        ensures
            self.is_done() ==> self.report@.total() == self.total(),
    {
        lemma_replay_total(self.log@);
    }

    /// The headers that a response varied on and no request carried.
    pub fn warnings(&self) -> (r: &Vec<String>)
        ensures
            r.deep_view() == self.warned(),
    {
        &self.warned
    }
}

} // verus!
