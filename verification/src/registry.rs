//! Collector trait and per-scrape registry.
//!
//! Each registered collector is invoked on every scrape and returns either
//! metric families or an error. An error is surfaced as a
//! `node_scrape_collector_success{collector="..."} 0` sample, so operators can
//! alert on partial scrape failures.

use vstd::prelude::*;

use crate::config::Config;
use crate::error::Error;
use crate::metric;
use crate::metric::{Metric, MetricType, MetricView, Sample, SampleView, Value, ValueView};
use crate::order;
use crate::quantity;
use crate::rows;
use crate::text::same_str;

verus! {

/// A pluggable source of metric families.
pub trait Collector: Send + Sync {
    /// The collector's name. Which it is stays open where the collector does
    /// not say, but it is always the same.
    open spec fn id(&self) -> Seq<char> {
        arbitrary()
    }

    /// What the collector may give back under `cfg`. The sources that it reads
    /// change, so it may be many things: anything, where the collector does not
    /// say.
    open spec fn may_give(
        &self,
        cfg: Config,
        outcome: Result<Seq<MetricView<ValueView>>, Seq<char>>,
    ) -> bool {
        true
    }

    /// Stable identifier used for the `--no-collector` flag and for the
    /// `collector` label on the scrape-status metric.
    fn name(&self) -> (r: &'static str)
        ensures
            r@ == self.id(),
    ;

    /// Read the underlying source and return zero or more metric families.
    fn collect(&self, cfg: &Config) -> (r: Result<Vec<Metric<Value>>, Error>)
        ensures
            self.may_give(*cfg, metric::outcome(r)),
    ;
}

// ----------------------------------------------------------------------- time

#[verifier::external_type_specification]
#[verifier::external_body]
pub struct ExInstant(std::time::Instant);

/// `std::time::Instant::now` reads a clock; nothing is claimed of what it
/// shows.
pub assume_specification[ std::time::Instant::now ]() -> (r: std::time::Instant)
;

/// `std::time::Instant::elapsed` reads the clock again and returns the time
/// since `started`, here in seconds and the nanoseconds of the last one.
/// Nothing is claimed of it but that those are fewer than a second's.
#[verifier::external_body]
fn elapsed_since(started: &std::time::Instant) -> (r: (u64, u32))
    ensures
        r.1 < 1_000_000_000,
{
    let elapsed = started.elapsed();
    (elapsed.as_secs(), elapsed.subsec_nanos())
}

// ----------------------------------------------------------------------- runs

/// What came of running a collector once.
pub struct Run {
    pub name: &'static str,
    pub result: Result<Vec<Metric<Value>>, Error>,
    /// How long it took, in seconds and the nanoseconds of the last one.
    pub secs: u64,
    pub nanos: u32,
}

/// What a [`Run`] says.
pub struct RunView {
    pub name: Seq<char>,
    pub outcome: Result<Seq<MetricView<ValueView>>, Seq<char>>,
    pub secs: u64,
    pub nanos: u32,
}

impl View for Run {
    type V = RunView;

    open spec fn view(&self) -> RunView {
        RunView {
            name: self.name@,
            outcome: metric::outcome(self.result),
            secs: self.secs,
            nanos: self.nanos,
        }
    }
}

/// The families that a run adds: none where it failed.
pub open spec fn run_families() -> spec_fn(RunView) -> Seq<MetricView<ValueView>> {
    |run: RunView|
        match run.outcome {
            Ok(families) => families,
            Err(_) => seq![],
        }
}

/// Whether the run succeeded.
pub open spec fn success_sample(run: RunView) -> SampleView<ValueView> {
    SampleView::new(ValueView::flag(run.outcome is Ok)).with_label("collector"@, run.name)
}

/// How long the run took.
pub open spec fn duration_sample(run: RunView) -> SampleView<ValueView> {
    SampleView::new(ValueView::span(run.secs, run.nanos)).with_label("collector"@, run.name)
}

/// Whether each run succeeded.
pub open spec fn success_family(runs: Seq<RunView>) -> MetricView<ValueView> {
    MetricView::new(
        "node_scrape_collector_success"@,
        "node_exporter: Whether a collector succeeded."@,
        MetricType::Gauge,
    ).with_samples(Seq::new(runs.len(), |i: int| success_sample(runs[i])))
}

/// How long each run took.
pub open spec fn duration_family(runs: Seq<RunView>) -> MetricView<ValueView> {
    MetricView::new(
        "node_scrape_collector_duration_seconds"@,
        "node_exporter: Duration of a collector scrape."@,
        MetricType::Gauge,
    ).with_samples(Seq::new(runs.len(), |i: int| duration_sample(runs[i])))
}

/// The metrics of a scrape: those of the runs in turn, then how each run went.
pub open spec fn assembled(runs: Seq<RunView>) -> Seq<MetricView<ValueView>> {
    rows::per_row(runs, run_families()).push(success_family(runs)).push(duration_family(runs))
}

/// Puts the metrics of a scrape together.
pub fn assemble(runs: Vec<Run>) -> (r: Vec<Metric<Value>>)
    ensures
        metric::metric_views(r@) == assembled(order::views(runs@)),
{
    let ghost all = order::views(runs@);
    let ghost successes = success_family(all).samples;
    let ghost durations = duration_family(all).samples;
    let mut out: Vec<Metric<Value>> = Vec::new();
    let mut success = Metric::new(
        "node_scrape_collector_success",
        "node_exporter: Whether a collector succeeded.",
        MetricType::Gauge,
    );
    let mut duration = Metric::new(
        "node_scrape_collector_duration_seconds",
        "node_exporter: Duration of a collector scrape.",
        MetricType::Gauge,
    );
    proof {
        assert(metric::metric_views(out@) =~= seq![]);
        assert(successes.take(0) =~= seq![]);
        assert(durations.take(0) =~= seq![]);
    }
    for run in it: runs
        invariant
            all == order::views(runs@),
            it.seq() == runs@,
            successes == success_family(all).samples,
            durations == duration_family(all).samples,
            metric::metric_views(out@) == rows::per_row(all.take(it.index()), run_families()),
            success@ == success_family(all).with_samples(successes.take(it.index())),
            duration@ == duration_family(all).with_samples(durations.take(it.index())),
    {
        let ghost i = it.index();
        let ghost had = metric::metric_views(out@);
        let ghost said = run@;
        proof {
            assert(all[i] == run@);
            assert(all.take(i + 1).drop_last() =~= all.take(i));
            assert(successes.take(i + 1) =~= successes.take(i).push(success_sample(said)));
            assert(durations.take(i + 1) =~= durations.take(i).push(duration_sample(said)));
        }
        let ok = match run.result {
            Ok(metrics) => {
                let mut metrics = metrics;
                let ghost more = metric::metric_views(metrics@);
                out.append(&mut metrics);
                assert(metric::metric_views(out@) =~= had + more);
                true
            },
            Err(_) => {
                assert(had + seq![] =~= had);
                false
            },
        };
        success.push(Sample::new(Value::flag(ok)).with_label("collector", run.name));
        duration.push(
            Sample::new(Value::span(run.secs, run.nanos)).with_label("collector", run.name),
        );
    }
    proof {
        assert(all.take(all.len() as int) =~= all);
        assert(successes.take(all.len() as int) =~= successes);
        assert(durations.take(all.len() as int) =~= durations);
    }
    let ghost had = metric::metric_views(out@);
    out.push(success);
    out.push(duration);
    assert(metric::metric_views(out@) =~= had.push(success@).push(duration@));
    out
}

/// A scrape reports on every run, whatever came of it: its sample in the
/// success family is 1 or 0, and it has a sample in the duration family.
pub proof fn every_run_is_reported(runs: Seq<RunView>, i: int)
    requires
        0 <= i < runs.len(),
    ensures
        assembled(runs).len() >= 2,
        assembled(runs)[assembled(runs).len() - 2].name == "node_scrape_collector_success"@,
        assembled(runs)[assembled(runs).len() - 2].samples.len() == runs.len(),
        assembled(runs)[assembled(runs).len() - 2].samples[i] == success_sample(runs[i]),
        success_sample(runs[i]).value == ValueView::unsigned(
            if runs[i].outcome is Ok {
                1
            } else {
                0
            },
        ),
        assembled(runs).last().name == "node_scrape_collector_duration_seconds"@,
        assembled(runs).last().samples.len() == runs.len(),
        assembled(runs).last().samples[i] == duration_sample(runs[i]),
{
}

/// A failed run takes nothing away from the others: the families of every run
/// that succeeded are in the scrape, between those of the runs before and after
/// it.
pub proof fn successful_runs_are_kept(runs: Seq<RunView>, i: int)
    requires
        0 <= i < runs.len(),
        runs[i].outcome is Ok,
    ensures
        assembled(runs) == rows::per_row(runs.take(i), run_families()) + runs[i].outcome->Ok_0
            + rows::per_row(runs.skip(i + 1), run_families()) + seq![
            success_family(runs),
            duration_family(runs),
        ],
{
    let f = run_families();
    rows::lemma_per_row_splits(runs, f, i + 1);
    rows::lemma_per_row_splits(runs.take(i + 1), f, i);
    assert(runs.take(i + 1).take(i) =~= runs.take(i));
    let one = runs.take(i + 1).skip(i);
    assert(one =~= seq![runs[i]]);
    assert(one.drop_last() =~= seq![]);
    assert(rows::per_row(one, f) =~= f(runs[i])) by {
        assert(rows::per_row(one.drop_last(), f) =~= seq![]);
    }
    assert(assembled(runs) =~= rows::per_row(runs, f) + seq![
        success_family(runs),
        duration_family(runs),
    ]);
}

/// A failed run adds no families.
pub proof fn failed_runs_add_nothing(runs: Seq<RunView>, i: int)
    requires
        0 <= i < runs.len(),
        runs[i].outcome is Err,
    ensures
        rows::per_row(runs, run_families()) == rows::per_row(runs.remove(i), run_families()),
{
    let f = run_families();
    rows::lemma_per_row_splits(runs, f, i);
    rows::lemma_per_row_splits(runs.remove(i), f, i);
    rows::lemma_per_row_splits(runs.skip(i), f, 1);
    assert(runs.remove(i).take(i) =~= runs.take(i));
    assert(runs.remove(i).skip(i) =~= runs.skip(i).skip(1));
    let one = runs.skip(i).take(1);
    assert(one =~= seq![runs[i]]);
    assert(rows::per_row(one, f) =~= seq![]) by {
        assert(one.drop_last() =~= seq![]);
        assert(rows::per_row(one.drop_last(), f) =~= seq![]);
        assert(f(runs[i]) =~= seq![]);
    }
    let tail = rows::per_row(runs.skip(i).skip(1), f);
    assert(seq![] + tail =~= tail);
}

// ------------------------------------------------------------------- registry

/// Collection of enabled collectors plus per-scrape orchestration.
pub struct Registry {
    collectors: Vec<Box<dyn Collector>>,
}

impl View for Registry {
    type V = Seq<Box<dyn Collector>>;

    closed spec fn view(&self) -> Seq<Box<dyn Collector>> {
        self.collectors@
    }
}

/// The names of collectors.
pub open spec fn ids<C: Collector + ?Sized>(collectors: Seq<Box<C>>) -> Seq<Seq<char>> {
    Seq::new(collectors.len(), |i: int| collectors[i].id())
}

/// What each name says.
pub open spec fn name_views(v: Seq<&'static str>) -> Seq<Seq<char>> {
    Seq::new(v.len(), |i: int| v[i]@)
}

/// Whether the collector at position `i` may give that back.
pub open spec fn may_give_at<C: Collector + ?Sized>(
    collectors: Seq<Box<C>>,
    i: int,
    cfg: Config,
    outcome: Result<Seq<MetricView<ValueView>>, Seq<char>>,
) -> bool {
    collectors[i].may_give(cfg, outcome)
}

/// Whether `runs` may have come of running each of the collectors once, in
/// turn.
pub open spec fn are_runs_of<C: Collector + ?Sized>(
    collectors: Seq<Box<C>>,
    cfg: Config,
    runs: Seq<RunView>,
) -> bool {
    &&& runs.len() == ids(collectors).len()
    &&& forall|i: int|
        0 <= i < runs.len() ==> (#[trigger] runs[i]).name == ids(collectors)[i] && may_give_at(
            collectors,
            i,
            cfg,
            runs[i].outcome,
        ) && runs[i].nanos < 1_000_000_000
}

/// `collectors` with `c` behind them.
pub open spec fn with_collector<C: Collector + ?Sized>(c: Box<C>, collectors: Seq<Box<C>>) -> Seq<
    Box<C>,
> {
    collectors.push(c)
}

fn append<C: Collector + ?Sized>(c: Box<C>, collectors: &mut Vec<Box<C>>)
    ensures
        final(collectors)@ == with_collector(c, old(collectors)@),
        ids(final(collectors)@) == ids(old(collectors)@).push(c.id()),
        forall|
            i: int,
            cfg: Config,
            outcome: Result<Seq<MetricView<ValueView>>, Seq<char>>,
        |
            0 <= i <= ids(old(collectors)@).len() ==> #[trigger] may_give_at(
                final(collectors)@,
                i,
                cfg,
                outcome,
            ) == if i < ids(old(collectors)@).len() {
                may_give_at(old(collectors)@, i, cfg, outcome)
            } else {
                c.may_give(cfg, outcome)
            },
{
    collectors.push(c);
    assert(ids(collectors@) =~= ids(old(collectors)@).push(c.id()));
}

impl Registry {
    pub fn new() -> (r: Self)
        ensures
            r@ == Seq::<Box<dyn Collector>>::empty(),
            ids(r@) == Seq::<Seq<char>>::empty(),
    {
        let r = Registry { collectors: Vec::new() };
        assert(ids(r@) =~= Seq::empty());
        r
    }

    /// Enables a collector after the others.
    pub fn register(&mut self, c: Box<dyn Collector>)
        ensures
            final(self)@ == with_collector(c, old(self)@),
            ids(final(self)@) == ids(old(self)@).push(c.id()),
            forall|
                i: int,
                cfg: Config,
                outcome: Result<Seq<MetricView<ValueView>>, Seq<char>>,
            |
                0 <= i <= ids(old(self)@).len() ==> #[trigger] may_give_at(
                    final(self)@,
                    i,
                    cfg,
                    outcome,
                ) == if i < ids(old(self)@).len() {
                    may_give_at(old(self)@, i, cfg, outcome)
                } else {
                    c.may_give(cfg, outcome)
                },
    {
        append(c, &mut self.collectors);
    }

    /// The names of the enabled collectors.
    pub fn enabled_names(&self) -> (r: Vec<&'static str>)
        ensures
            name_views(r@) == ids(self@),
    {
        let mut out: Vec<&'static str> = Vec::new();
        let mut i: usize = 0;
        while i < self.collectors.len()
            invariant
                i <= self.collectors@.len(),
                out@.len() == i,
                forall|j: int| 0 <= j < i ==> (#[trigger] out@[j])@ == self.collectors@[j].id(),
            decreases self.collectors@.len() - i,
        {
            out.push(self.collectors[i].name());
            i = i + 1;
        }
        assert(name_views(out@) =~= ids(self@));
        out
    }

    /// Run every collector once.
    fn run_all(&self, cfg: &Config) -> (r: Vec<Run>)
        ensures
            are_runs_of(self@, *cfg, order::views(r@)),
    {
        let mut runs: Vec<Run> = Vec::new();
        let mut i: usize = 0;
        while i < self.collectors.len()
            invariant
                i <= self.collectors@.len(),
                runs@.len() == i,
                forall|j: int|
                    0 <= j < i ==> (#[trigger] runs@[j])@.name == ids(self.collectors@)[j]
                        && may_give_at(self.collectors@, j, *cfg, runs@[j]@.outcome)
                        && runs@[j]@.nanos < 1_000_000_000,
            decreases self.collectors@.len() - i,
        {
            let started = std::time::Instant::now();
            let result = self.collectors[i].collect(cfg);
            let (secs, nanos) = elapsed_since(&started);
            runs.push(Run { name: self.collectors[i].name(), result, secs, nanos });
            i = i + 1;
        }
        runs
    }

    /// Run every collector and produce a single flat metric list, plus
    /// per-collector success/duration metrics for observability.
    pub fn gather(&self, cfg: &Config) -> (r: Vec<Metric<Value>>)
        ensures
            exists|runs: Seq<RunView>| #[trigger]
                are_runs_of(self@, *cfg, runs) && metric::metric_views(r@) == assembled(runs),
    {
        let runs = self.run_all(cfg);
        assert(are_runs_of(self@, *cfg, order::views(runs@)));
        assemble(runs)
    }
}

impl Default for Registry {
    fn default() -> (r: Self)
        ensures
            r@ == Seq::<Box<dyn Collector>>::empty(),
            ids(r@) == Seq::<Seq<char>>::empty(),
    {
        Registry::new()
    }
}

// ------------------------------------------------------------------ selection

/// What each string says.
pub open spec fn string_views(v: Seq<String>) -> Seq<Seq<char>> {
    Seq::new(v.len(), |i: int| v[i]@)
}

/// Whether the collector of that name is enabled: where some are named as the
/// only ones it must be one of them, and it must not be disabled.
pub open spec fn is_enabled(
    id: Seq<char>,
    only: Seq<Seq<char>>,
    disabled: Seq<Seq<char>>,
) -> bool {
    (only.len() == 0 || only.contains(id)) && !disabled.contains(id)
}

/// The collectors that are enabled.
pub open spec fn enabled<C: Collector + ?Sized>(
    all: Seq<Box<C>>,
    only: Seq<Seq<char>>,
    disabled: Seq<Seq<char>>,
) -> Seq<Box<C>>
    decreases all.len(),
{
    if all.len() == 0 {
        seq![]
    } else if is_enabled(all.last().id(), only, disabled) {
        enabled(all.drop_last(), only, disabled).push(all.last())
    } else {
        enabled(all.drop_last(), only, disabled)
    }
}

/// The names that are enabled.
pub open spec fn enabled_ids(
    all: Seq<Seq<char>>,
    only: Seq<Seq<char>>,
    disabled: Seq<Seq<char>>,
) -> Seq<Seq<char>>
    decreases all.len(),
{
    if all.len() == 0 {
        seq![]
    } else if is_enabled(all.last(), only, disabled) {
        enabled_ids(all.drop_last(), only, disabled).push(all.last())
    } else {
        enabled_ids(all.drop_last(), only, disabled)
    }
}

proof fn lemma_enabled_ids<C: Collector + ?Sized>(
    all: Seq<Box<C>>,
    only: Seq<Seq<char>>,
    disabled: Seq<Seq<char>>,
)
    ensures
        ids(enabled(all, only, disabled)) == enabled_ids(ids(all), only, disabled),
    decreases all.len(),
{
    if all.len() == 0 {
        assert(ids(enabled(all, only, disabled)) =~= seq![]);
    } else {
        lemma_enabled_ids(all.drop_last(), only, disabled);
        assert(ids(all).drop_last() =~= ids(all.drop_last()));
        assert(ids(all).last() == all.last().id());
        if is_enabled(all.last().id(), only, disabled) {
            let picked = enabled(all.drop_last(), only, disabled);
            assert(ids(picked.push(all.last())) =~= ids(picked).push(all.last().id()));
        }
    }
}

fn named(names: &[String], name: &str) -> (r: bool)
    ensures
        r == string_views(names@).contains(name@),
{
    let ghost all = string_views(names@);
    let mut i: usize = 0;
    while i < names.len()
        invariant
            i <= names@.len(),
            all == string_views(names@),
            forall|j: int| 0 <= j < i ==> all[j] != name@,
        decreases names@.len() - i,
    {
        assert(all[i as int] == names@[i as int]@);
        if same_str(names[i].as_str(), name) {
            return true;
        }
        i = i + 1;
    }
    false
}

/// Picks the collectors that are enabled.
fn select<C: Collector + ?Sized>(all: Vec<Box<C>>, only: &[String], disabled: &[String]) -> (r: Vec<
    Box<C>,
>)
    ensures
        r@ == enabled(all@, string_views(only@), string_views(disabled@)),
{
    let mut out: Vec<Box<C>> = Vec::new();
    for c in it: all
        invariant
            it.seq() == all@,
            out@ == enabled(
                all@.take(it.index()),
                string_views(only@),
                string_views(disabled@),
            ),
    {
        proof {
            assert(all@.take(it.index() + 1).drop_last() =~= all@.take(it.index()));
        }
        let name = c.name();
        if (only.len() == 0 || named(only, name)) && !named(disabled, name) {
            out.push(c);
        }
    }
    assert(all@.take(all@.len() as int) =~= all@);
    out
}

/// Registers the collectors that are enabled.
pub fn build_registry(all: Vec<Box<dyn Collector>>, only: &[String], disabled: &[String]) -> (r:
    Registry)
    ensures
        r@ == enabled(all@, string_views(only@), string_views(disabled@)),
        ids(r@) == enabled_ids(ids(all@), string_views(only@), string_views(disabled@)),
{
    proof {
        lemma_enabled_ids(all@, string_views(only@), string_views(disabled@));
    }
    Registry { collectors: select(all, only, disabled) }
}

/// What is registered are exactly the enabled ones among all collectors.
pub proof fn registered_are_the_enabled<C: Collector + ?Sized>(
    all: Seq<Box<C>>,
    only: Seq<Seq<char>>,
    disabled: Seq<Seq<char>>,
    c: Box<C>,
)
    ensures
        enabled(all, only, disabled).contains(c) == (all.contains(c) && is_enabled(
            c.id(),
            only,
            disabled,
        )),
    decreases all.len(),
{
    if all.len() > 0 {
        let front = all.drop_last();
        let picked = enabled(front, only, disabled);
        registered_are_the_enabled(front, only, disabled, c);
        assert(all =~= front.push(all.last()));
        lemma_contains_push(front, all.last(), c);
        lemma_contains_push(picked, all.last(), c);
    }
}

proof fn lemma_contains_push<T>(s: Seq<T>, x: T, y: T)
    ensures
        s.push(x).contains(y) == (s.contains(y) || x == y),
{
    if s.contains(y) {
        let k = choose|k: int| 0 <= k < s.len() && s[k] == y;
        assert(s.push(x)[k] == y);
    }
    if x == y {
        assert(s.push(x)[s.len() as int] == y);
    }
}

/// How each run went is told under its own name: 1 or 0 for success, and the time
/// that it took in seconds, with the nanoseconds as a fraction. The two families
/// come last.
pub proof fn every_run_tells_how_it_went(runs: Seq<RunView>, i: int)
    requires
        0 <= i < runs.len(),
    ensures
        ({
            let families = assembled(runs);
            let successes = families[families.len() - 2];
            let durations = families[families.len() - 1];
            &&& successes.name == "node_scrape_collector_success"@
            &&& successes.mtype == MetricType::Gauge
            &&& successes.samples.len() == runs.len()
            &&& successes.samples[i].labels == seq![("collector"@, runs[i].name)]
            &&& quantity::stands_for(
                successes.samples[i].value,
                if runs[i].outcome is Ok {
                    1
                } else {
                    0
                },
                1,
            )
            &&& durations.name == "node_scrape_collector_duration_seconds"@
            &&& durations.mtype == MetricType::Gauge
            &&& durations.samples.len() == runs.len()
            &&& durations.samples[i].labels == seq![("collector"@, runs[i].name)]
            &&& quantity::stands_for(
                durations.samples[i].value,
                runs[i].secs * 1_000_000_000 + runs[i].nanos,
                1_000_000_000,
            )
        }),
{
    assert(success_sample(runs[i]).labels =~= seq![("collector"@, runs[i].name)]);
    assert(duration_sample(runs[i]).labels =~= seq![("collector"@, runs[i].name)]);
}

/// The families of a scrape are those of the runs that succeeded, run after run,
/// and the two that tell how the runs went.
pub proof fn every_family_is_in_the_scrape(runs: Seq<RunView>)
    ensures
        assembled(runs).len() == rows::joined(
            Seq::new(runs.len(), |i: int| run_families()(runs[i])),
        ).len() + 2,
        assembled(runs).take(assembled(runs).len() - 2) == rows::joined(
            Seq::new(
                runs.len(),
                |i: int|
                    if runs[i].outcome is Ok {
                        runs[i].outcome->Ok_0
                    } else {
                        seq![]
                    },
            ),
        ),
{
    let parts = Seq::new(
        runs.len(),
        |i: int|
            if runs[i].outcome is Ok {
                runs[i].outcome->Ok_0
            } else {
                seq![]
            },
    );
    lemma_run_parts(runs);
    assert(parts =~= Seq::new(runs.len(), |i: int| run_families()(runs[i])));
    assert(assembled(runs).take(assembled(runs).len() - 2) =~= rows::per_row(runs, run_families()));
}

proof fn lemma_run_parts(runs: Seq<RunView>)
    ensures
        rows::per_row(runs, run_families()) == rows::joined(
            Seq::new(runs.len(), |i: int| run_families()(runs[i])),
        ),
    decreases runs.len(),
{
    let parts = Seq::new(runs.len(), |i: int| run_families()(runs[i]));
    if runs.len() > 0 {
        let front = runs.drop_last();
        lemma_run_parts(front);
        assert(parts.drop_last() =~= Seq::new(front.len(), |i: int| run_families()(front[i])));
        assert(parts.last() == run_families()(runs.last()));
    }
}

/// A collector that is disabled is not enabled, whatever else is named. Where
/// some are named as the only ones the others are not enabled; where none are,
/// all that are not disabled are.
pub proof fn disabled_collectors_stay_out(
    id: Seq<char>,
    only: Seq<Seq<char>>,
    disabled: Seq<Seq<char>>,
)
    ensures
        disabled.contains(id) ==> !is_enabled(id, only, disabled),
        !disabled.contains(id) && only.contains(id) ==> is_enabled(id, only, disabled),
        !disabled.contains(id) && only.len() == 0 ==> is_enabled(id, only, disabled),
        only.len() > 0 && !only.contains(id) ==> !is_enabled(id, only, disabled),
{
}

/// The enabled collectors keep their order, and each comes as often as it did.
pub proof fn enabled_collectors_keep_their_order(
    all: Seq<Seq<char>>,
    only: Seq<Seq<char>>,
    disabled: Seq<Seq<char>>,
)
    ensures
        enabled_ids(all, only, disabled) == all.filter_map(
            |id: Seq<char>|
                if is_enabled(id, only, disabled) {
                    Some(id)
                } else {
                    None
                },
        ),
    decreases all.len(),
{
    if all.len() > 0 {
        enabled_collectors_keep_their_order(all.drop_last(), only, disabled);
        let before = enabled_ids(all.drop_last(), only, disabled);
        assert(before.push(all.last()) =~= before + seq![all.last()]);
    }
}

} // verus!
