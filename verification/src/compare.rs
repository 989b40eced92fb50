//! Comparison of a baseline run against a current run.
//!
//! The statistics of a compared pair (means, relative change, Welch p-value,
//! Cohen's d) are floating point and are computed by the caller; everything
//! that is decided about them lives here: which benchmarks are compared,
//! missing, new or ignored ([`plan_rows`]), the verdict of a compared pair
//! ([`compute_row`]), which rows enter the multiple-comparison correction
//! ([`tested_rows`], [`apply_correction`]), and the order of the report
//! ([`DiffReport::assemble`]).
use vstd::prelude::*;
use crate::config::{Config, ignored_by};
use crate::ieee::{lt, le, abs, is_nan, lt_exec, le_exec, abs_exec, ONE_BITS};
use crate::sample::{Run, BenchmarkView, first_named, lemma_first_named};
use crate::text::copy_str;

verus! {

/// Per-benchmark verdict.
#[derive(Debug, Clone, Copy, PartialEq, Eq, Structural)]
pub enum Verdict {
    /// Statistically significant slowdown above threshold.
    Regression,
    /// Statistically significant speedup above threshold.
    Improvement,
    /// Change is either not significant or below threshold.
    Unchanged,
    /// Present in baseline but missing from current run.
    MissingFromCurrent,
    /// Present in current run but missing from baseline.
    NewInCurrent,
    /// Ignored by config patterns.
    Ignored,
    /// Not enough samples to compute the t-test.
    Insufficient,
}

pub open spec fn verdict_text(v: Verdict) -> Seq<char> {
    match v {
        Verdict::Regression => "regression"@,
        Verdict::Improvement => "improvement"@,
        Verdict::Unchanged => "unchanged"@,
        Verdict::MissingFromCurrent => "missing"@,
        Verdict::NewInCurrent => "new"@,
        Verdict::Ignored => "ignored"@,
        Verdict::Insufficient => "insufficient"@,
    }
}

impl Verdict {
    pub fn as_str(self) -> (r: &'static str)
        ensures
            r@ == verdict_text(self),
    {
        match self {
            Verdict::Regression => "regression",
            Verdict::Improvement => "improvement",
            Verdict::Unchanged => "unchanged",
            Verdict::MissingFromCurrent => "missing",
            Verdict::NewInCurrent => "new",
            Verdict::Ignored => "ignored",
            Verdict::Insufficient => "insufficient",
        }
    }

    pub fn is_regression(self) -> (r: bool)
        ensures
            r == (self == Verdict::Regression),
    {
        matches!(self, Verdict::Regression)
    }
}

/// One row of a comparison. Means, change, p-value and effect size are
/// IEEE-754 encodings of doubles.
#[derive(Debug, Clone)]
pub struct DiffRow {
    pub name: String,
    pub baseline_mean_ns: u64,
    pub current_mean_ns: u64,
    pub n_baseline: usize,
    pub n_current: usize,
    /// Relative change `(current - baseline) / baseline`. Positive = slower.
    pub rel_change: u64,
    /// Two-sided p-value, or `1.0` when not computed.
    pub p_value: u64,
    /// Cohen's d effect size.
    pub cohens_d: u64,
    pub verdict: Verdict,
}

pub struct DiffRowView {
    pub name: Seq<char>,
    pub baseline_mean_ns: u64,
    pub current_mean_ns: u64,
    pub n_baseline: nat,
    pub n_current: nat,
    pub rel_change: u64,
    pub p_value: u64,
    pub cohens_d: u64,
    pub verdict: Verdict,
}

impl View for DiffRow {
    type V = DiffRowView;

    open spec fn view(&self) -> DiffRowView {
        DiffRowView {
            name: self.name@,
            baseline_mean_ns: self.baseline_mean_ns,
            current_mean_ns: self.current_mean_ns,
            n_baseline: self.n_baseline as nat,
            n_current: self.n_current as nat,
            rel_change: self.rel_change,
            p_value: self.p_value,
            cohens_d: self.cohens_d,
            verdict: self.verdict,
        }
    }
}

pub open spec fn rows_view(rows: Seq<DiffRow>) -> Seq<DiffRowView> {
    rows.map_values(|r: DiffRow| r@)
}

/// Full comparison result.
#[derive(Debug, Clone)]
pub struct DiffReport {
    pub baseline_label: String,
    pub rows: Vec<DiffRow>,
    pub alpha: u64,
    pub min_relative_change: u64,
    pub correction: String,
}

/// Number of rows with verdict `v`.
pub open spec fn count_verdict(rows: Seq<DiffRowView>, v: Verdict) -> nat
    decreases rows.len(),
{
    if rows.len() == 0 {
        0
    } else {
        count_verdict(rows.drop_last(), v) + if rows.last().verdict == v {
            1nat
        } else {
            0nat
        }
    }
}

fn count_rows(rows: &Vec<DiffRow>, v: Verdict) -> (r: usize)
    ensures
        r == count_verdict(rows_view(rows@), v),
{
    let ghost rv = rows_view(rows@);
    let mut c: usize = 0;
    for i in 0..rows.len()
        invariant
            rv == rows_view(rows@),
            c == count_verdict(rv.take(i as int), v),
            c <= i,
    {
        assert(rv.take(i + 1).drop_last() == rv.take(i as int));
        assert(rv.take(i + 1).last() == rows@[i as int]@);
        if rows[i].verdict == v {
            c = c + 1;
        }
    }
    assert(rv.take(rows.len() as int) == rv);
    c
}

impl DiffReport {
    pub fn regressions(&self) -> (r: usize)
        ensures
            r == count_verdict(rows_view(self.rows@), Verdict::Regression),
    {
        count_rows(&self.rows, Verdict::Regression)
    }

    pub fn improvements(&self) -> (r: usize)
        ensures
            r == count_verdict(rows_view(self.rows@), Verdict::Improvement),
    {
        count_rows(&self.rows, Verdict::Improvement)
    }

    pub fn unchanged(&self) -> (r: usize)
        ensures
            r == count_verdict(rows_view(self.rows@), Verdict::Unchanged),
    {
        count_rows(&self.rows, Verdict::Unchanged)
    }
}

// ---------------------------------------------------------------------------
// Which benchmarks become which rows
// ---------------------------------------------------------------------------

/// How a row of the report comes about.
#[derive(Debug, Clone, Copy, PartialEq, Eq, Structural)]
pub enum RowKind {
    /// Baseline benchmark `baseline` is compared with current benchmark `current`.
    Compared { baseline: usize, current: usize },
    MissingFromCurrent,
    NewInCurrent,
    Ignored,
}

/// A row to be produced, before any statistics.
pub struct PlannedRow {
    pub name: String,
    pub kind: RowKind,
}

pub struct PlannedRowView {
    pub name: Seq<char>,
    pub kind: RowKind,
}

impl View for PlannedRow {
    type V = PlannedRowView;

    open spec fn view(&self) -> PlannedRowView {
        PlannedRowView { name: self.name@, kind: self.kind }
    }
}

pub open spec fn planned_view(rows: Seq<PlannedRow>) -> Seq<PlannedRowView> {
    rows.map_values(|r: PlannedRow| r@)
}

/// The row of the `i`-th baseline benchmark.
pub open spec fn baseline_row(
    bs: Seq<BenchmarkView>,
    cs: Seq<BenchmarkView>,
    ps: Seq<Seq<char>>,
    i: int,
) -> PlannedRowView {
    let name = bs[i].name;
    PlannedRowView {
        name,
        kind: if ignored_by(ps, name) {
            RowKind::Ignored
        } else {
            match first_named(cs, name) {
                None => RowKind::MissingFromCurrent,
                Some(c) => RowKind::Compared { baseline: i as usize, current: c as usize },
            }
        },
    }
}

/// The rows of the current benchmarks absent from the baseline, in order.
pub open spec fn new_rows(
    bs: Seq<BenchmarkView>,
    cs: Seq<BenchmarkView>,
    ps: Seq<Seq<char>>,
) -> Seq<PlannedRowView>
    decreases cs.len(),
{
    if cs.len() == 0 {
        Seq::empty()
    } else {
        let rest = new_rows(bs, cs.drop_last(), ps);
        let name = cs.last().name;
        if first_named(bs, name) is Some {
            rest
        } else {
            rest.push(
                PlannedRowView {
                    name,
                    kind: if ignored_by(ps, name) {
                        RowKind::Ignored
                    } else {
                        RowKind::NewInCurrent
                    },
                },
            )
        }
    }
}

/// All rows: one per baseline benchmark, in order, then one per current
/// benchmark that the baseline lacks.
pub open spec fn plan_spec(
    bs: Seq<BenchmarkView>,
    cs: Seq<BenchmarkView>,
    ps: Seq<Seq<char>>,
) -> Seq<PlannedRowView> {
    Seq::new(bs.len(), |i: int| baseline_row(bs, cs, ps, i)) + new_rows(bs, cs, ps)
}

/// Every compared pair of `plan` points at a benchmark of each run.
pub open spec fn plan_in_range(plan: Seq<PlannedRowView>, nb: int, nc: int) -> bool {
    forall|k: int|
        0 <= k < plan.len() ==> match #[trigger] plan[k].kind {
            RowKind::Compared { baseline, current } => baseline < nb && current < nc,
            _ => true,
        }
}

proof fn lemma_new_rows_not_compared(bs: Seq<BenchmarkView>, cs: Seq<BenchmarkView>, ps: Seq<Seq<char>>)
    ensures
        forall|k: int| 0 <= k < new_rows(bs, cs, ps).len() ==> !(#[trigger] new_rows(bs, cs, ps)[k].kind is Compared),
    decreases cs.len(),
{
    if cs.len() > 0 {
        lemma_new_rows_not_compared(bs, cs.drop_last(), ps);
    }
}

proof fn lemma_plan_in_range(bs: Seq<BenchmarkView>, cs: Seq<BenchmarkView>, ps: Seq<Seq<char>>)
    requires
        bs.len() <= usize::MAX,
        cs.len() <= usize::MAX,
    ensures
        plan_in_range(plan_spec(bs, cs, ps), bs.len() as int, cs.len() as int),
{
    let plan = plan_spec(bs, cs, ps);
    let head = Seq::new(bs.len(), |i: int| baseline_row(bs, cs, ps, i));
    lemma_new_rows_not_compared(bs, cs, ps);
    assert forall|k: int| 0 <= k < plan.len() implies match #[trigger] plan[k].kind {
        RowKind::Compared { baseline, current } => baseline < bs.len() && current < cs.len(),
        _ => true,
    } by {
        if k < bs.len() {
            lemma_first_named(cs, bs[k].name);
        } else {
            assert(plan[k] == new_rows(bs, cs, ps)[k - head.len()]);
        }
    }
}

/// The rows of a comparison, before statistics: each baseline benchmark is
/// ignored, missing from the current run, or compared with the first current
/// benchmark of the same name; then each current benchmark absent from the
/// baseline is new (or ignored).
pub fn plan_rows(baseline: &Run, current: &Run, cfg: &Config) -> (r: Vec<PlannedRow>)
    ensures
        planned_view(r@) == plan_spec(
            baseline@.benchmarks,
            current@.benchmarks,
            cfg.ignore.patterns_view(),
        ),
        plan_in_range(
            planned_view(r@),
            baseline@.benchmarks.len() as int,
            current@.benchmarks.len() as int,
        ),
{
    let ghost bs = baseline@.benchmarks;
    let ghost cs = current@.benchmarks;
    let ghost ps = cfg.ignore.patterns_view();
    let mut rows: Vec<PlannedRow> = Vec::new();
    for i in 0..baseline.benchmarks.len()
        invariant
            bs == baseline@.benchmarks,
            cs == current@.benchmarks,
            ps == cfg.ignore.patterns_view(),
            planned_view(rows@) == Seq::new(i as nat, |k: int| baseline_row(bs, cs, ps, k)),
    {
        let name = baseline.benchmarks[i].name.as_str();
        assert(bs[i as int].name == name@);
        let kind = if cfg.is_ignored(name) {
            RowKind::Ignored
        } else {
            match current.find_index(name) {
                None => RowKind::MissingFromCurrent,
                Some(c) => RowKind::Compared { baseline: i, current: c },
            }
        };
        let ghost before = planned_view(rows@);
        rows.push(PlannedRow { name: copy_str(name), kind });
        assert(planned_view(rows@) == before.push(baseline_row(bs, cs, ps, i as int)));
        assert(planned_view(rows@) =~= Seq::new((i + 1) as nat, |k: int| baseline_row(bs, cs, ps, k)));
    }
    let ghost head = planned_view(rows@);
    for j in 0..current.benchmarks.len()
        invariant
            bs == baseline@.benchmarks,
            cs == current@.benchmarks,
            ps == cfg.ignore.patterns_view(),
            head == Seq::new(bs.len(), |k: int| baseline_row(bs, cs, ps, k)),
            planned_view(rows@) == head + new_rows(bs, cs.take(j as int), ps),
    {
        let name = current.benchmarks[j].name.as_str();
        assert(cs[j as int].name == name@);
        assert(cs.take(j + 1).drop_last() == cs.take(j as int));
        assert(cs.take(j + 1).last() == cs[j as int]);
        if baseline.find_index(name).is_none() {
            let kind = if cfg.is_ignored(name) {
                RowKind::Ignored
            } else {
                RowKind::NewInCurrent
            };
            let ghost before = planned_view(rows@);
            rows.push(PlannedRow { name: copy_str(name), kind });
            assert(planned_view(rows@) == before.push(PlannedRowView { name: name@, kind }));
        }
    }
    assert(cs.take(cs.len() as int) == cs);
    proof {
        lemma_plan_in_range(bs, cs, ps);
    }
    rows
}

// ---------------------------------------------------------------------------
// The verdict of a compared pair
// ---------------------------------------------------------------------------

/// `f64::EPSILON` (2^-52).
pub const EPSILON_BITS: u64 = 0x3CB0_0000_0000_0000;

/// `f64::INFINITY`.
pub const INFINITY_BITS: u64 = 0x7FF0_0000_0000_0000;

/// The floating-point statistics of a compared pair, as IEEE-754 encodings,
/// over the samples normalized to nanoseconds.
#[derive(Debug, Clone, Copy)]
pub struct PairStats {
    /// Mean of the baseline samples.
    pub mean_a: u64,
    /// Mean of the current samples.
    pub mean_b: u64,
    /// `(mean_b - mean_a) / mean_a`.
    pub quotient: u64,
    /// Two-sided Welch p-value (used when both sides have two samples or more).
    pub p: u64,
    /// Cohen's d (used when both sides have two samples or more).
    pub d: u64,
}

/// The relative change: `0` when both means are (nearly) zero, `+inf` when
/// only the baseline mean is, the quotient otherwise.
pub open spec fn rel_change_spec(mean_a: u64, mean_b: u64, quotient: u64) -> u64 {
    if lt(abs(mean_a), EPSILON_BITS) {
        if lt(abs(mean_b), EPSILON_BITS) {
            0
        } else {
            INFINITY_BITS
        }
    } else {
        quotient
    }
}

/// The verdict of a compared pair: `Insufficient` without two samples on each
/// side; otherwise a regression (current mean larger) or an improvement when
/// the p-value is below `alpha` and the absolute relative change reaches the
/// tolerance; `Unchanged` otherwise.
pub open spec fn verdict_spec(
    n_a: nat,
    n_b: nat,
    mean_a: u64,
    mean_b: u64,
    rel: u64,
    p: u64,
    alpha: u64,
    tol: u64,
) -> Verdict {
    if n_a < 2 || n_b < 2 {
        Verdict::Insufficient
    } else if lt(p, alpha) && le(tol, abs(rel)) {
        if lt(mean_a, mean_b) {
            Verdict::Regression
        } else {
            Verdict::Improvement
        }
    } else {
        Verdict::Unchanged
    }
}

/// The tolerance of a benchmark: its override when it has a float one, the
/// minimum relative change otherwise.
pub open spec fn tolerance_spec(cfg: Config, name: Seq<char>) -> u64 {
    match cfg.tolerance.get_spec(name) {
        Some(Some(v)) => v,
        _ => cfg.min_relative_change,
    }
}

pub open spec fn compute_row_spec(
    name: Seq<char>,
    n_a: nat,
    n_b: nat,
    s: PairStats,
    cfg: Config,
) -> DiffRowView {
    let rel = rel_change_spec(s.mean_a, s.mean_b, s.quotient);
    let v = verdict_spec(n_a, n_b, s.mean_a, s.mean_b, rel, s.p, cfg.alpha, tolerance_spec(cfg, name));
    DiffRowView {
        name,
        baseline_mean_ns: s.mean_a,
        current_mean_ns: s.mean_b,
        n_baseline: n_a,
        n_current: n_b,
        rel_change: rel,
        p_value: if v == Verdict::Insufficient {
            ONE_BITS
        } else {
            s.p
        },
        cohens_d: if v == Verdict::Insufficient {
            0
        } else {
            s.d
        },
        verdict: v,
    }
}

/// The row of a compared pair with `n_a` baseline and `n_b` current samples.
pub fn compute_row(name: &str, n_a: usize, n_b: usize, stats: &PairStats, cfg: &Config) -> (r: DiffRow)
    ensures
        r@ == compute_row_spec(name@, n_a as nat, n_b as nat, *stats, *cfg),
{
    let rel = if lt_exec(abs_exec(stats.mean_a), EPSILON_BITS) {
        if lt_exec(abs_exec(stats.mean_b), EPSILON_BITS) {
            0
        } else {
            INFINITY_BITS
        }
    } else {
        stats.quotient
    };
    let (p, d, verdict) = if n_a < 2 || n_b < 2 {
        (ONE_BITS, 0u64, Verdict::Insufficient)
    } else {
        let significant = lt_exec(stats.p, cfg.alpha);
        let tol = match cfg.tolerance_for(name) {
            Some(t) => t,
            None => cfg.min_relative_change,
        };
        let big_enough = le_exec(tol, abs_exec(rel));
        let v = if significant && big_enough {
            if lt_exec(stats.mean_a, stats.mean_b) {
                Verdict::Regression
            } else {
                Verdict::Improvement
            }
        } else {
            Verdict::Unchanged
        };
        (stats.p, stats.d, v)
    };
    DiffRow {
        name: copy_str(name),
        baseline_mean_ns: stats.mean_a,
        current_mean_ns: stats.mean_b,
        n_baseline: n_a,
        n_current: n_b,
        rel_change: rel,
        p_value: p,
        cohens_d: d,
        verdict,
    }
}

pub open spec fn missing_row_spec(name: Seq<char>, v: Verdict) -> DiffRowView {
    DiffRowView {
        name,
        baseline_mean_ns: 0,
        current_mean_ns: 0,
        n_baseline: 0,
        n_current: 0,
        rel_change: 0,
        p_value: ONE_BITS,
        cohens_d: 0,
        verdict: v,
    }
}

/// A row without statistics (missing, new or ignored): zeros, p-value `1.0`.
pub fn missing_row(name: &str, v: Verdict) -> (r: DiffRow)
    ensures
        r@ == missing_row_spec(name@, v),
{
    DiffRow {
        name: copy_str(name),
        baseline_mean_ns: 0,
        current_mean_ns: 0,
        n_baseline: 0,
        n_current: 0,
        rel_change: 0,
        p_value: ONE_BITS,
        cohens_d: 0,
        verdict: v,
    }
}

/// A change is flagged only when it is both statistically significant and
/// large enough: a regression or an improvement has a p-value below `alpha`
/// and an absolute relative change of at least the benchmark's tolerance; a
/// regression has a larger current mean, an improvement does not. With fewer
/// than two samples on either side the verdict is `Insufficient`.
pub proof fn law_flagged_changes_are_significant_and_large(
    name: Seq<char>,
    n_a: nat,
    n_b: nat,
    s: PairStats,
    cfg: Config,
)
    ensures
        ({
            let r = compute_row_spec(name, n_a, n_b, s, cfg);
            &&& (r.verdict == Verdict::Regression || r.verdict == Verdict::Improvement) ==> lt(
                r.p_value,
                cfg.alpha,
            ) && le(tolerance_spec(cfg, name), abs(r.rel_change))
            &&& r.verdict == Verdict::Regression ==> lt(s.mean_a, s.mean_b)
            &&& r.verdict == Verdict::Improvement ==> !lt(s.mean_a, s.mean_b)
            &&& (n_a < 2 || n_b < 2) <==> r.verdict == Verdict::Insufficient
        }),
{
}

/// A significant change is flagged exactly when it reaches the benchmark's
/// tolerance: with at least two samples on each side and a p-value below
/// `alpha`, the row is a regression or an improvement if and only if the
/// absolute relative change is at least the benchmark's float override `t`
/// when it has one (whether `t` is above or below the global minimum), and
/// at least `min_relative_change` otherwise.
pub proof fn law_tolerance_override_is_the_threshold(
    name: Seq<char>,
    n_a: nat,
    n_b: nat,
    s: PairStats,
    cfg: Config,
)
    requires
        n_a >= 2,
        n_b >= 2,
        lt(s.p, cfg.alpha),
    ensures
        ({
            let r = compute_row_spec(name, n_a, n_b, s, cfg);
            let flagged = r.verdict == Verdict::Regression || r.verdict == Verdict::Improvement;
            &&& forall|t: u64|
                cfg.tolerance.get_spec(name) == Some(Some(t)) ==> {
                    &&& tolerance_spec(cfg, name) == t
                    &&& (flagged <==> le(t, abs(r.rel_change)))
                }
            &&& (forall|t: u64| cfg.tolerance.get_spec(name) != Some(Some(t))) ==> (flagged <==> le(
                cfg.min_relative_change,
                abs(r.rel_change),
            ))
        }),
{
    let r = compute_row_spec(name, n_a, n_b, s, cfg);
    match cfg.tolerance.get_spec(name) {
        Some(Some(t)) => {
            assert(cfg.tolerance.get_spec(name) == Some(Some(t)));
        },
        _ => {},
    }
}

/// Every benchmark of either run is accounted for: each baseline benchmark
/// has its own row, in order and under its name, and every current
/// benchmark's name is the name of some row.
pub proof fn law_plan_covers_both_runs(
    bs: Seq<BenchmarkView>,
    cs: Seq<BenchmarkView>,
    ps: Seq<Seq<char>>,
)
    ensures
        plan_spec(bs, cs, ps).len() >= bs.len(),
        forall|i: int| 0 <= i < bs.len() ==> (#[trigger] plan_spec(bs, cs, ps)[i]).name == bs[i].name,
        forall|j: int|
            0 <= j < cs.len() ==> exists|k: int|
                0 <= k < plan_spec(bs, cs, ps).len() && (#[trigger] plan_spec(bs, cs, ps)[k]).name
                    == (#[trigger] cs[j]).name,
{
    let plan = plan_spec(bs, cs, ps);
    let head = Seq::new(bs.len(), |i: int| baseline_row(bs, cs, ps, i));
    assert forall|j: int| 0 <= j < cs.len() implies exists|k: int|
        0 <= k < plan.len() && (#[trigger] plan[k]).name == (#[trigger] cs[j]).name by {
        let name = cs[j].name;
        lemma_first_named(bs, name);
        match first_named(bs, name) {
            Some(i) => {
                assert(plan[i].name == name);
            },
            None => {
                lemma_new_rows_cover(bs, cs, ps, j);
                let m = choose|m: int| 0 <= m < new_rows(bs, cs, ps).len() && new_rows(bs, cs, ps)[m].name == name;
                assert(plan[head.len() + m] == new_rows(bs, cs, ps)[m]);
            },
        }
    }
}

proof fn lemma_new_rows_cover(bs: Seq<BenchmarkView>, cs: Seq<BenchmarkView>, ps: Seq<Seq<char>>, j: int)
    requires
        0 <= j < cs.len(),
        first_named(bs, cs[j].name) is None,
    ensures
        exists|m: int| 0 <= m < new_rows(bs, cs, ps).len() && new_rows(bs, cs, ps)[m].name == cs[j].name,
    decreases cs.len(),
{
    let rest = new_rows(bs, cs.drop_last(), ps);
    if j == cs.len() - 1 {
        assert(new_rows(bs, cs, ps)[rest.len() as int].name == cs[j].name);
    } else {
        assert(cs.drop_last()[j] == cs[j]);
        lemma_new_rows_cover(bs, cs.drop_last(), ps, j);
        let m = choose|m: int| 0 <= m < rest.len() && rest[m].name == cs[j].name;
        assert(new_rows(bs, cs, ps)[m] == rest[m]);
    }
}

/// The row of a planned row: compared pairs judged from their statistics
/// `s`, other rows without statistics.
#[verifier::opaque]
pub open spec fn row_of_plan(
    bs: Seq<BenchmarkView>,
    cs: Seq<BenchmarkView>,
    p: PlannedRowView,
    s: PairStats,
    cfg: Config,
) -> DiffRowView {
    match p.kind {
        RowKind::Compared { baseline, current } => compute_row_spec(
            p.name,
            bs[baseline as int].samples.len(),
            cs[current as int].samples.len(),
            s,
            cfg,
        ),
        RowKind::MissingFromCurrent => missing_row_spec(p.name, Verdict::MissingFromCurrent),
        RowKind::NewInCurrent => missing_row_spec(p.name, Verdict::NewInCurrent),
        RowKind::Ignored => missing_row_spec(p.name, Verdict::Ignored),
    }
}

/// The rows of a plan, in order; `stats[k]` are the statistics of the
/// samples of planned row `k` when it is a compared pair (and are not looked
/// at otherwise).
pub fn rows_from_plan(
    baseline: &Run,
    current: &Run,
    plan: &Vec<PlannedRow>,
    stats: &Vec<PairStats>,
    cfg: &Config,
) -> (r: Vec<DiffRow>)
    requires
        stats@.len() == plan@.len(),
        plan_in_range(
            planned_view(plan@),
            baseline@.benchmarks.len() as int,
            current@.benchmarks.len() as int,
        ),
    ensures
        rows_view(r@) == Seq::new(
            plan@.len(),
            |k: int|
                row_of_plan(
                    baseline@.benchmarks,
                    current@.benchmarks,
                    plan@[k]@,
                    stats@[k],
                    *cfg,
                ),
        ),
{
    let ghost pv = planned_view(plan@);
    let mut rows: Vec<DiffRow> = Vec::new();
    for k in 0..plan.len()
        invariant
            stats@.len() == plan@.len(),
            pv == planned_view(plan@),
            plan_in_range(pv, baseline@.benchmarks.len() as int, current@.benchmarks.len() as int),
            rows@.len() == k,
            forall|m: int|
                0 <= m < k ==> (#[trigger] rows@[m])@ == row_of_plan(
                    baseline@.benchmarks,
                    current@.benchmarks,
                    plan@[m]@,
                    stats@[m],
                    *cfg,
                ),
    {
        let p = &plan[k];
        assert(pv[k as int] == p@);
        assert(pv[k as int].kind == p.kind);
        let ghost want = row_of_plan(
            baseline@.benchmarks,
            current@.benchmarks,
            plan@[k as int]@,
            stats@[k as int],
            *cfg,
        );
        let row = match p.kind {
            RowKind::Compared { baseline: i, current: j } => {
                let n_a = baseline.benchmarks[i].samples.len();
                let n_b = current.benchmarks[j].samples.len();
                compute_row(p.name.as_str(), n_a, n_b, &stats[k], cfg)
            },
            RowKind::MissingFromCurrent => missing_row(p.name.as_str(), Verdict::MissingFromCurrent),
            RowKind::NewInCurrent => missing_row(p.name.as_str(), Verdict::NewInCurrent),
            RowKind::Ignored => missing_row(p.name.as_str(), Verdict::Ignored),
        };
        assert(row@ == want) by {
            reveal(row_of_plan);
        }
        let ghost before = rows@;
        rows.push(row);
        assert forall|m: int| 0 <= m < k + 1 implies (#[trigger] rows@[m])@ == row_of_plan(
            baseline@.benchmarks,
            current@.benchmarks,
            plan@[m]@,
            stats@[m],
            *cfg,
        ) by {
            if m < k {
                assert(rows@[m] == before[m]);
            }
        }
    }
    assert(rows_view(rows@) =~= Seq::new(
        plan@.len(),
        |k: int| row_of_plan(baseline@.benchmarks, current@.benchmarks, plan@[k]@, stats@[k], *cfg),
    ));
    rows
}

// ---------------------------------------------------------------------------
// Multiple-comparison correction
// ---------------------------------------------------------------------------

pub open spec fn is_tested(v: Verdict) -> bool {
    v == Verdict::Regression || v == Verdict::Improvement || v == Verdict::Unchanged
}

/// Indices of the rows that took part in a t-test, in increasing order.
pub open spec fn tested_spec(rows: Seq<DiffRowView>) -> Seq<int>
    decreases rows.len(),
{
    if rows.len() == 0 {
        Seq::empty()
    } else {
        let rest = tested_spec(rows.drop_last());
        if is_tested(rows.last().verdict) {
            rest.push(rows.len() - 1)
        } else {
            rest
        }
    }
}

proof fn lemma_tested_spec(rows: Seq<DiffRowView>)
    ensures
        forall|k: int|
            0 <= k < tested_spec(rows).len() ==> 0 <= #[trigger] tested_spec(rows)[k] < rows.len()
                && is_tested(rows[tested_spec(rows)[k]].verdict),
        forall|a: int, b: int|
            0 <= a < b < tested_spec(rows).len() ==> #[trigger] tested_spec(rows)[a]
                < #[trigger] tested_spec(rows)[b],
        forall|i: int|
            0 <= i < rows.len() && is_tested(#[trigger] rows[i].verdict) ==> tested_spec(rows).contains(i),
    decreases rows.len(),
{
    if rows.len() > 0 {
        let d = rows.drop_last();
        lemma_tested_spec(d);
        let rest = tested_spec(d);
        assert forall|i: int| 0 <= i < rows.len() && is_tested(#[trigger] rows[i].verdict) implies tested_spec(rows).contains(i) by {
            if i < rows.len() - 1 {
                assert(d[i] == rows[i]);
                let k = choose|k: int| 0 <= k < rest.len() && rest[k] == i;
                if is_tested(rows.last().verdict) {
                    assert(tested_spec(rows)[k] == i);
                } else {
                    assert(tested_spec(rows)[k] == i);
                }
            } else {
                assert(tested_spec(rows).last() == i);
            }
        }
    }
}

/// The rows entering the correction are exactly the rows that got a
/// t-test: each tested index is that of a regression, an improvement or an
/// unchanged row (never an insufficient, missing, new or ignored one), every
/// such row is tested, and the indices increase.
pub proof fn law_tested_rows_are_the_t_tests(rows: Seq<DiffRowView>)
    ensures
        forall|k: int|
            0 <= k < tested_spec(rows).len() ==> {
                let i = #[trigger] tested_spec(rows)[k];
                &&& 0 <= i < rows.len()
                &&& rows[i].verdict == Verdict::Regression || rows[i].verdict == Verdict::Improvement
                    || rows[i].verdict == Verdict::Unchanged
            },
        forall|i: int|
            0 <= i < rows.len() && (rows[i].verdict == Verdict::Regression || rows[i].verdict
                == Verdict::Improvement || rows[i].verdict == Verdict::Unchanged) ==> #[trigger] tested_spec(rows).contains(i),
        forall|i: int|
            0 <= i < rows.len() && (rows[i].verdict == Verdict::Insufficient || rows[i].verdict
                == Verdict::MissingFromCurrent || rows[i].verdict == Verdict::NewInCurrent
                || rows[i].verdict == Verdict::Ignored) ==> !(#[trigger] tested_spec(rows).contains(i)),
        forall|a: int, b: int|
            0 <= a < b < tested_spec(rows).len() ==> #[trigger] tested_spec(rows)[a]
                < #[trigger] tested_spec(rows)[b],
{
    lemma_tested_spec(rows);
    assert forall|i: int|
        0 <= i < rows.len() && (rows[i].verdict == Verdict::Regression || rows[i].verdict
            == Verdict::Improvement || rows[i].verdict == Verdict::Unchanged) implies #[trigger] tested_spec(rows).contains(i) by {
        assert(is_tested(rows[i].verdict));
    }
    assert forall|i: int|
        0 <= i < rows.len() && (rows[i].verdict == Verdict::Insufficient || rows[i].verdict
            == Verdict::MissingFromCurrent || rows[i].verdict == Verdict::NewInCurrent
            || rows[i].verdict == Verdict::Ignored) implies !(#[trigger] tested_spec(rows).contains(i)) by {
        if tested_spec(rows).contains(i) {
            let k = choose|k: int| 0 <= k < tested_spec(rows).len() && tested_spec(rows)[k] == i;
            assert(is_tested(rows[tested_spec(rows)[k]].verdict));
        }
    }
}

/// The rows that took part in a t-test (regression, improvement or
/// unchanged): their indices, increasing, and their p-values.
pub fn tested_rows(rows: &Vec<DiffRow>) -> (r: (Vec<usize>, Vec<u64>))
    ensures
        r.0@.len() == tested_spec(rows_view(rows@)).len(),
        r.1@.len() == r.0@.len(),
        forall|k: int| 0 <= k < r.0@.len() ==> #[trigger] r.0@[k] as int == tested_spec(rows_view(rows@))[k],
        forall|k: int| 0 <= k < r.0@.len() ==> r.1@[k] == rows@[#[trigger] r.0@[k] as int].p_value,
{
    let ghost rv = rows_view(rows@);
    let mut idx: Vec<usize> = Vec::new();
    let mut ps: Vec<u64> = Vec::new();
    for i in 0..rows.len()
        invariant
            rv == rows_view(rows@),
            idx@.len() == tested_spec(rv.take(i as int)).len(),
            ps@.len() == idx@.len(),
            forall|k: int| 0 <= k < idx@.len() ==> #[trigger] idx@[k] as int == tested_spec(rv.take(i as int))[k],
            forall|k: int| 0 <= k < idx@.len() ==> idx@[k] < i,
            forall|k: int| 0 <= k < idx@.len() ==> ps@[k] == rows@[#[trigger] idx@[k] as int].p_value,
    {
        assert(rv.take(i + 1).drop_last() == rv.take(i as int));
        assert(rv.take(i + 1).last() == rows@[i as int]@);
        let v = rows[i].verdict;
        if matches!(v, Verdict::Regression | Verdict::Improvement | Verdict::Unchanged) {
            idx.push(i);
            ps.push(rows[i].p_value);
        }
    }
    assert(rv.take(rows.len() as int) == rv);
    (idx, ps)
}

/// The verdict after the correction: a regression or improvement whose test
/// is not rejected becomes unchanged.
pub open spec fn corrected(v: Verdict, reject: bool) -> Verdict {
    if !reject && (v == Verdict::Regression || v == Verdict::Improvement) {
        Verdict::Unchanged
    } else {
        v
    }
}

/// Apply a multiple-comparison correction: `tested[k]` is the index of the
/// `k`-th tested row and `reject[k]` whether its test stays rejected. Only
/// downgrades verdicts; no other field changes.
pub fn apply_correction(rows: &mut Vec<DiffRow>, tested: &Vec<usize>, reject: &Vec<bool>)
    requires
        tested@.len() == reject@.len(),
        forall|k: int| 0 <= k < tested@.len() ==> #[trigger] tested@[k] < old(rows)@.len(),
        forall|a: int, b: int| 0 <= a < b < tested@.len() ==> #[trigger] tested@[a] < #[trigger] tested@[b],
    ensures
        final(rows)@.len() == old(rows)@.len(),
        forall|i: int|
            0 <= i < final(rows)@.len() ==> {
                &&& (#[trigger] final(rows)@[i])@.name == old(rows)@[i]@.name
                &&& final(rows)@[i]@ == (DiffRowView { verdict: final(rows)@[i].verdict, ..old(rows)@[i]@ })
            },
        forall|k: int|
            0 <= k < tested@.len() ==> final(rows)@[#[trigger] tested@[k] as int].verdict == corrected(
                old(rows)@[tested@[k] as int].verdict,
                reject@[k],
            ),
        forall|i: int|
            0 <= i < final(rows)@.len() && !(exists|k: int| 0 <= k < tested@.len() && #[trigger] tested@[k] == i)
                ==> final(rows)@[i].verdict == old(rows)@[i].verdict,
{
    let ghost orig = rows@;
    for k in 0..tested.len()
        invariant
            tested@.len() == reject@.len(),
            forall|m: int| 0 <= m < tested@.len() ==> #[trigger] tested@[m] < orig.len(),
            forall|a: int, b: int| 0 <= a < b < tested@.len() ==> #[trigger] tested@[a] < #[trigger] tested@[b],
            rows@.len() == orig.len(),
            forall|i: int| 0 <= i < rows@.len() ==> (#[trigger] rows@[i])@ == (DiffRowView { verdict: rows@[i].verdict, ..orig[i]@ }),
            forall|m: int| 0 <= m < k ==> rows@[#[trigger] tested@[m] as int].verdict == corrected(orig[tested@[m] as int].verdict, reject@[m]),
            forall|i: int| 0 <= i < rows@.len() && !(exists|m: int| 0 <= m < k && #[trigger] tested@[m] == i) ==> rows@[i].verdict == orig[i].verdict,
    {
        let i = tested[k];
        let v = rows[i].verdict;
        if !reject[k] && (v == Verdict::Regression || v == Verdict::Improvement) {
            rows[i].verdict = Verdict::Unchanged;
        }
        assert(rows@[i as int].verdict == corrected(orig[i as int].verdict, reject@[k as int])) by {
            if exists|m: int| 0 <= m < k && #[trigger] tested@[m] == i {
                let m = choose|m: int| 0 <= m < k && #[trigger] tested@[m] == i;
                assert(tested@[m] < tested@[k as int]);
            }
        }
        assert forall|m: int| 0 <= m < k + 1 implies rows@[#[trigger] tested@[m] as int].verdict == corrected(orig[tested@[m] as int].verdict, reject@[m]) by {
            if m < k {
                assert(tested@[m] < tested@[k as int]);
            }
        }
    }
}

/// The correction never flags anything: a row keeps its verdict, or a
/// regression or improvement whose test is not rejected becomes unchanged;
/// a rejected test keeps its verdict.
pub proof fn law_correction_only_downgrades(v: Verdict, reject: bool)
    ensures
        corrected(v, reject) == v || (corrected(v, reject) == Verdict::Unchanged && (v
            == Verdict::Regression || v == Verdict::Improvement)),
        reject ==> corrected(v, reject) == v,
        corrected(v, reject) == Verdict::Regression ==> v == Verdict::Regression,
        corrected(v, reject) == Verdict::Improvement ==> v == Verdict::Improvement,
{
}

// ---------------------------------------------------------------------------
// Order of the report
// ---------------------------------------------------------------------------

/// Severity rank used to order the report.
pub open spec fn severity(v: Verdict) -> int {
    match v {
        Verdict::Regression => 0,
        Verdict::Improvement => 1,
        Verdict::Unchanged => 2,
        Verdict::Insufficient => 3,
        Verdict::MissingFromCurrent => 4,
        Verdict::NewInCurrent => 5,
        Verdict::Ignored => 6,
    }
}

fn severity_exec(v: Verdict) -> (r: u8)
    ensures
        r as int == severity(v),
{
    match v {
        Verdict::Regression => 0,
        Verdict::Improvement => 1,
        Verdict::Unchanged => 2,
        Verdict::Insufficient => 3,
        Verdict::MissingFromCurrent => 4,
        Verdict::NewInCurrent => 5,
        Verdict::Ignored => 6,
    }
}

/// The two orders in which rows are listed.
#[derive(Debug, Clone, Copy, PartialEq, Eq, Structural)]
pub enum RowOrder {
    /// Most severe verdict first; within a verdict, largest absolute change first.
    Severity,
    /// Largest absolute relative change first.
    Change,
}

/// Does row `a` come strictly before row `b` in the given order?
pub open spec fn row_before(order: RowOrder, a: DiffRowView, b: DiffRowView) -> bool {
    match order {
        RowOrder::Severity => severity(a.verdict) < severity(b.verdict) || (severity(a.verdict)
            == severity(b.verdict) && lt(abs(b.rel_change), abs(a.rel_change))),
        RowOrder::Change => lt(abs(b.rel_change), abs(a.rel_change)),
    }
}

fn row_before_exec(order: RowOrder, a: &DiffRow, b: &DiffRow) -> (r: bool)
    ensures
        r == row_before(order, a@, b@),
{
    match order {
        RowOrder::Severity => {
            let sa = severity_exec(a.verdict);
            let sb = severity_exec(b.verdict);
            sa < sb || (sa == sb && lt_exec(abs_exec(b.rel_change), abs_exec(a.rel_change)))
        },
        RowOrder::Change => lt_exec(abs_exec(b.rel_change), abs_exec(a.rel_change)),
    }
}

pub open spec fn no_nan_changes(rows: Seq<DiffRowView>) -> bool {
    forall|i: int| 0 <= i < rows.len() ==> !is_nan(#[trigger] rows[i].rel_change)
}

/// `out` is `rows` reordered by the permutation `perm` (`out[k] == rows[perm[k]]`).
pub open spec fn is_permutation_of(out: Seq<DiffRowView>, rows: Seq<DiffRowView>, perm: Seq<int>) -> bool {
    &&& perm.len() == rows.len()
    &&& out.len() == rows.len()
    &&& forall|k: int| 0 <= k < perm.len() ==> 0 <= #[trigger] perm[k] < rows.len()
    &&& forall|a: int, b: int| 0 <= a < b < perm.len() ==> #[trigger] perm[a] != #[trigger] perm[b]
    &&& forall|k: int| 0 <= k < out.len() ==> #[trigger] out[k] == rows[perm[k]]
}

/// `out` is in the given order, rows that tie keeping their input order (a
/// stable sort).
pub open spec fn stably_sorted(order: RowOrder, out: Seq<DiffRowView>, perm: Seq<int>) -> bool {
    forall|a: int, b: int|
        0 <= a < b < out.len() ==> row_before(order, #[trigger] out[a], #[trigger] out[b]) || (
        !row_before(order, out[b], out[a]) && perm[a] < perm[b])
}

proof fn lemma_before_facts(order: RowOrder, x: DiffRowView, y: DiffRowView, z: DiffRowView)
    requires
        !is_nan(x.rel_change),
        !is_nan(y.rel_change),
        !is_nan(z.rel_change),
    ensures
        !(row_before(order, x, y) && row_before(order, y, x)),
        row_before(order, x, y) && row_before(order, y, z) ==> row_before(order, x, z),
        row_before(order, x, y) && !row_before(order, z, y) ==> row_before(order, x, z),
        !row_before(order, y, x) && row_before(order, y, z) ==> row_before(order, x, z),
{
}

/// Sort rows, stably, in the given order.
pub fn sort_rows(rows: Vec<DiffRow>, order: RowOrder) -> (r: Vec<DiffRow>)
    ensures
        exists|perm: Seq<int>| #![trigger is_permutation_of(rows_view(r@), rows_view(rows@), perm)] {
            &&& is_permutation_of(rows_view(r@), rows_view(rows@), perm)
            &&& no_nan_changes(rows_view(rows@)) ==> stably_sorted(order, rows_view(r@), perm)
        },
{
    let ghost rv = rows_view(rows@);
    let mut out: Vec<DiffRow> = Vec::new();
    let ghost mut perm: Seq<int> = Seq::empty();
    let n = rows.len();
    for i in 0..n
        invariant
            n == rows@.len(),
            rv == rows_view(rows@),
            perm.len() == i,
            out@.len() == i,
            forall|k: int| 0 <= k < i ==> 0 <= #[trigger] perm[k] < i,
            forall|a: int, b: int| 0 <= a < b < i ==> #[trigger] perm[a] != #[trigger] perm[b],
            forall|k: int| 0 <= k < i ==> #[trigger] rows_view(out@)[k] == rv[perm[k]],
            no_nan_changes(rv) ==> stably_sorted(order, rows_view(out@), perm),
    {
        let x = &rows[i];
        let mut p: usize = 0;
        while p < out.len() && !row_before_exec(order, x, &out[p])
            invariant
                p <= out@.len(),
                forall|q: int| 0 <= q < p ==> !row_before(order, x@, #[trigger] rows_view(out@)[q]),
            decreases out@.len() - p,
        {
            p = p + 1;
        }
        let ghost ov = rows_view(out@);
        let ghost op = perm;
        out.insert(p, x.clone_row());
        proof {
            perm = op.insert(p as int, i as int);
            let nv = rows_view(out@);
            assert(nv =~= ov.insert(p as int, rv[i as int]));
            assert forall|a: int, b: int| 0 <= a < b < i + 1 implies #[trigger] perm[a] != #[trigger] perm[b] by {
                if a < p && b < p {
                    assert(perm[a] == op[a] && perm[b] == op[b]);
                } else if a < p && b == p {
                    assert(perm[a] == op[a]);
                } else if a < p && b > p {
                    assert(perm[a] == op[a] && perm[b] == op[b - 1]);
                } else if a == p {
                    assert(perm[b] == op[b - 1]);
                } else {
                    assert(perm[a] == op[a - 1] && perm[b] == op[b - 1]);
                }
            }
            assert forall|k: int| 0 <= k < i + 1 implies #[trigger] rows_view(out@)[k] == rv[perm[k]] by {
                if k < p {
                    assert(perm[k] == op[k]);
                } else if k > p {
                    assert(perm[k] == op[k - 1]);
                }
            }
            if no_nan_changes(rv) {
                assert forall|k: int| 0 <= k < ov.len() implies !is_nan(#[trigger] ov[k].rel_change) by {
                    assert(ov[k] == rv[op[k]]);
                }
                assert forall|a: int, b: int| 0 <= a < b < nv.len() implies row_before(order, #[trigger] nv[a], #[trigger] nv[b]) || (!row_before(order, nv[b], nv[a]) && perm[a] < perm[b]) by {
                    let x = rv[i as int];
                    if b < p {
                        assert(nv[a] == ov[a] && nv[b] == ov[b]);
                    } else if b == p {
                        assert(nv[a] == ov[a] && nv[b] == x);
                        assert(!row_before(order, x, ov[a]));
                        lemma_before_facts(order, ov[a], x, x);
                    } else if a > p {
                        assert(nv[a] == ov[a - 1] && nv[b] == ov[b - 1]);
                    } else if a == p {
                        assert(nv[b] == ov[b - 1]);
                        // x is before ov[p], and ov[p] is not after ov[b - 1].
                        assert(row_before(order, x, ov[p as int]));
                        if b - 1 > p {
                            assert(row_before(order, ov[p as int], ov[b - 1]) || !row_before(order, ov[b - 1], ov[p as int]));
                            lemma_before_facts(order, x, ov[p as int], ov[b - 1]);
                        }
                    } else {
                        assert(nv[a] == ov[a] && nv[b] == ov[b - 1]);
                    }
                }
            }
        }
    }
    proof {
        assert(is_permutation_of(rows_view(out@), rv, perm));
        assert(no_nan_changes(rv) ==> stably_sorted(order, rows_view(out@), perm));
    }
    out
}

impl DiffRow {
    /// A copy with the same content.
    pub fn clone_row(&self) -> (r: DiffRow)
        ensures
            r@ == self@,
    {
        DiffRow {
            name: self.name.clone(),
            baseline_mean_ns: self.baseline_mean_ns,
            current_mean_ns: self.current_mean_ns,
            n_baseline: self.n_baseline,
            n_current: self.n_current,
            rel_change: self.rel_change,
            p_value: self.p_value,
            cohens_d: self.cohens_d,
            verdict: self.verdict,
        }
    }
}

impl DiffReport {
    /// The report of a comparison: the rows in [`RowOrder::Severity`] order,
    /// ties keeping their order, with the label and the settings used.
    pub fn assemble(baseline_label: &str, rows: Vec<DiffRow>, cfg: &Config) -> (r: DiffReport)
        ensures
            r.baseline_label@ == baseline_label@,
            r.alpha == cfg.alpha,
            r.min_relative_change == cfg.min_relative_change,
            r.correction@ == cfg.correction@,
            exists|perm: Seq<int>| #![trigger is_permutation_of(rows_view(r.rows@), rows_view(rows@), perm)] {
                &&& is_permutation_of(rows_view(r.rows@), rows_view(rows@), perm)
                &&& no_nan_changes(rows_view(rows@)) ==> stably_sorted(RowOrder::Severity, rows_view(r.rows@), perm)
            },
    {
        let ghost input = rows_view(rows@);
        let sorted = sort_rows(rows, RowOrder::Severity);
        let r = DiffReport {
            baseline_label: copy_str(baseline_label),
            rows: sorted,
            alpha: cfg.alpha,
            min_relative_change: cfg.min_relative_change,
            correction: cfg.correction.clone(),
        };
        proof {
            let perm = choose|perm: Seq<int>| #![trigger is_permutation_of(rows_view(r.rows@), input, perm)] {
                &&& is_permutation_of(rows_view(r.rows@), input, perm)
                &&& no_nan_changes(input) ==> stably_sorted(RowOrder::Severity, rows_view(r.rows@), perm)
            };
            assert(is_permutation_of(rows_view(r.rows@), input, perm));
            assert(no_nan_changes(input) ==> stably_sorted(RowOrder::Severity, rows_view(r.rows@), perm));
        }
        r
    }
}

// ---------------------------------------------------------------------------
// The whole comparison
// ---------------------------------------------------------------------------

/// The rows of the plan, before any correction: `stats[k]` are the
/// statistics of planned row `k` when it is a compared pair.
pub open spec fn planned_rows(
    bs: Seq<BenchmarkView>,
    cs: Seq<BenchmarkView>,
    cfg: Config,
    stats: Seq<PairStats>,
) -> Seq<DiffRowView> {
    let plan = plan_spec(bs, cs, cfg.ignore.patterns_view());
    Seq::new(plan.len(), |k: int| row_of_plan(bs, cs, plan[k], stats[k], cfg))
}

/// Number of tested rows before row `i`.
pub open spec fn tested_before(rows: Seq<DiffRowView>, i: int) -> nat {
    tested_spec(rows.take(i)).len()
}

/// The rows after the correction: the `k`-th tested row takes the verdict
/// `corrected(v, reject[k])`; nothing else changes.
pub open spec fn corrected_rows(rows: Seq<DiffRowView>, reject: Seq<bool>) -> Seq<DiffRowView> {
    Seq::new(
        rows.len(),
        |i: int|
            if is_tested(rows[i].verdict) {
                DiffRowView {
                    verdict: corrected(rows[i].verdict, reject[tested_before(rows, i) as int]),
                    ..rows[i]
                }
            } else {
                rows[i]
            },
    )
}

/// The rows of a comparison: the planned rows, corrected when the
/// configuration asks for Benjamini-Hochberg (`reject[k]` being its decision
/// for the `k`-th tested row).
pub open spec fn comparison_rows(
    bs: Seq<BenchmarkView>,
    cs: Seq<BenchmarkView>,
    cfg: Config,
    stats: Seq<PairStats>,
    reject: Seq<bool>,
) -> Seq<DiffRowView> {
    let rows = planned_rows(bs, cs, cfg, stats);
    if cfg.correction@ == "bh"@ {
        corrected_rows(rows, reject)
    } else {
        rows
    }
}

/// `tested_spec` of a prefix is a prefix of `tested_spec`.
proof fn lemma_tested_prefix(rows: Seq<DiffRowView>, n: int)
    requires
        0 <= n <= rows.len(),
    ensures
        tested_spec(rows.take(n)).len() <= tested_spec(rows).len(),
        forall|m: int|
            0 <= m < tested_spec(rows.take(n)).len() ==> #[trigger] tested_spec(rows.take(n))[m]
                == tested_spec(rows)[m],
    decreases rows.len(),
{
    if n == rows.len() {
        assert(rows.take(n) =~= rows);
    } else {
        let d = rows.drop_last();
        assert(rows.take(n) =~= d.take(n));
        lemma_tested_prefix(d, n);
    }
}

/// A tested row is the `tested_before`-th tested row.
proof fn lemma_tested_position(rows: Seq<DiffRowView>, i: int)
    requires
        0 <= i < rows.len(),
        is_tested(rows[i].verdict),
    ensures
        tested_before(rows, i) < tested_spec(rows).len(),
        tested_spec(rows)[tested_before(rows, i) as int] == i,
{
    let t = rows.take(i + 1);
    assert(t.drop_last() =~= rows.take(i));
    assert(t.last() == rows[i]);
    assert(tested_spec(t) == tested_spec(rows.take(i)).push(i));
    lemma_tested_prefix(rows, i + 1);
    assert(tested_spec(t)[tested_before(rows, i) as int] == i);
}

/// A full comparison from the statistics of the planned pairs (`stats[k]`
/// for planned row `k`) and, under Benjamini-Hochberg, its decisions
/// (`reject[k]` for the `k`-th tested row): the planned rows, corrected
/// when the configuration asks for it, in report order.
pub fn compare_with_stats(
    baseline: &Run,
    current: &Run,
    baseline_label: &str,
    cfg: &Config,
    stats: &Vec<PairStats>,
    reject: &Vec<bool>,
) -> (r: DiffReport)
    requires
        stats@.len() == plan_spec(
            baseline@.benchmarks,
            current@.benchmarks,
            cfg.ignore.patterns_view(),
        ).len(),
        cfg.correction@ == "bh"@ ==> reject@.len() == tested_spec(
            planned_rows(baseline@.benchmarks, current@.benchmarks, *cfg, stats@),
        ).len(),
    ensures
        r.baseline_label@ == baseline_label@,
        r.alpha == cfg.alpha,
        r.min_relative_change == cfg.min_relative_change,
        r.correction@ == cfg.correction@,
        exists|perm: Seq<int>|
            #![trigger is_permutation_of(rows_view(r.rows@), comparison_rows(baseline@.benchmarks, current@.benchmarks, *cfg, stats@, reject@), perm)]
            {
                let rows = comparison_rows(
                    baseline@.benchmarks,
                    current@.benchmarks,
                    *cfg,
                    stats@,
                    reject@,
                );
                &&& is_permutation_of(rows_view(r.rows@), rows, perm)
                &&& no_nan_changes(rows) ==> stably_sorted(RowOrder::Severity, rows_view(r.rows@), perm)
            },
{
    let ghost bs = baseline@.benchmarks;
    let ghost cs = current@.benchmarks;
    let plan = plan_rows(baseline, current, cfg);
    let mut rows = rows_from_plan(baseline, current, &plan, stats, cfg);
    let ghost rows0 = rows_view(rows@);
    assert(rows0 =~= planned_rows(bs, cs, *cfg, stats@)) by {
        assert forall|k: int| 0 <= k < plan@.len() implies plan@[k]@ == plan_spec(
            bs,
            cs,
            cfg.ignore.patterns_view(),
        )[k] by {
            assert(planned_view(plan@)[k] == plan@[k]@);
        }
    }
    let c = crate::text::chars_of(cfg.correction.as_str());
    if crate::text::eq_lit(&c, "bh") {
        let (tested, _pvals) = tested_rows(&rows);
        proof {
            lemma_tested_spec(rows0);
        }
        apply_correction(&mut rows, &tested, reject);
        proof {
            let rows1 = corrected_rows(rows0, reject@);
            assert forall|i: int| 0 <= i < rows@.len() implies (#[trigger] rows_view(rows@)[i])
                == rows1[i] by {
                if is_tested(rows0[i].verdict) {
                    lemma_tested_position(rows0, i);
                    let k = tested_before(rows0, i) as int;
                    assert(tested@[k] as int == i);
                } else {
                    if exists|k: int| 0 <= k < tested@.len() && #[trigger] tested@[k] == i {
                        let k = choose|k: int| 0 <= k < tested@.len() && #[trigger] tested@[k] == i;
                        assert(tested_spec(rows0)[k] == i);
                    }
                }
            }
            assert(rows_view(rows@) =~= rows1);
        }
    }
    let ghost input = rows_view(rows@);
    assert(input == comparison_rows(bs, cs, *cfg, stats@, reject@));
    DiffReport::assemble(baseline_label, rows, cfg)
}

/// Indices of the rows with verdict `v`.
spec fn verdict_indices(rows: Seq<DiffRowView>, v: Verdict) -> Set<int> {
    Set::new(|i: int| 0 <= i < rows.len() && rows[i].verdict == v)
}

proof fn lemma_count_is_index_count(rows: Seq<DiffRowView>, v: Verdict)
    ensures
        verdict_indices(rows, v).finite(),
        count_verdict(rows, v) == verdict_indices(rows, v).len(),
    decreases rows.len(),
{
    if rows.len() == 0 {
        assert(verdict_indices(rows, v) =~= Set::empty());
    } else {
        let d = rows.drop_last();
        lemma_count_is_index_count(d, v);
        if rows.last().verdict == v {
            assert(verdict_indices(rows, v) =~= verdict_indices(d, v).insert(rows.len() - 1));
        } else {
            assert(verdict_indices(rows, v) =~= verdict_indices(d, v));
        }
    }
}

/// Reordering rows does not change how many have a given verdict, so the
/// counts of a report are those of its rows before ordering.
pub proof fn law_reordering_keeps_counts(
    out: Seq<DiffRowView>,
    rows: Seq<DiffRowView>,
    perm: Seq<int>,
    v: Verdict,
)
    requires
        is_permutation_of(out, rows, perm),
    ensures
        count_verdict(out, v) == count_verdict(rows, v),
{
    let n = rows.len() as int;
    let f = |k: int| perm[k];
    let range = vstd::set_lib::set_int_range(0, n);
    vstd::set_lib::lemma_int_range(0, n);
    let image = range.map(f);
    assert(vstd::relations::injective_on(f, range)) by {
        assert forall|a: int, b: int| range.contains(a) && range.contains(b) && #[trigger] f(a) == #[trigger] f(b) implies a == b by {
            if a < b {
                assert(perm[a] != perm[b]);
            } else if b < a {
                assert(perm[b] != perm[a]);
            }
        }
    }
    vstd::set_lib::lemma_map_size(range, image, f);
    assert(image.subset_of(range));
    vstd::set_lib::lemma_subset_equality(image, range);
    let a = verdict_indices(out, v);
    let b = verdict_indices(rows, v);
    lemma_count_is_index_count(out, v);
    lemma_count_is_index_count(rows, v);
    assert(a.map(f) =~= b) by {
        assert forall|i: int| b.contains(i) implies a.map(f).contains(i) by {
            assert(range.contains(i));
            assert(image.contains(i));
            let k = choose|k: int| range.contains(k) && f(k) == i;
            assert(out[k] == rows[perm[k]]);
            assert(a.contains(k));
        }
        assert forall|i: int| a.map(f).contains(i) implies b.contains(i) by {
            let k = choose|k: int| a.contains(k) && f(k) == i;
            assert(out[k] == rows[perm[k]]);
        }
    }
    assert(vstd::relations::injective_on(f, a)) by {
        assert forall|x: int, y: int| a.contains(x) && a.contains(y) && #[trigger] f(x) == #[trigger] f(y) implies x == y by {
            assert(range.contains(x) && range.contains(y));
        }
    }
    vstd::set_lib::lemma_map_size(a, b, f);
}

proof fn lemma_count_downgrade(r0: Seq<DiffRowView>, r1: Seq<DiffRowView>, v: Verdict)
    requires
        r0.len() == r1.len(),
        v == Verdict::Regression || v == Verdict::Improvement,
        forall|i: int|
            0 <= i < r1.len() ==> #[trigger] r1[i].verdict == r0[i].verdict || r1[i].verdict
                == Verdict::Unchanged,
    ensures
        count_verdict(r1, v) <= count_verdict(r0, v),
    decreases r0.len(),
{
    if r0.len() > 0 {
        let d0 = r0.drop_last();
        let d1 = r1.drop_last();
        assert forall|i: int| 0 <= i < d1.len() implies #[trigger] d1[i].verdict == d0[i].verdict
            || d1[i].verdict == Verdict::Unchanged by {
            assert(d1[i] == r1[i] && d0[i] == r0[i]);
        }
        lemma_count_downgrade(d0, d1, v);
        assert(r1.last().verdict == r0.last().verdict || r1.last().verdict == Verdict::Unchanged);
    }
}

/// Benjamini-Hochberg never flags anything: against the same runs,
/// statistics and settings, the corrected comparison has the same rows in the
/// same plan order, each equal to the uncorrected one except that a
/// regression or improvement may have become unchanged; so it has no more
/// regressions and no more improvements.
pub proof fn law_bh_never_adds_flags(
    bs: Seq<BenchmarkView>,
    cs: Seq<BenchmarkView>,
    cfg_none: Config,
    cfg_bh: Config,
    stats: Seq<PairStats>,
    reject_none: Seq<bool>,
    reject_bh: Seq<bool>,
)
    requires
        cfg_none.correction@ != "bh"@,
        cfg_bh.correction@ == "bh"@,
        cfg_bh.alpha == cfg_none.alpha,
        cfg_bh.min_relative_change == cfg_none.min_relative_change,
        cfg_bh.ignore.patterns_view() == cfg_none.ignore.patterns_view(),
        cfg_bh.tolerance == cfg_none.tolerance,
    ensures
        ({
            let rn = comparison_rows(bs, cs, cfg_none, stats, reject_none);
            let rb = comparison_rows(bs, cs, cfg_bh, stats, reject_bh);
            &&& rb.len() == rn.len()
            &&& forall|i: int|
                0 <= i < rb.len() ==> #[trigger] rb[i] == rn[i] || (rb[i] == DiffRowView {
                    verdict: Verdict::Unchanged,
                    ..rn[i]
                } && (rn[i].verdict == Verdict::Regression || rn[i].verdict
                    == Verdict::Improvement))
            &&& count_verdict(rb, Verdict::Regression) <= count_verdict(rn, Verdict::Regression)
            &&& count_verdict(rb, Verdict::Improvement) <= count_verdict(
                rn,
                Verdict::Improvement,
            )
        }),
{
    let rn = comparison_rows(bs, cs, cfg_none, stats, reject_none);
    let rb = comparison_rows(bs, cs, cfg_bh, stats, reject_bh);
    assert(planned_rows(bs, cs, cfg_bh, stats) =~= planned_rows(bs, cs, cfg_none, stats)) by {
        reveal(row_of_plan);
    }
    assert forall|i: int| 0 <= i < rb.len() implies #[trigger] rb[i] == rn[i] || (rb[i] == DiffRowView {
        verdict: Verdict::Unchanged,
        ..rn[i]
    } && (rn[i].verdict == Verdict::Regression || rn[i].verdict == Verdict::Improvement)) by {
        if is_tested(rn[i].verdict) {
            law_correction_only_downgrades(rn[i].verdict, reject_bh[tested_before(rn, i) as int]);
        }
    }
    lemma_count_downgrade(rn, rb, Verdict::Regression);
    lemma_count_downgrade(rn, rb, Verdict::Improvement);
}

proof fn lemma_new_rows_empty(bs: Seq<BenchmarkView>, cs: Seq<BenchmarkView>, ps: Seq<Seq<char>>)
    requires
        forall|j: int| 0 <= j < cs.len() ==> first_named(bs, #[trigger] cs[j].name) is Some,
    ensures
        new_rows(bs, cs, ps).len() == 0,
    decreases cs.len(),
{
    if cs.len() > 0 {
        let d = cs.drop_last();
        assert forall|j: int| 0 <= j < d.len() implies first_named(bs, #[trigger] d[j].name) is Some by {
            assert(d[j] == cs[j]);
        }
        lemma_new_rows_empty(bs, d, ps);
        assert(first_named(bs, cs[cs.len() - 1].name) is Some);
    }
}

/// Comparing a run with itself flags nothing: every row is unchanged,
/// insufficient (fewer than two samples) or ignored, provided that the
/// p-value of each compared pair is not below `alpha` (as the two-sided
/// Welch test gives for identical samples: a p-value of one).
pub proof fn law_identical_runs_flag_nothing(
    bs: Seq<BenchmarkView>,
    cfg: Config,
    stats: Seq<PairStats>,
    reject: Seq<bool>,
)
    requires
        stats.len() == plan_spec(bs, bs, cfg.ignore.patterns_view()).len(),
        forall|k: int| 0 <= k < stats.len() ==> !lt(#[trigger] stats[k].p, cfg.alpha),
    ensures
        forall|i: int|
            0 <= i < comparison_rows(bs, bs, cfg, stats, reject).len() ==> {
                let v = (#[trigger] comparison_rows(bs, bs, cfg, stats, reject)[i]).verdict;
                v == Verdict::Unchanged || v == Verdict::Insufficient || v == Verdict::Ignored
            },
{
    let ps = cfg.ignore.patterns_view();
    let plan = plan_spec(bs, bs, ps);
    let rows0 = planned_rows(bs, bs, cfg, stats);
    assert forall|j: int| 0 <= j < bs.len() implies first_named(bs, #[trigger] bs[j].name) is Some by {
        lemma_first_named(bs, bs[j].name);
    }
    lemma_new_rows_empty(bs, bs, ps);
    assert forall|i: int| 0 <= i < rows0.len() implies {
        let v = (#[trigger] rows0[i]).verdict;
        v == Verdict::Unchanged || v == Verdict::Insufficient || v == Verdict::Ignored
    } by {
        reveal(row_of_plan);
        assert(i < bs.len());
        assert(plan[i] == baseline_row(bs, bs, ps, i));
        assert(first_named(bs, bs[i].name) is Some);
        assert(!lt(stats[i].p, cfg.alpha));
    }
    let rows = comparison_rows(bs, bs, cfg, stats, reject);
    assert forall|i: int| 0 <= i < rows.len() implies {
        let v = (#[trigger] rows[i]).verdict;
        v == Verdict::Unchanged || v == Verdict::Insufficient || v == Verdict::Ignored
    } by {
        assert(rows0[i].verdict == Verdict::Unchanged || rows0[i].verdict == Verdict::Insufficient
            || rows0[i].verdict == Verdict::Ignored);
    }
}

/// The p-values of the tested rows, in row order.
pub open spec fn tested_pvalues(rows: Seq<DiffRowView>) -> Seq<u64> {
    Seq::new(tested_spec(rows).len(), |k: int| rows[tested_spec(rows)[k]].p_value)
}

/// The Benjamini-Hochberg decisions for the tested rows, `th[r]` being the
/// step-up threshold of rank `r`.
pub open spec fn bh_decisions(rows: Seq<DiffRowView>, th: Seq<u64>) -> Seq<bool> {
    Seq::new(
        tested_spec(rows).len(),
        |k: int| crate::stats::bh_rejects(tested_pvalues(rows), th, k),
    )
}

/// A full comparison from the statistics of the planned pairs (`stats[k]`
/// for planned row `k`) and, under Benjamini-Hochberg, the step-up
/// thresholds for as many tests as there are tested rows (`thresholds[r]`
/// being `(r + 1) * alpha / n`): the tested rows' p-values go through
/// [`crate::stats::benjamini_hochberg`] and the comparison is that of
/// [`compare_with_stats`] with its decisions.
pub fn compare_with_thresholds(
    baseline: &Run,
    current: &Run,
    baseline_label: &str,
    cfg: &Config,
    stats: &Vec<PairStats>,
    thresholds: &Vec<u64>,
) -> (r: DiffReport)
    requires
        stats@.len() == plan_spec(
            baseline@.benchmarks,
            current@.benchmarks,
            cfg.ignore.patterns_view(),
        ).len(),
        cfg.correction@ == "bh"@ ==> thresholds@.len() == tested_spec(
            planned_rows(baseline@.benchmarks, current@.benchmarks, *cfg, stats@),
        ).len(),
    ensures
        r.baseline_label@ == baseline_label@,
        r.alpha == cfg.alpha,
        r.min_relative_change == cfg.min_relative_change,
        r.correction@ == cfg.correction@,
        ({
            let rows0 = planned_rows(baseline@.benchmarks, current@.benchmarks, *cfg, stats@);
            let rows = comparison_rows(
                baseline@.benchmarks,
                current@.benchmarks,
                *cfg,
                stats@,
                bh_decisions(rows0, thresholds@),
            );
            exists|perm: Seq<int>|
                #![trigger is_permutation_of(rows_view(r.rows@), rows, perm)]
                {
                    &&& is_permutation_of(rows_view(r.rows@), rows, perm)
                    &&& no_nan_changes(rows) ==> stably_sorted(RowOrder::Severity, rows_view(r.rows@), perm)
                }
        }),
{
    let ghost bs = baseline@.benchmarks;
    let ghost cs = current@.benchmarks;
    let ghost rows0 = planned_rows(bs, cs, *cfg, stats@);
    let plan = plan_rows(baseline, current, cfg);
    let rows = rows_from_plan(baseline, current, &plan, stats, cfg);
    assert(rows_view(rows@) =~= rows0) by {
        assert forall|k: int| 0 <= k < plan@.len() implies plan@[k]@ == plan_spec(
            bs,
            cs,
            cfg.ignore.patterns_view(),
        )[k] by {
            assert(planned_view(plan@)[k] == plan@[k]@);
        }
    }
    let (tested, pvals) = tested_rows(&rows);
    assert(pvals@ =~= tested_pvalues(rows0)) by {
        lemma_tested_spec(rows0);
        assert forall|k: int| 0 <= k < pvals@.len() implies pvals@[k] == tested_pvalues(rows0)[k] by {
            let i = tested@[k] as int;
            assert(i == tested_spec(rows_view(rows@))[k]);
            assert(rows_view(rows@)[i] == rows@[i]@);
        }
    }
    let c = crate::text::chars_of(cfg.correction.as_str());
    let reject = if crate::text::eq_lit(&c, "bh") {
        let d = crate::stats::benjamini_hochberg(&pvals, thresholds);
        assert(d@ =~= bh_decisions(rows0, thresholds@));
        d
    } else {
        Vec::new()
    };
    let r = compare_with_stats(baseline, current, baseline_label, cfg, stats, &reject);
    proof {
        let rows = comparison_rows(bs, cs, *cfg, stats@, reject@);
        let want = comparison_rows(bs, cs, *cfg, stats@, bh_decisions(rows0, thresholds@));
        assert(rows == want);
        let perm = choose|perm: Seq<int>| #![trigger is_permutation_of(rows_view(r.rows@), rows, perm)] {
            &&& is_permutation_of(rows_view(r.rows@), rows, perm)
            &&& no_nan_changes(rows) ==> stably_sorted(RowOrder::Severity, rows_view(r.rows@), perm)
        };
        assert(is_permutation_of(rows_view(r.rows@), want, perm));
    }
    r
}

/// Some position below `n` is sent to `i`.
spec fn reached(perm: Seq<int>, n: int, i: int) -> bool {
    exists|k: int| 0 <= k < n && #[trigger] perm[k] == i
}

/// Every row is reached by the permutation.
proof fn lemma_permutation_onto(out: Seq<DiffRowView>, rows: Seq<DiffRowView>, perm: Seq<int>)
    requires
        is_permutation_of(out, rows, perm),
    ensures
        forall|i: int| 0 <= i < rows.len() ==> #[trigger] reached(perm, out.len() as int, i),
{
    let n = rows.len() as int;
    let f = |k: int| perm[k];
    let range = vstd::set_lib::set_int_range(0, n);
    vstd::set_lib::lemma_int_range(0, n);
    let image = range.map(f);
    assert(vstd::relations::injective_on(f, range)) by {
        assert forall|a: int, b: int| range.contains(a) && range.contains(b) && #[trigger] f(a) == #[trigger] f(b) implies a == b by {
            if a < b {
                assert(perm[a] != perm[b]);
            } else if b < a {
                assert(perm[b] != perm[a]);
            }
        }
    }
    vstd::set_lib::lemma_map_size(range, image, f);
    assert(image.subset_of(range));
    vstd::set_lib::lemma_subset_equality(image, range);
    assert forall|i: int| 0 <= i < rows.len() implies #[trigger] reached(perm, out.len() as int, i) by {
        assert(range.contains(i));
        assert(image.contains(i));
        let k = choose|k: int| range.contains(k) && f(k) == i;
        assert(0 <= k < out.len());
        assert(perm[k] == i);
    }
}

/// Is `b` the row `a`, or `a` turned from a regression or improvement into
/// unchanged?
pub open spec fn same_or_downgraded(a: DiffRowView, b: DiffRowView) -> bool {
    b == a || (b == DiffRowView { verdict: Verdict::Unchanged, ..a } && (a.verdict
        == Verdict::Regression || a.verdict == Verdict::Improvement))
}

/// Benjamini-Hochberg never flags anything, on the ordered reports: against
/// the same runs, statistics and settings, the corrected report has as many
/// rows as the uncorrected one; each of its rows matches a row of the other
/// with the same name that it equals or downgrades from a regression or
/// improvement to unchanged, and each row of the uncorrected report is so
/// matched; it has no more regressions and no more improvements.
pub proof fn law_bh_never_adds_flags_in_reports(
    bs: Seq<BenchmarkView>,
    cs: Seq<BenchmarkView>,
    cfg_none: Config,
    cfg_bh: Config,
    stats: Seq<PairStats>,
    reject_none: Seq<bool>,
    reject_bh: Seq<bool>,
    out_none: Seq<DiffRowView>,
    out_bh: Seq<DiffRowView>,
    perm_none: Seq<int>,
    perm_bh: Seq<int>,
)
    requires
        cfg_none.correction@ != "bh"@,
        cfg_bh.correction@ == "bh"@,
        cfg_bh.alpha == cfg_none.alpha,
        cfg_bh.min_relative_change == cfg_none.min_relative_change,
        cfg_bh.ignore.patterns_view() == cfg_none.ignore.patterns_view(),
        cfg_bh.tolerance == cfg_none.tolerance,
        is_permutation_of(out_none, comparison_rows(bs, cs, cfg_none, stats, reject_none), perm_none),
        is_permutation_of(out_bh, comparison_rows(bs, cs, cfg_bh, stats, reject_bh), perm_bh),
    ensures
        out_bh.len() == out_none.len(),
        forall|i: int|
            0 <= i < out_bh.len() ==> exists|j: int|
                0 <= j < out_none.len() && out_none[j].name == (#[trigger] out_bh[i]).name
                    && same_or_downgraded(out_none[j], out_bh[i]),
        forall|j: int|
            0 <= j < out_none.len() ==> exists|i: int|
                0 <= i < out_bh.len() && out_bh[i].name == (#[trigger] out_none[j]).name
                    && same_or_downgraded(out_none[j], out_bh[i]),
        count_verdict(out_bh, Verdict::Regression) <= count_verdict(out_none, Verdict::Regression),
        count_verdict(out_bh, Verdict::Improvement) <= count_verdict(out_none, Verdict::Improvement),
{
    let rn = comparison_rows(bs, cs, cfg_none, stats, reject_none);
    let rb = comparison_rows(bs, cs, cfg_bh, stats, reject_bh);
    law_bh_never_adds_flags(bs, cs, cfg_none, cfg_bh, stats, reject_none, reject_bh);
    assert forall|i: int| 0 <= i < rb.len() implies same_or_downgraded(rn[i], #[trigger] rb[i]) by {}
    lemma_match_rows(rn, rb, out_none, out_bh, perm_none, perm_bh);
    law_reordering_keeps_counts(out_none, rn, perm_none, Verdict::Regression);
    law_reordering_keeps_counts(out_bh, rb, perm_bh, Verdict::Regression);
    law_reordering_keeps_counts(out_none, rn, perm_none, Verdict::Improvement);
    law_reordering_keeps_counts(out_bh, rb, perm_bh, Verdict::Improvement);
}

proof fn lemma_match_rows(
    rn: Seq<DiffRowView>,
    rb: Seq<DiffRowView>,
    out_none: Seq<DiffRowView>,
    out_bh: Seq<DiffRowView>,
    perm_none: Seq<int>,
    perm_bh: Seq<int>,
)
    requires
        rb.len() == rn.len(),
        forall|i: int| 0 <= i < rb.len() ==> same_or_downgraded(rn[i], #[trigger] rb[i]),
        is_permutation_of(out_none, rn, perm_none),
        is_permutation_of(out_bh, rb, perm_bh),
    ensures
        out_bh.len() == out_none.len(),
        forall|i: int|
            0 <= i < out_bh.len() ==> exists|j: int|
                0 <= j < out_none.len() && out_none[j].name == (#[trigger] out_bh[i]).name
                    && same_or_downgraded(out_none[j], out_bh[i]),
        forall|j: int|
            0 <= j < out_none.len() ==> exists|i: int|
                0 <= i < out_bh.len() && out_bh[i].name == (#[trigger] out_none[j]).name
                    && same_or_downgraded(out_none[j], out_bh[i]),
{
    lemma_permutation_onto(out_none, rn, perm_none);
    lemma_permutation_onto(out_bh, rb, perm_bh);
    assert forall|i: int| 0 <= i < out_bh.len() implies exists|j: int|
        0 <= j < out_none.len() && out_none[j].name == (#[trigger] out_bh[i]).name
            && same_or_downgraded(out_none[j], out_bh[i]) by {
        let m = perm_bh[i];
        assert(out_bh[i] == rb[m]);
        assert(same_or_downgraded(rn[m], rb[m]));
        assert(reached(perm_none, out_none.len() as int, m));
        let j = choose|j: int| 0 <= j < out_none.len() && #[trigger] perm_none[j] == m;
        assert(out_none[j] == rn[m]);
    }
    assert forall|j: int| 0 <= j < out_none.len() implies exists|i: int|
        0 <= i < out_bh.len() && out_bh[i].name == (#[trigger] out_none[j]).name
            && same_or_downgraded(out_none[j], out_bh[i]) by {
        let m = perm_none[j];
        assert(out_none[j] == rn[m]);
        assert(same_or_downgraded(rn[m], rb[m]));
        assert(reached(perm_bh, out_bh.len() as int, m));
        let i = choose|i: int| 0 <= i < out_bh.len() && #[trigger] perm_bh[i] == m;
        assert(out_bh[i] == rb[m]);
    }
}

proof fn lemma_new_rows_names(bs: Seq<BenchmarkView>, cs: Seq<BenchmarkView>, ps: Seq<Seq<char>>)
    requires
        forall|i: int, j: int| 0 <= i < j < cs.len() ==> #[trigger] cs[i].name != #[trigger] cs[j].name,
    ensures
        forall|k: int|
            0 <= k < new_rows(bs, cs, ps).len() ==> exists|j: int|
                0 <= j < cs.len() && cs[j].name == (#[trigger] new_rows(bs, cs, ps)[k]).name,
        forall|k: int|
            0 <= k < new_rows(bs, cs, ps).len() ==> first_named(
                bs,
                (#[trigger] new_rows(bs, cs, ps)[k]).name,
            ) is None,
        forall|a: int, b: int|
            0 <= a < b < new_rows(bs, cs, ps).len() ==> (#[trigger] new_rows(bs, cs, ps)[a]).name
                != (#[trigger] new_rows(bs, cs, ps)[b]).name,
    decreases cs.len(),
{
    if cs.len() > 0 {
        let d = cs.drop_last();
        assert forall|i: int, j: int| 0 <= i < j < d.len() implies #[trigger] d[i].name != #[trigger] d[j].name by {
            assert(d[i] == cs[i] && d[j] == cs[j]);
        }
        lemma_new_rows_names(bs, d, ps);
        let rest = new_rows(bs, d, ps);
        let nr = new_rows(bs, cs, ps);
        assert forall|k: int| 0 <= k < rest.len() implies exists|j: int|
            0 <= j < cs.len() && cs[j].name == (#[trigger] rest[k]).name by {
            let j = choose|j: int| 0 <= j < d.len() && d[j].name == rest[k].name;
            assert(cs[j] == d[j]);
        }
        assert forall|k: int| 0 <= k < rest.len() implies (#[trigger] rest[k]).name != cs.last().name by {
            let j = choose|j: int| 0 <= j < d.len() && d[j].name == rest[k].name;
            assert(cs[j] == d[j]);
            assert(cs[j].name != cs[cs.len() - 1].name);
        }
        if first_named(bs, cs.last().name) is None {
            assert(nr[rest.len() as int].name == cs[cs.len() - 1].name);
        }
    }
}

/// With benchmark names unique within each run, the report names each
/// benchmark once: no two of its rows share a name.
pub proof fn law_report_names_unique(
    bs: Seq<BenchmarkView>,
    cs: Seq<BenchmarkView>,
    cfg: Config,
    stats: Seq<PairStats>,
    reject: Seq<bool>,
    out: Seq<DiffRowView>,
    perm: Seq<int>,
)
    requires
        forall|i: int, j: int| 0 <= i < j < bs.len() ==> #[trigger] bs[i].name != #[trigger] bs[j].name,
        forall|i: int, j: int| 0 <= i < j < cs.len() ==> #[trigger] cs[i].name != #[trigger] cs[j].name,
        is_permutation_of(out, comparison_rows(bs, cs, cfg, stats, reject), perm),
    ensures
        forall|a: int, b: int| 0 <= a < b < out.len() ==> #[trigger] out[a].name != #[trigger] out[b].name,
{
    let ps = cfg.ignore.patterns_view();
    let plan = plan_spec(bs, cs, ps);
    let head = Seq::new(bs.len(), |i: int| baseline_row(bs, cs, ps, i));
    let nr = new_rows(bs, cs, ps);
    lemma_new_rows_names(bs, cs, ps);
    assert forall|a: int, b: int| 0 <= a < b < plan.len() implies (#[trigger] plan[a]).name
        != (#[trigger] plan[b]).name by {
        if b < bs.len() {
            assert(plan[a].name == bs[a].name && plan[b].name == bs[b].name);
        } else if a < bs.len() {
            assert(plan[a].name == bs[a].name);
            assert(plan[b] == nr[b - bs.len()]);
            if plan[a].name == plan[b].name {
                lemma_first_named(bs, bs[a].name);
            }
        } else {
            assert(plan[a] == nr[a - bs.len()] && plan[b] == nr[b - bs.len()]);
        }
    }
    let rows0 = planned_rows(bs, cs, cfg, stats);
    assert forall|k: int| 0 <= k < rows0.len() implies (#[trigger] rows0[k]).name == plan[k].name by {
        reveal(row_of_plan);
    }
    let rows = comparison_rows(bs, cs, cfg, stats, reject);
    assert forall|k: int| 0 <= k < rows.len() implies (#[trigger] rows[k]).name == plan[k].name by {
        assert(rows0[k].name == plan[k].name);
    }
    assert forall|a: int, b: int| 0 <= a < b < out.len() implies #[trigger] out[a].name != #[trigger] out[b].name by {
        assert(out[a] == rows[perm[a]] && out[b] == rows[perm[b]]);
        assert(perm[a] != perm[b]);
        if perm[a] < perm[b] {
            assert(plan[perm[a]].name != plan[perm[b]].name);
        } else {
            assert(plan[perm[b]].name != plan[perm[a]].name);
        }
    }
}

} // verus!
