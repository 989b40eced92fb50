use benchdiff::compare::{
    apply_correction, compare_with_stats, compare_with_thresholds, compute_row, missing_row, plan_rows, rows_from_plan,
    sort_rows, tested_rows, DiffReport, DiffRow, PairStats, RowKind, RowOrder, Verdict, INFINITY_BITS,
};
use benchdiff::config::Config;
use benchdiff::sample::{Benchmark, Run, Unit};

fn bits(x: f64) -> u64 {
    x.to_bits()
}

fn run(b: Vec<(&str, Vec<f64>)>) -> Run {
    let mut r = Run::new("t");
    for (n, s) in b {
        r.benchmarks.push(Benchmark::new(n, s.iter().map(|x| x.to_bits()).collect(), Unit::Ns).unwrap());
    }
    r
}

fn mean(xs: &[f64]) -> f64 {
    xs.iter().sum::<f64>() / xs.len() as f64
}

/// Statistics with the given p-value and effect size; means from the samples.
fn stats(a: &[f64], b: &[f64], p: f64, d: f64) -> PairStats {
    let ma = mean(a);
    let mb = mean(b);
    PairStats { mean_a: bits(ma), mean_b: bits(mb), quotient: bits((mb - ma) / ma), p: bits(p), d: bits(d) }
}

#[test]
fn verdict_as_str_stable() {
    assert_eq!(Verdict::Regression.as_str(), "regression");
    assert_eq!(Verdict::Improvement.as_str(), "improvement");
    assert_eq!(Verdict::Unchanged.as_str(), "unchanged");
    assert_eq!(Verdict::Ignored.as_str(), "ignored");
    assert_eq!(Verdict::Insufficient.as_str(), "insufficient");
    assert_eq!(Verdict::MissingFromCurrent.as_str(), "missing");
    assert_eq!(Verdict::NewInCurrent.as_str(), "new");
}

#[test]
fn missing_from_current_reported() {
    let a = run(vec![("foo", vec![1.0, 2.0]), ("bar", vec![3.0, 4.0])]);
    let b = run(vec![("foo", vec![1.0, 2.0])]);
    let cfg = Config::default();
    let plan = plan_rows(&a, &b, &cfg);
    assert!(plan.iter().any(|r| r.name == "bar" && r.kind == RowKind::MissingFromCurrent));
}

#[test]
fn new_in_current_reported() {
    let a = run(vec![("foo", vec![1.0, 2.0])]);
    let b = run(vec![("foo", vec![1.0, 2.0]), ("bar", vec![3.0, 4.0])]);
    let cfg = Config::default();
    let plan = plan_rows(&a, &b, &cfg);
    assert!(plan.iter().any(|r| r.name == "bar" && r.kind == RowKind::NewInCurrent));
}

#[test]
fn ignored_pattern_short_circuits() {
    let a = run(vec![("slow_foo", vec![100.0, 100.0, 100.0])]);
    let b = run(vec![("slow_foo", vec![500.0, 500.0, 500.0])]);
    let mut cfg = Config::default();
    cfg.ignore.patterns.push("slow_*".into());
    let plan = plan_rows(&a, &b, &cfg);
    assert_eq!(plan.len(), 1);
    assert_eq!(plan[0].kind, RowKind::Ignored);
}

#[test]
fn insufficient_samples_handled() {
    let a = [100.0];
    let b = [100.0, 101.0];
    let cfg = Config::default();
    let row = compute_row("foo", a.len(), b.len(), &stats(&a, &b, 0.0, 0.0), &cfg);
    assert_eq!(row.verdict, Verdict::Insufficient);
    assert_eq!(row.p_value, bits(1.0));
    assert_eq!(row.cohens_d, 0);
}

#[test]
fn zero_baseline_mean_infinite_rel() {
    let a = [0.0, 0.0, 0.0, 0.0, 0.0];
    let b = [1.0, 1.0, 1.0, 1.0, 1.0];
    let cfg = Config::default();
    let row = compute_row("foo", a.len(), b.len(), &stats(&a, &b, 0.0, f64::INFINITY), &cfg);
    assert!(f64::from_bits(row.rel_change).is_infinite());
    assert_eq!(row.rel_change, INFINITY_BITS);
}

#[test]
fn plan_orders_baseline_then_new_and_links_pairs() {
    let a = run(vec![("foo", vec![1.0, 2.0]), ("bar", vec![3.0, 4.0]), ("skip_me", vec![1.0])]);
    let b = run(vec![("baz", vec![1.0]), ("foo", vec![1.0, 2.0]), ("skip_new", vec![1.0])]);
    let mut cfg = Config::default();
    cfg.ignore.patterns.push("skip_*".into());
    let plan = plan_rows(&a, &b, &cfg);
    let got: Vec<(&str, RowKind)> = plan.iter().map(|r| (r.name.as_str(), r.kind)).collect();
    assert_eq!(
        got,
        vec![
            ("foo", RowKind::Compared { baseline: 0, current: 1 }),
            ("bar", RowKind::MissingFromCurrent),
            ("skip_me", RowKind::Ignored),
            ("baz", RowKind::NewInCurrent),
            ("skip_new", RowKind::Ignored),
        ]
    );
}

#[test]
fn compute_row_flags_only_significant_and_large_changes() {
    let cfg = Config::default();
    let a = [100.0, 101.0, 99.0, 100.5];
    let slower = [150.0, 151.0, 149.0, 150.5];
    let faster = [50.0, 51.0, 49.0, 50.5];
    let slightly = [102.0, 102.0, 102.0, 102.0];
    let r = compute_row("x", 4, 4, &stats(&a, &slower, 0.001, 3.0), &cfg);
    assert_eq!(r.verdict, Verdict::Regression);
    assert_eq!(r.p_value, bits(0.001));
    assert_eq!(r.cohens_d, bits(3.0));
    assert_eq!(r.n_baseline, 4);
    assert_eq!(r.baseline_mean_ns, bits(mean(&a)));
    let r = compute_row("x", 4, 4, &stats(&a, &faster, 0.001, -3.0), &cfg);
    assert_eq!(r.verdict, Verdict::Improvement);
    // Significant but only 2%: below the 5% threshold.
    let r = compute_row("x", 4, 4, &stats(&a, &slightly, 0.001, 1.0), &cfg);
    assert_eq!(r.verdict, Verdict::Unchanged);
    // Large but not significant.
    let r = compute_row("x", 4, 4, &stats(&a, &slower, 0.2, 3.0), &cfg);
    assert_eq!(r.verdict, Verdict::Unchanged);
    // A tolerance override of 60% absorbs a 50% slowdown.
    let mut tol = Config::default();
    tol.tolerance.insert("x", Some(bits(0.6)));
    let r = compute_row("x", 4, 4, &stats(&a, &slower, 0.001, 3.0), &tol);
    assert_eq!(r.verdict, Verdict::Unchanged);
}

#[test]
fn missing_row_is_empty_with_unit_p_value() {
    let r = missing_row("gone", Verdict::MissingFromCurrent);
    assert_eq!(r.name, "gone");
    assert_eq!(r.p_value, bits(1.0));
    assert_eq!((r.baseline_mean_ns, r.current_mean_ns, r.rel_change, r.cohens_d), (0, 0, 0, 0));
    assert_eq!((r.n_baseline, r.n_current), (0, 0));
    assert_eq!(r.verdict, Verdict::MissingFromCurrent);
}

fn verdict_row(name: &str, v: Verdict, p: f64, rel: f64) -> DiffRow {
    let mut r = missing_row(name, v);
    r.p_value = bits(p);
    r.rel_change = bits(rel);
    r
}

#[test]
fn correction_downgrades_only_unrejected_changes() {
    let mut rows = vec![
        verdict_row("a", Verdict::Regression, 0.001, 0.5),
        verdict_row("b", Verdict::MissingFromCurrent, 1.0, 0.0),
        verdict_row("c", Verdict::Improvement, 0.04, -0.1),
        verdict_row("d", Verdict::Unchanged, 0.5, 0.01),
        verdict_row("e", Verdict::Regression, 0.045, 0.2),
    ];
    let (idx, ps) = tested_rows(&rows);
    assert_eq!(idx, vec![0, 2, 3, 4]);
    assert_eq!(ps, vec![bits(0.001), bits(0.04), bits(0.5), bits(0.045)]);
    apply_correction(&mut rows, &idx, &vec![true, false, false, true]);
    let vs: Vec<Verdict> = rows.iter().map(|r| r.verdict).collect();
    assert_eq!(
        vs,
        vec![Verdict::Regression, Verdict::MissingFromCurrent, Verdict::Unchanged, Verdict::Unchanged, Verdict::Regression]
    );
    assert_eq!(rows[2].p_value, bits(0.04));
}

#[test]
fn report_order_is_severity_then_magnitude() {
    let rows = vec![
        verdict_row("new", Verdict::NewInCurrent, 1.0, 0.0),
        verdict_row("small_reg", Verdict::Regression, 0.01, 0.1),
        verdict_row("ign", Verdict::Ignored, 1.0, 0.0),
        verdict_row("imp", Verdict::Improvement, 0.01, -0.4),
        verdict_row("big_reg", Verdict::Regression, 0.01, 0.9),
        verdict_row("same", Verdict::Unchanged, 0.5, 0.0),
        verdict_row("ins", Verdict::Insufficient, 1.0, 0.0),
        verdict_row("gone", Verdict::MissingFromCurrent, 1.0, 0.0),
    ];
    let cfg = Config::default();
    let rep = DiffReport::assemble("v1", rows, &cfg);
    let names: Vec<&str> = rep.rows.iter().map(|r| r.name.as_str()).collect();
    assert_eq!(names, vec!["big_reg", "small_reg", "imp", "same", "ins", "gone", "new", "ign"]);
    assert_eq!(rep.baseline_label, "v1");
    assert_eq!(rep.alpha, cfg.alpha);
    assert_eq!(rep.correction, "none");
    assert_eq!((rep.regressions(), rep.improvements(), rep.unchanged()), (2, 1, 1));
}

#[test]
fn sort_by_change_is_stable() {
    let rows = vec![
        verdict_row("a", Verdict::Unchanged, 0.5, 0.1),
        verdict_row("b", Verdict::Regression, 0.5, -0.1),
        verdict_row("c", Verdict::Unchanged, 0.5, 0.3),
    ];
    let out = sort_rows(rows, RowOrder::Change);
    let names: Vec<&str> = out.iter().map(|r| r.name.as_str()).collect();
    assert_eq!(names, vec!["c", "a", "b"]);
}

#[test]
fn counts_follow_verdicts() {
    let rows = vec![
        verdict_row("a", Verdict::Regression, 0.01, 0.5),
        verdict_row("b", Verdict::Improvement, 0.01, -0.5),
        verdict_row("c", Verdict::Unchanged, 0.5, 0.0),
        verdict_row("d", Verdict::Regression, 0.01, 0.2),
    ];
    let rep = DiffReport::assemble("v1", rows, &Config::default());
    assert_eq!(rep.regressions(), 2);
    assert_eq!(rep.improvements(), 1);
    assert_eq!(rep.unchanged(), 1);
    assert!(Verdict::Regression.is_regression());
    assert!(!Verdict::Improvement.is_regression());
}

#[test]
fn rows_follow_the_plan() {
    let a = run(vec![("foo", vec![100.0, 101.0, 99.0]), ("gone", vec![1.0])]);
    let b = run(vec![("foo", vec![150.0, 151.0]), ("fresh", vec![1.0])]);
    let cfg = Config::default();
    let plan = plan_rows(&a, &b, &cfg);
    let stats = vec![
        stats(&[100.0, 101.0, 99.0], &[150.0, 151.0], 0.001, 3.0),
        stats(&[0.0], &[0.0], 0.5, 0.0),
        stats(&[0.0], &[0.0], 0.5, 0.0),
    ];
    let rows = rows_from_plan(&a, &b, &plan, &stats, &cfg);
    let got: Vec<(&str, Verdict, usize, usize)> =
        rows.iter().map(|r| (r.name.as_str(), r.verdict, r.n_baseline, r.n_current)).collect();
    assert_eq!(
        got,
        vec![
            ("foo", Verdict::Regression, 3, 2),
            ("gone", Verdict::MissingFromCurrent, 0, 0),
            ("fresh", Verdict::NewInCurrent, 0, 0),
        ]
    );
    assert_eq!(rows[1].p_value, bits(1.0));
}

/// Statistics of constant samples: Welch's test gives p = 1 for equal means
/// and p = 0 otherwise.
fn constant_stats(a: &[f64], b: &[f64]) -> PairStats {
    let same = mean(a) == mean(b);
    stats(a, b, if same { 1.0 } else { 0.0 }, if same { 0.0 } else { f64::INFINITY })
}

fn planned_stats(a: &Run, b: &Run, cfg: &Config) -> Vec<PairStats> {
    let samples = |r: &Run, i: usize| -> Vec<f64> { r.benchmarks[i].samples.iter().map(|x| f64::from_bits(*x)).collect() };
    plan_rows(a, b, cfg)
        .iter()
        .map(|p| match p.kind {
            RowKind::Compared { baseline: i, current: j } => constant_stats(&samples(a, i), &samples(b, j)),
            _ => PairStats { mean_a: 0, mean_b: 0, quotient: 0, p: 0, d: 0 },
        })
        .collect()
}

#[test]
fn counts_match_rows() {
    let a = run(vec![
        ("foo", vec![100.0, 100.0, 100.0, 100.0, 100.0, 100.0, 100.0, 100.0]),
        ("bar", vec![100.0, 100.0, 100.0, 100.0, 100.0, 100.0, 100.0, 100.0]),
        ("baz", vec![100.0, 100.0, 100.0, 100.0, 100.0, 100.0, 100.0, 100.0]),
    ]);
    let b = run(vec![
        ("foo", vec![200.0, 200.0, 200.0, 200.0, 200.0, 200.0, 200.0, 200.0]),
        ("bar", vec![100.0, 100.0, 100.0, 100.0, 100.0, 100.0, 100.0, 100.0]),
        ("baz", vec![50.0, 50.0, 50.0, 50.0, 50.0, 50.0, 50.0, 50.0]),
    ]);
    let cfg = Config::default();
    let rep = compare_with_stats(&a, &b, "v1", &cfg, &planned_stats(&a, &b, &cfg), &Vec::new());
    assert_eq!(rep.regressions(), 1);
    assert_eq!(rep.improvements(), 1);
    assert_eq!(rep.unchanged(), 1);
}

#[test]
fn identical_runs_flag_nothing() {
    let a = run(vec![("foo", vec![100.0, 100.0, 100.0]), ("one", vec![1.0]), ("skip_x", vec![5.0, 5.0])]);
    let mut cfg = Config::default();
    cfg.ignore.patterns.push("skip_*".into());
    let rep = compare_with_stats(&a, &a, "v1", &cfg, &planned_stats(&a, &a, &cfg), &Vec::new());
    let vs: Vec<Verdict> = rep.rows.iter().map(|r| r.verdict).collect();
    assert_eq!(vs, vec![Verdict::Unchanged, Verdict::Insufficient, Verdict::Ignored]);
}

#[test]
fn bh_correction_only_downgrades() {
    let a = run(vec![("foo", vec![100.0, 100.0, 100.0]), ("bar", vec![100.0, 100.0, 100.0])]);
    let b = run(vec![("foo", vec![150.0, 150.0, 150.0]), ("bar", vec![110.0, 110.0, 110.0])]);
    let mut cfg = Config::default();
    let st = vec![stats(&[100.0], &[150.0], 0.001, 3.0), stats(&[100.0], &[110.0], 0.04, 1.0)];
    let plain = compare_with_stats(&a, &b, "v1", &cfg, &st, &Vec::new());
    cfg.correction = "bh".into();
    // With two tests at q = 0.05 the thresholds are 0.025 and 0.05: both pass.
    let both = compare_with_stats(&a, &b, "v1", &cfg, &st, &vec![true, true]);
    // A decision not to reject bar turns it from regression to unchanged.
    let one = compare_with_stats(&a, &b, "v1", &cfg, &st, &vec![true, false]);
    assert_eq!((plain.regressions(), both.regressions(), one.regressions()), (2, 2, 1));
    let bar = one.rows.iter().find(|r| r.name == "bar").unwrap();
    assert_eq!(bar.verdict, Verdict::Unchanged);
    assert_eq!(bar.p_value, bits(0.04));
    assert_eq!(one.rows[0].name, "foo");
}

/// The step-up thresholds `(rank + 1) * q / n`, as the application computes them.
fn bh_thresholds(n: usize, q: f64) -> Vec<u64> {
    (0..n).map(|r| ((r + 1) as f64 * q / n as f64).to_bits()).collect()
}

#[test]
fn detects_clean_regression() {
    let xa = [100.0, 101.0, 99.0, 100.5, 99.5, 100.1, 99.9, 100.2];
    let xb = [150.0, 151.0, 149.0, 150.5, 149.5, 150.1, 149.9, 150.2];
    let a = run(vec![("foo", xa.to_vec())]);
    let b = run(vec![("foo", xb.to_vec())]);
    let cfg = Config::default();
    let rep = compare_with_thresholds(&a, &b, "v1", &cfg, &vec![stats(&xa, &xb, 1e-12, 60.0)], &Vec::new());
    assert_eq!(rep.regressions(), 1);
    assert_eq!(rep.rows[0].verdict, Verdict::Regression);
    assert!(f64::from_bits(rep.rows[0].rel_change) > 0.4);
}

#[test]
fn detects_clean_improvement() {
    let xa = [200.0, 201.0, 199.0, 200.5, 199.5, 200.1, 199.9, 200.2];
    let xb = [100.0, 101.0, 99.0, 100.5, 99.5, 100.1, 99.9, 100.2];
    let a = run(vec![("foo", xa.to_vec())]);
    let b = run(vec![("foo", xb.to_vec())]);
    let cfg = Config::default();
    let rep = compare_with_thresholds(&a, &b, "v1", &cfg, &vec![stats(&xa, &xb, 1e-12, -120.0)], &Vec::new());
    assert_eq!(rep.improvements(), 1);
    assert_eq!(rep.regressions(), 0);
}

#[test]
fn below_threshold_is_unchanged() {
    // 2% change with the default 5% threshold: not flagged even though p < alpha.
    let xa = [100.0, 100.0, 100.0, 100.0, 100.0, 100.0];
    let xb = [102.0, 102.0, 102.0, 102.0, 102.0, 102.0];
    let a = run(vec![("foo", xa.to_vec())]);
    let b = run(vec![("foo", xb.to_vec())]);
    let cfg = Config::default();
    let rep = compare_with_thresholds(&a, &b, "v1", &cfg, &vec![constant_stats(&xa, &xb)], &Vec::new());
    assert_eq!(rep.rows[0].verdict, Verdict::Unchanged);
}

#[test]
fn tolerance_override_allows_slowdown() {
    let xa = [100.0, 100.0, 100.0, 100.0, 100.0, 100.0];
    let xb = [110.0, 110.0, 110.0, 110.0, 110.0, 110.0];
    let a = run(vec![("slow_op", xa.to_vec())]);
    let b = run(vec![("slow_op", xb.to_vec())]);
    let mut cfg = Config::default();
    cfg.tolerance.insert("slow_op", Some(bits(0.20)));
    let rep = compare_with_thresholds(&a, &b, "v1", &cfg, &vec![constant_stats(&xa, &xb)], &Vec::new());
    // 10% change but the tolerance is 20%: unchanged.
    assert_eq!(rep.rows[0].verdict, Verdict::Unchanged);
}

#[test]
fn bh_correction_downgrades_borderline() {
    let base = [100.0, 100.0, 100.0, 100.0, 100.0, 100.0, 100.0, 100.0];
    let foo = [150.0, 150.5, 149.5, 150.2, 149.8, 150.1, 149.9, 150.3];
    let bar = [106.0, 107.0, 105.0, 106.0, 107.0, 105.0, 106.0, 107.0];
    let a = run(vec![("foo", base.to_vec()), ("bar", base.to_vec())]);
    let b = run(vec![("foo", foo.to_vec()), ("bar", bar.to_vec())]);
    let mut cfg = Config::default();
    cfg.correction = "bh".into();
    // Strong regression, and a borderline one just above the threshold.
    let st = vec![stats(&base, &foo, 1e-12, 900.0), stats(&base, &bar, 0.03, 7.0)];
    let rep = compare_with_thresholds(&a, &b, "v1", &cfg, &st, &bh_thresholds(2, 0.05));
    let foo_row = rep.rows.iter().find(|r| r.name == "foo").unwrap();
    assert_eq!(foo_row.verdict, Verdict::Regression);
    // 0.03 at rank 1 passes its threshold 0.05, so bar stays a regression too.
    let bar_row = rep.rows.iter().find(|r| r.name == "bar").unwrap();
    assert_eq!(bar_row.verdict, Verdict::Regression);
}

#[test]
fn bh_thresholds_decide_through_the_library() {
    let base = [100.0, 100.0, 100.0];
    let up = [150.0, 150.0, 150.0];
    let a = run(vec![("x", base.to_vec()), ("y", base.to_vec())]);
    let b = run(vec![("x", up.to_vec()), ("y", up.to_vec())]);
    let mut cfg = Config::default();
    cfg.correction = "bh".into();
    // Sorted p-values 0.001 (y) and 0.04 (x) against thresholds 0.025 and
    // 0.03: only rank 0 passes, so y is rejected and x is downgraded.
    let st = vec![stats(&base, &up, 0.04, 1.0), stats(&base, &up, 0.001, 1.0)];
    let th = vec![0.025f64.to_bits(), 0.03f64.to_bits()];
    let rep = compare_with_thresholds(&a, &b, "v1", &cfg, &st, &th);
    let x = rep.rows.iter().find(|r| r.name == "x").unwrap();
    let y = rep.rows.iter().find(|r| r.name == "y").unwrap();
    assert_eq!((x.verdict, y.verdict), (Verdict::Unchanged, Verdict::Regression));
    // Without the correction both are regressions.
    cfg.correction = "none".into();
    let plain = compare_with_thresholds(&a, &b, "v1", &cfg, &st, &Vec::new());
    assert_eq!(plain.regressions(), 2);
}
