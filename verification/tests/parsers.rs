use benchdiff::error::Error;
use benchdiff::parsers::criterion::{
    bench_name_from_path, estimate_values, file_kind, sample_benchmark, stem_from_path, walk_step,
    CriterionFile, EstimatePoint, WalkStep,
};
use benchdiff::parsers::hyperfine::{build_run, sample_source, HyperfineResult, SampleSource, Spread};
use benchdiff::parsers::{check_input_size, csv, detect_format, gobench, lines_crlf, Format, MAX_INPUT_BYTES};
use benchdiff::sample::{Benchmark, Run, Unit};

/// Decode the numeric texts found by a scan, as the application does.
fn decode(texts: Vec<&str>) -> Vec<u64> {
    texts.iter().map(|t| t.parse::<f64>().unwrap().to_bits()).collect()
}

fn csv_parse(t: &str) -> Result<Run, Error> {
    let scan = csv::scan(t);
    let values = decode(scan.records.iter().map(|r| r.value.as_str()).collect());
    csv::assemble(&scan, &values)
}

fn go_parse(t: &str) -> Result<Run, Error> {
    let scan = gobench::scan(t);
    let values = decode(scan.records.iter().map(|r| r.value.as_str()).collect());
    gobench::assemble(&scan, &values)
}

fn sample(run: &Run, b: usize, k: usize) -> f64 {
    f64::from_bits(run.benchmarks[b].samples[k])
}

#[test]
fn format_as_str() {
    assert_eq!(Format::Criterion.as_str(), "criterion");
    assert_eq!(Format::GoBench.as_str(), "gobench");
    assert_eq!(Format::Hyperfine.as_str(), "hyperfine");
    assert_eq!(Format::Csv.as_str(), "csv");
}

#[test]
fn format_parse_accepts_variants() {
    assert_eq!(Format::parse("criterion").unwrap(), Format::Criterion);
    assert_eq!(Format::parse("go-bench").unwrap(), Format::GoBench);
    assert_eq!(Format::parse("GoBench").unwrap(), Format::GoBench);
    assert_eq!(Format::parse("go").unwrap(), Format::GoBench);
    assert_eq!(Format::parse("hyperfine").unwrap(), Format::Hyperfine);
    assert_eq!(Format::parse("csv").unwrap(), Format::Csv);
}

#[test]
fn format_parse_rejects_unknown() {
    assert!(Format::parse("magic").is_err());
}

#[test]
fn detect_csv_by_ext() {
    assert_eq!(detect_format(false, "csv", None).unwrap(), Format::Csv);
}

#[test]
fn detect_hyperfine_by_content() {
    let content = r#"{"results":[{"command":"x","times":[0.1],"mean":0.1}]}"#;
    assert_eq!(detect_format(false, "json", Some(content)).unwrap(), Format::Hyperfine);
}

#[test]
fn detect_criterion_by_content() {
    let content = r#"{"mean":{"estimate":1.0}}"#;
    assert_eq!(detect_format(false, "json", Some(content)).unwrap(), Format::Criterion);
}

#[test]
fn detect_gobench_default_for_txt() {
    assert_eq!(detect_format(false, "txt", None).unwrap(), Format::GoBench);
}

#[test]
fn detect_directory_is_criterion() {
    assert_eq!(detect_format(true, "", None).unwrap(), Format::Criterion);
}

#[test]
fn detect_unknown_json_and_case_of_extension() {
    assert_eq!(detect_format(false, "json", Some("{\"x\":1}")).unwrap_err(), Error::UnknownFormat);
    assert_eq!(detect_format(false, "CSV", None).unwrap(), Format::Csv);
    assert_eq!(detect_format(false, "JSON", Some("{\"RESULTS\":[], \"Times\":1}")).unwrap(), Format::Hyperfine);
}

#[test]
fn lines_crlf_handles_both_endings() {
    let lines = lines_crlf("a\r\nb\nc\r\n");
    assert_eq!(lines, vec!["a", "b", "c", ""]);
}

#[test]
fn lines_crlf_strips_only_one_carriage_return() {
    assert_eq!(lines_crlf("x\r\r\ny"), vec!["x\r", "y"]);
    assert_eq!(lines_crlf(""), vec![""]);
}

#[test]
fn input_size_limit() {
    assert!(check_input_size(MAX_INPUT_BYTES).is_ok());
    assert_eq!(
        check_input_size(MAX_INPUT_BYTES + 1).unwrap_err(),
        Error::InputTooLarge { bytes: MAX_INPUT_BYTES + 1, limit: 268_435_456 }
    );
}

// CSV

#[test]
fn parses_header_and_rows() {
    let t = "name,value,unit\nfoo,100,ns\nfoo,101,ns\nbar,5,ms\n";
    let run = csv_parse(t).unwrap();
    assert_eq!(run.benchmarks.len(), 2);
}

#[test]
fn no_header_required() {
    let t = "foo,100,ns\nfoo,101,ns\n";
    let run = csv_parse(t).unwrap();
    assert_eq!(run.benchmarks.len(), 1);
    assert_eq!(run.benchmarks[0].samples.len(), 2);
}

#[test]
fn unit_mismatch_rejected() {
    let t = "foo,100,ns\nfoo,0.1,ms\n";
    assert!(csv_parse(t).is_err());
}

#[test]
fn bad_number_rejected() {
    let t = "foo,abc,ns\n";
    assert!(csv_parse(t).is_err());
}

#[test]
fn bad_unit_rejected() {
    let t = "foo,100,furlongs\n";
    assert!(csv_parse(t).is_err());
}

#[test]
fn missing_columns_rejected() {
    let t = "foo,100\n";
    assert!(csv_parse(t).is_err());
}

#[test]
fn empty_name_rejected() {
    let t = ",100,ns\n";
    assert!(csv_parse(t).is_err());
}

#[test]
fn comments_and_blanks_skipped() {
    let t = "# comment\nfoo,100,ns\n\nfoo,101,ns\n";
    let run = csv_parse(t).unwrap();
    assert_eq!(run.benchmarks[0].samples.len(), 2);
}

#[test]
fn handles_crlf() {
    let t = "foo,100,ns\r\nfoo,101,ns\r\n";
    let run = csv_parse(t).unwrap();
    assert_eq!(run.benchmarks[0].samples.len(), 2);
}

#[test]
fn nonfinite_rejected() {
    let t = "foo,inf,ns\n";
    let err = csv_parse(t).unwrap_err();
    assert!(matches!(err, Error::NonFinite { .. }));
}

#[test]
fn csv_errors_name_the_line() {
    assert_eq!(
        csv_parse("foo,1,ns\nfoo,100\n").unwrap_err(),
        Error::Parse { format: "csv".to_string(), message: "line 3: expected 3 columns".to_string() }
    );
    assert_eq!(
        csv_parse("name,value,unit\n ,1,ns\n").unwrap_err(),
        Error::Parse { format: "csv".to_string(), message: "line 2: empty name".to_string() }
    );
    assert_eq!(
        csv_parse("foo, abc ,ns\n").unwrap_err(),
        Error::InvalidNumber { field: "value".to_string(), value: " abc ".to_string() }
    );
    assert_eq!(
        csv_parse("foo,1,ns\nfoo,2,ms\n").unwrap_err(),
        Error::Parse { format: "csv".to_string(), message: "line 3: unit changed within a benchmark".to_string() }
    );
}

#[test]
fn csv_benchmarks_sorted_by_name_with_samples_in_order() {
    let run = csv_parse("zeta,3,us\nalpha,1,ns\nzeta,4,us\n").unwrap();
    assert_eq!(run.source, "csv");
    let names: Vec<&str> = run.benchmarks.iter().map(|b| b.name.as_str()).collect();
    assert_eq!(names, vec!["alpha", "zeta"]);
    assert_eq!(run.benchmarks[1].unit, Unit::Us);
    assert_eq!((sample(&run, 1, 0), sample(&run, 1, 1)), (3.0, 4.0));
}

// Go bench

#[test]
fn parses_simple_bench_line() {
    let t = "BenchmarkFoo-8   1000000   123.4 ns/op\n";
    let run = go_parse(t).unwrap();
    assert_eq!(run.benchmarks.len(), 1);
    let b = &run.benchmarks[0];
    assert_eq!(b.name, "BenchmarkFoo");
    assert_eq!(b.unit, Unit::Ns);
    assert!((f64::from_bits(b.samples[0]) - 123.4).abs() < 1e-9);
}

#[test]
fn aggregates_count_repeats() {
    let t = "\
BenchmarkFoo-8 1000 100 ns/op
BenchmarkFoo-8 1000 101 ns/op
BenchmarkFoo-8 1000 99 ns/op
";
    let run = go_parse(t).unwrap();
    assert_eq!(run.benchmarks.len(), 1);
    assert_eq!(run.benchmarks[0].samples.len(), 3);
}

#[test]
fn parses_multiple_benchmarks() {
    let t = "\
BenchmarkFoo-8 1000 100 ns/op
BenchmarkBar-8 1000 200 ns/op
";
    let run = go_parse(t).unwrap();
    assert_eq!(run.benchmarks.len(), 2);
}

#[test]
fn preserves_subtest_names() {
    let t = "BenchmarkFoo/case1-8 1000 100 ns/op\n";
    let run = go_parse(t).unwrap();
    assert_eq!(run.benchmarks[0].name, "BenchmarkFoo/case1");
}

#[test]
fn ignores_non_bench_lines() {
    let t = "\
goos: linux
goarch: amd64
pkg: example.com/x
BenchmarkFoo-8 1000 100 ns/op
PASS
ok      example.com/x    1.234s
";
    let run = go_parse(t).unwrap();
    assert_eq!(run.benchmarks.len(), 1);
}

#[test]
fn handles_us_unit() {
    let run = go_parse("BenchmarkFoo-8 1000 1.5 us/op\n").unwrap();
    assert_eq!(run.benchmarks[0].unit, Unit::Us);
}

#[test]
fn handles_ms_unit() {
    let run = go_parse("BenchmarkFoo-8 1000 1.5 ms/op\n").unwrap();
    assert_eq!(run.benchmarks[0].unit, Unit::Ms);
}

#[test]
fn handles_s_unit() {
    let run = go_parse("BenchmarkFoo-8 1000 1.5 s/op\n").unwrap();
    assert_eq!(run.benchmarks[0].unit, Unit::S);
}

#[test]
fn handles_crlf_line_endings() {
    let t = "BenchmarkFoo-8 1000 100 ns/op\r\nBenchmarkBar-8 1000 200 ns/op\r\n";
    let run = go_parse(t).unwrap();
    assert_eq!(run.benchmarks.len(), 2);
}

#[test]
fn strip_gomaxprocs_works() {
    assert_eq!(gobench::strip_gomaxprocs("BenchmarkFoo-8"), "BenchmarkFoo");
    assert_eq!(gobench::strip_gomaxprocs("BenchmarkFoo-16"), "BenchmarkFoo");
    assert_eq!(gobench::strip_gomaxprocs("BenchmarkFoo/case-1-8"), "BenchmarkFoo/case-1");
    assert_eq!(gobench::strip_gomaxprocs("BenchmarkFoo"), "BenchmarkFoo");
}

#[test]
fn ignores_unparseable_trailing_fields() {
    let t = "BenchmarkFoo-8 1000 100 ns/op 32 B/op 1 allocs/op\n";
    let run = go_parse(t).unwrap();
    assert_eq!(run.benchmarks.len(), 1);
    assert!((f64::from_bits(run.benchmarks[0].samples[0]) - 100.0).abs() < 1e-9);
}

#[test]
fn empty_input_yields_empty_run() {
    let run = go_parse("").unwrap();
    assert_eq!(run.benchmarks.len(), 0);
}

#[test]
fn bad_iters_line_ignored() {
    let t = "BenchmarkFoo-8 xx 100 ns/op\n";
    let run = go_parse(t).unwrap();
    assert_eq!(run.benchmarks.len(), 0);
}

#[test]
fn nonfinite_error_reports_real_name() {
    let t = "BenchmarkFoo-8 1000 NaN ns/op\n";
    let err = go_parse(t).unwrap_err();
    match err {
        Error::NonFinite { name } => {
            assert_eq!(name, "BenchmarkFoo");
        }
        other => panic!("expected NonFinite, got {other:?}"),
    }
}

#[test]
fn nonfinite_inf_reports_real_name() {
    let t = "BenchmarkBar-8 1000 inf ns/op\n";
    let err = go_parse(t).unwrap_err();
    match err {
        Error::NonFinite { name } => {
            assert_eq!(name, "BenchmarkBar");
        }
        other => panic!("expected NonFinite, got {other:?}"),
    }
}

#[test]
fn gobench_time_units_and_unit_change() {
    assert_eq!(gobench::match_time_unit("ns/op"), Some(Unit::Ns));
    assert_eq!(gobench::match_time_unit("s/op"), Some(Unit::S));
    assert_eq!(gobench::match_time_unit("B/op"), None);
    let err = go_parse("BenchmarkA 1 1 ns/op\nBenchmarkA 1 1 ms/op\n").unwrap_err();
    assert_eq!(
        err,
        Error::Parse {
            format: "gobench".to_string(),
            message: "unit changed mid-run for benchmark \"BenchmarkA\"".to_string()
        }
    );
    let long = format!("BenchmarkA 1 {} ns/op\n", "1".repeat(1_048_577));
    assert!(matches!(go_parse(&long), Err(Error::LineTooLong { .. })));
}

// hyperfine

/// Decode a hyperfine export as the application does.
fn hyperfine_parse(t: &str) -> Result<Run, Error> {
    let v: serde_json::Value = serde_json::from_str(t).unwrap();
    let mut results = Vec::new();
    let mut spreads = Vec::new();
    for r in v["results"].as_array().unwrap() {
        let times: Vec<u64> = r
            .get("times")
            .and_then(|x| x.as_array())
            .map(|a| a.iter().map(|x| x.as_f64().unwrap().to_bits()).collect())
            .unwrap_or_default();
        let mean = r.get("mean").and_then(|x| x.as_f64());
        let sd = r.get("stddev").and_then(|x| x.as_f64());
        let m = mean.unwrap_or(0.0);
        let s = sd.unwrap_or(0.0);
        spreads.push(Spread { low: (m - s).to_bits(), high: (m + s).to_bits() });
        results.push(HyperfineResult {
            command: r["command"].as_str().unwrap().to_string(),
            times,
            mean: mean.map(f64::to_bits),
            stddev: sd.map(f64::to_bits),
        });
    }
    build_run(&results, &spreads)
}

#[test]
fn parses_two_commands() {
    let t = r#"{
        "results": [
            {"command":"cmd-a","times":[0.10,0.11,0.09,0.10,0.105],"mean":0.101,"stddev":0.005},
            {"command":"cmd-b","times":[0.20,0.21,0.19,0.20,0.205],"mean":0.201,"stddev":0.005}
        ]
    }"#;
    let run = hyperfine_parse(t).unwrap();
    assert_eq!(run.benchmarks.len(), 2);
    assert_eq!(run.benchmarks[0].name, "cmd-a");
    assert_eq!(run.benchmarks[0].samples.len(), 5);
    assert_eq!(run.benchmarks[0].unit, Unit::S);
}

#[test]
fn missing_times_falls_back_to_mean() {
    let t = r#"{ "results": [ {"command":"cmd","times":[],"mean":0.5,"stddev":0.1} ] }"#;
    let run = hyperfine_parse(t).unwrap();
    assert_eq!(run.benchmarks[0].samples.len(), 3);
}

#[test]
fn missing_times_and_stddev_uses_mean_twice() {
    let t = r#"{ "results": [ {"command":"cmd","times":[],"mean":0.5} ] }"#;
    let run = hyperfine_parse(t).unwrap();
    assert_eq!(run.benchmarks[0].samples.len(), 2);
}

#[test]
fn missing_everything_skipped() {
    let t = r#"{ "results": [ {"command":"cmd","times":[]} ] }"#;
    let run = hyperfine_parse(t).unwrap();
    assert_eq!(run.benchmarks.len(), 0);
}

#[test]
fn empty_results() {
    let t = r#"{ "results": [] }"#;
    let run = hyperfine_parse(t).unwrap();
    assert_eq!(run.benchmarks.len(), 0);
}

#[test]
fn unit_is_seconds() {
    let t = r#"{"results":[{"command":"x","times":[0.1,0.2]}]}"#;
    let run = hyperfine_parse(t).unwrap();
    assert_eq!(run.benchmarks[0].unit, Unit::S);
}

#[test]
fn hyperfine_fallback_values_and_nonfinite() {
    let run = hyperfine_parse(r#"{ "results": [ {"command":"c","times":[],"mean":0.5,"stddev":0.25} ] }"#).unwrap();
    assert_eq!((sample(&run, 0, 0), sample(&run, 0, 1), sample(&run, 0, 2)), (0.25, 0.5, 0.75));
    assert_eq!(run.source, "hyperfine");
    let r = HyperfineResult { command: "c".into(), times: vec![], mean: Some(1.0f64.to_bits()), stddev: None };
    assert_eq!(sample_source(&r), SampleSource::MeanTwice);
    let bad = HyperfineResult {
        command: "inf".into(),
        times: vec![0.1f64.to_bits(), f64::INFINITY.to_bits()],
        mean: None,
        stddev: None,
    };
    let ok = HyperfineResult { command: "ok".into(), times: vec![0.1f64.to_bits()], mean: None, stddev: None };
    let sp = Spread { low: 0, high: 0 };
    assert_eq!(build_run(&vec![ok, bad], &vec![sp, sp]).unwrap_err(), Error::NonFinite { name: "inf".into() });
}

// Criterion

fn floats(v: &serde_json::Value, key: &str) -> Vec<f64> {
    v.get(key).and_then(|x| x.as_array()).map(|a| a.iter().map(|x| x.as_f64().unwrap()).collect()).unwrap_or_default()
}

/// Decode a `sample.json` and build its benchmark as the application does.
fn sample_file(text: &str, name: &str) -> Result<Benchmark, Error> {
    let v: serde_json::Value = serde_json::from_str(text).unwrap();
    let iters = floats(&v, "iters");
    let times = floats(&v, "times");
    let quotients: Vec<u64> =
        times.iter().zip(iters.iter().chain(std::iter::repeat(&1.0))).map(|(t, i)| (t / i).to_bits()).collect();
    let iters: Vec<u64> = iters.iter().map(|x| x.to_bits()).collect();
    let times: Vec<u64> = times.iter().map(|x| x.to_bits()).collect();
    sample_benchmark(name, "bench/new/sample.json", &iters, &times, &quotients)
}

fn point(v: &serde_json::Value, key: &str) -> Option<EstimatePoint> {
    v.get(key).map(|p| EstimatePoint {
        estimate: p.get("point_estimate").or_else(|| p.get("estimate")).and_then(|x| x.as_f64()).map(f64::to_bits),
        lower_bound: p.get("lower_bound").and_then(|x| x.as_f64()).map(f64::to_bits),
        upper_bound: p.get("upper_bound").and_then(|x| x.as_f64()).map(f64::to_bits),
    })
}

#[test]
fn sample_file_parses() {
    let name = stem_from_path(Some("bench"));
    let b = sample_file(r#"{"iters":[1,1,1],"times":[100.0,101.0,99.0]}"#, &name).unwrap();
    assert_eq!(b.samples.len(), 3);
    assert_eq!(b.name, "bench");
}

#[test]
fn sample_file_divides_by_iters() {
    let b = sample_file(r#"{"iters":[10,10,10],"times":[1000.0,1010.0,990.0]}"#, "bench").unwrap();
    assert!((f64::from_bits(b.samples[0]) - 100.0).abs() < 1e-9);
}

#[test]
fn estimates_file_synthesizes() {
    let text = r#"{
        "mean":{"point_estimate":100.0,"lower_bound":95.0,"upper_bound":105.0},
        "median":{"point_estimate":100.0},
        "std_dev":{"point_estimate":2.5}
    }"#;
    let v: serde_json::Value = serde_json::from_str(text).unwrap();
    let (m, sd) = estimate_values("bench/new/estimates.json", &point(&v, "mean"), &point(&v, "std_dev")).unwrap();
    let (m, sd) = (f64::from_bits(m), f64::from_bits(sd));
    let b = Benchmark::new("bench", vec![(m - sd).to_bits(), m.to_bits(), (m + sd).to_bits()], Unit::Ns).unwrap();
    assert_eq!(b.samples.len(), 3);
    assert!((f64::from_bits(b.samples[1]) - 100.0).abs() < 1e-9);
}

#[test]
fn empty_times_rejected() {
    assert!(sample_file(r#"{"iters":[],"times":[]}"#, "bench").is_err());
}

#[test]
fn unknown_file_rejected() {
    assert!(file_kind("random.json").is_err());
}

#[test]
fn criterion_file_kinds_and_names() {
    assert_eq!(file_kind("sample.json").unwrap(), CriterionFile::Sample);
    assert_eq!(file_kind("estimates.json").unwrap(), CriterionFile::Estimates);
    assert_eq!(
        file_kind("random.json").unwrap_err(),
        Error::Parse { format: "criterion".to_string(), message: "unsupported criterion file: random.json".to_string() }
    );
    assert_eq!(bench_name_from_path(Some("enc")), "enc");
    assert_eq!(bench_name_from_path(None), "unnamed");
    assert_eq!(stem_from_path(None), "criterion");
}

#[test]
fn criterion_walk_prefers_samples_and_skips_reports() {
    assert_eq!(walk_step(true, Some("report"), true, true, true), WalkStep::Skip);
    assert_eq!(walk_step(false, Some("x.json"), false, false, false), WalkStep::Skip);
    assert_eq!(walk_step(true, Some("bench"), true, true, true), WalkStep::ReadSample);
    assert_eq!(walk_step(true, Some("bench"), true, false, true), WalkStep::ReadEstimates);
    assert_eq!(walk_step(true, Some("bench"), true, false, false), WalkStep::Descend);
    assert_eq!(walk_step(true, None, false, true, true), WalkStep::Descend);
}

#[test]
fn criterion_sample_edge_cases() {
    // Mismatched lengths: the times are kept as recorded.
    let b = sample_file(r#"{"iters":[10],"times":[1000.0,2000.0]}"#, "b").unwrap();
    assert_eq!(b.samples, vec![1000.0f64.to_bits(), 2000.0f64.to_bits()]);
    // A zero iteration count keeps that time as recorded.
    let b = sample_file(r#"{"iters":[0,2],"times":[7.0,8.0]}"#, "b").unwrap();
    assert_eq!(b.samples, vec![7.0f64.to_bits(), 4.0f64.to_bits()]);
    assert_eq!(
        sample_file(r#"{"times":[]}"#, "b").unwrap_err(),
        Error::Parse {
            format: "criterion".to_string(),
            message: "sample.json has no times: bench/new/sample.json".to_string()
        }
    );
    let none = EstimatePoint { estimate: None, lower_bound: None, upper_bound: Some(3.0f64.to_bits()) };
    assert_eq!(none.value(), Some(3.0f64.to_bits()));
    assert_eq!(
        estimate_values("p", &None, &None).unwrap_err(),
        Error::Parse { format: "criterion".to_string(), message: "no mean in p".to_string() }
    );
    let m = EstimatePoint { estimate: Some(42.0f64.to_bits()), lower_bound: None, upper_bound: None };
    assert_eq!(estimate_values("p", &Some(m), &None).unwrap(), (42.0f64.to_bits(), 0));
}

#[test]
fn format_names_parse_back() {
    for f in [Format::Criterion, Format::GoBench, Format::Hyperfine, Format::Csv] {
        assert_eq!(Format::parse(f.as_str()).unwrap(), f);
    }
}

#[test]
fn crlf_text_reads_like_lf_text() {
    let lf = "BenchmarkA 1 1 ns/op\n\nname,x\nlast";
    let crlf = lf.replace('\n', "\r\n");
    assert_eq!(lines_crlf(&crlf), lines_crlf(lf));
    assert_eq!(lines_crlf(lf), lf.split('\n').collect::<Vec<_>>());
    assert_eq!(go_parse(&crlf).unwrap().benchmarks.len(), go_parse(lf).unwrap().benchmarks.len());
}

#[test]
fn detect_hyperfine_without_times() {
    let content = r#"{"results":[{"command":"x","mean":0.1}]}"#;
    assert_eq!(detect_format(false, "json", Some(content)).unwrap(), Format::Hyperfine);
    let run = hyperfine_parse(content).unwrap();
    assert_eq!(run.benchmarks[0].samples, vec![0.1f64.to_bits(), 0.1f64.to_bits()]);
}

#[test]
fn non_finite_overflow_handled() {
    // A time that decodes to infinity never reaches a benchmark.
    let r = HyperfineResult {
        command: "x".into(),
        times: vec![0.1f64.to_bits(), f64::INFINITY.to_bits(), 0.1f64.to_bits()],
        mean: None,
        stddev: None,
    };
    let sp = Spread { low: 0, high: 0 };
    match build_run(&vec![r], &vec![sp]) {
        Err(Error::NonFinite { .. }) => {}
        other => panic!("unexpected result: {other:?}"),
    }
}

#[test]
fn lines_count_line_feeds_plus_one() {
    for t in ["", "a", "a\nb", "\n\n", "x\r\ny\n"] {
        let lines = lines_crlf(t);
        assert_eq!(lines.len(), t.matches('\n').count() + 1);
        assert!(lines.iter().all(|l| !l.contains('\n')));
    }
}
