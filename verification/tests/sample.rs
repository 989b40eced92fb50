use benchdiff::error::Error;
use benchdiff::sample::{Benchmark, Run, Unit};

fn bits(xs: &[f64]) -> Vec<u64> {
    xs.iter().map(|x| x.to_bits()).collect()
}

#[test]
fn unit_is_time() {
    assert!(Unit::Ns.is_time());
    assert!(Unit::Ms.is_time());
    assert!(Unit::S.is_time());
    assert!(!Unit::Ops.is_time());
    assert!(!Unit::Bytes.is_time());
}

#[test]
fn unit_parse_accepts_variants() {
    assert_eq!(Unit::parse("ns").unwrap(), Unit::Ns);
    assert_eq!(Unit::parse("NS").unwrap(), Unit::Ns);
    assert_eq!(Unit::parse("ns/op").unwrap(), Unit::Ns);
    assert_eq!(Unit::parse("microseconds").unwrap(), Unit::Us);
    assert_eq!(Unit::parse("ms").unwrap(), Unit::Ms);
    assert_eq!(Unit::parse("  s  ").unwrap(), Unit::S);
    assert_eq!(Unit::parse("ops").unwrap(), Unit::Ops);
    assert_eq!(Unit::parse("bytes").unwrap(), Unit::Bytes);
}

#[test]
fn unit_parse_rejects_unknown() {
    assert!(Unit::parse("furlongs").is_err());
}

#[test]
fn unit_as_str() {
    assert_eq!(Unit::Ns.as_str(), "ns");
    assert_eq!(Unit::Us.as_str(), "us");
    assert_eq!(Unit::Ms.as_str(), "ms");
    assert_eq!(Unit::S.as_str(), "s");
    assert_eq!(Unit::Ops.as_str(), "ops");
    assert_eq!(Unit::Bytes.as_str(), "bytes");
}

#[test]
fn benchmark_rejects_nan() {
    let r = Benchmark::new("x", bits(&[1.0, f64::NAN]), Unit::Ns);
    assert!(matches!(r, Err(Error::NonFinite { .. })));
}

#[test]
fn benchmark_rejects_infinity() {
    let r = Benchmark::new("x", bits(&[f64::INFINITY]), Unit::Ns);
    assert!(r.is_err());
}

#[test]
fn run_find_and_empty() {
    let mut run = Run::new("test");
    assert!(run.require_non_empty().is_err());
    run.benchmarks.push(Benchmark::new("a", bits(&[1.0]), Unit::Ns).unwrap());
    assert!(run.require_non_empty().is_ok());
    assert!(run.find("a").is_some());
    assert!(run.find("b").is_none());
}

#[test]
fn unit_parse_error_message_quotes_lowered_text() {
    let e = Unit::parse("  Furlongs ").unwrap_err();
    assert_eq!(
        e,
        Error::Parse { format: "unit".to_string(), message: "unknown unit \"furlongs\"".to_string() }
    );
}

#[test]
fn unit_parse_accepts_every_short_name() {
    for u in [Unit::Ns, Unit::Us, Unit::Ms, Unit::S, Unit::Ops, Unit::Bytes] {
        assert_eq!(Unit::parse(u.as_str()).unwrap(), u);
    }
    assert_eq!(Unit::parse("\u{3bc}s").unwrap(), Unit::Us);
    assert_eq!(Unit::parse("B/op").unwrap(), Unit::Bytes);
    assert_eq!(Unit::parse("Throughput").unwrap(), Unit::Ops);
}

#[test]
fn benchmark_keeps_name_samples_and_unit() {
    let b = Benchmark::new("enc", bits(&[1.5, -2.0, 0.0]), Unit::Ms).unwrap();
    assert_eq!(b.name, "enc");
    assert_eq!(b.samples, bits(&[1.5, -2.0, 0.0]));
    assert_eq!(b.unit, Unit::Ms);
    assert_eq!(b.n(), 3);
    let e = Benchmark::new("bad", bits(&[f64::NEG_INFINITY]), Unit::Ns).unwrap_err();
    assert_eq!(e, Error::NonFinite { name: "bad".to_string() });
}

#[test]
fn run_find_returns_first_of_duplicates() {
    let mut run = Run::new("t");
    run.benchmarks.push(Benchmark::new("a", bits(&[1.0]), Unit::Ns).unwrap());
    run.benchmarks.push(Benchmark::new("a", bits(&[2.0]), Unit::Ns).unwrap());
    assert_eq!(run.find("a").unwrap().samples, bits(&[1.0]));
    assert_eq!(run.find_index("a"), Some(0));
    assert_eq!(run.find_index("z"), None);
    assert_eq!(Run::new("t").require_non_empty(), Err(Error::EmptyInput));
}
