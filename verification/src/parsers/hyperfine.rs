//! Benchmarks from `hyperfine --export-json` output.
//!
//! Each entry of the `results` array names a command and holds its run times
//! in seconds. Decoding the JSON text into [`HyperfineResult`] values, and the
//! floating-point `mean - stddev` / `mean + stddev` of the fallback, belong to
//! the caller; which samples each entry contributes, which entries are
//! skipped, and which error stops the run are decided here.
use vstd::prelude::*;
use crate::error::{Error, ErrorView};
use crate::sample::{Benchmark, BenchmarkView, Run, Unit, all_finite};

verus! {

/// One entry of hyperfine's `results` array; timings are IEEE-754 encodings.
#[derive(Debug, Clone)]
pub struct HyperfineResult {
    pub command: String,
    pub times: Vec<u64>,
    pub mean: Option<u64>,
    pub stddev: Option<u64>,
}

pub struct HyperfineResultView {
    pub command: Seq<char>,
    pub times: Seq<u64>,
    pub mean: Option<u64>,
    pub stddev: Option<u64>,
}

impl View for HyperfineResult {
    type V = HyperfineResultView;

    open spec fn view(&self) -> HyperfineResultView {
        HyperfineResultView {
            command: self.command@,
            times: self.times@,
            mean: self.mean,
            stddev: self.stddev,
        }
    }
}

pub open spec fn results_view(rs: Seq<HyperfineResult>) -> Seq<HyperfineResultView> {
    rs.map_values(|r: HyperfineResult| r@)
}

/// Where the samples of an entry come from.
#[derive(Debug, Clone, Copy, PartialEq, Eq, Structural)]
pub enum SampleSource {
    /// The recorded run times.
    Times,
    /// No run times: `mean - stddev`, `mean`, `mean + stddev`.
    MeanAndSpread,
    /// No run times and no standard deviation: the mean twice.
    MeanTwice,
    /// Neither run times nor a mean: the entry is skipped.
    Skipped,
}

pub open spec fn source_spec(r: HyperfineResultView) -> SampleSource {
    if r.times.len() > 0 {
        SampleSource::Times
    } else {
        match (r.mean, r.stddev) {
            (Some(_), Some(_)) => SampleSource::MeanAndSpread,
            (Some(_), None) => SampleSource::MeanTwice,
            _ => SampleSource::Skipped,
        }
    }
}

/// Where the samples of `r` come from.
pub fn sample_source(r: &HyperfineResult) -> (s: SampleSource)
    ensures
        s == source_spec(r@),
{
    if r.times.len() > 0 {
        SampleSource::Times
    } else {
        match (r.mean, r.stddev) {
            (Some(_), Some(_)) => SampleSource::MeanAndSpread,
            (Some(_), None) => SampleSource::MeanTwice,
            _ => SampleSource::Skipped,
        }
    }
}

/// The encodings of `mean - stddev` and `mean + stddev` for an entry (any
/// value where the entry does not fall back to its mean and spread).
#[derive(Debug, Clone, Copy)]
pub struct Spread {
    pub low: u64,
    pub high: u64,
}

/// The samples an entry contributes, `None` when it is skipped.
pub open spec fn samples_spec(r: HyperfineResultView, sp: Spread) -> Option<Seq<u64>> {
    match source_spec(r) {
        SampleSource::Times => Some(r.times),
        SampleSource::MeanAndSpread => Some(seq![sp.low, r.mean.unwrap(), sp.high]),
        SampleSource::MeanTwice => Some(seq![r.mean.unwrap(), r.mean.unwrap()]),
        SampleSource::Skipped => None,
    }
}

/// The benchmarks of the entries, in order, each in seconds; the first entry
/// with a NaN or infinite sample stops the run with `NonFinite`.
pub open spec fn hyperfine_spec(rs: Seq<HyperfineResultView>, sps: Seq<Spread>) -> Result<
    Seq<BenchmarkView>,
    ErrorView,
>
    decreases rs.len(),
{
    if rs.len() == 0 {
        Ok(Seq::empty())
    } else {
        match hyperfine_spec(rs.drop_last(), sps) {
            Err(e) => Err(e),
            Ok(bs) => match samples_spec(rs.last(), sps[rs.len() - 1]) {
                None => Ok(bs),
                Some(s) => if all_finite(s) {
                    Ok(bs.push(BenchmarkView { name: rs.last().command, samples: s, unit: Unit::S }))
                } else {
                    Err(ErrorView::NonFinite { name: rs.last().command })
                },
            },
        }
    }
}

/// Once a prefix of the entries fails, the whole export fails the same way.
proof fn lemma_error_stays(rs: Seq<HyperfineResultView>, sps: Seq<Spread>, k: int)
    requires
        0 <= k <= rs.len(),
        hyperfine_spec(rs.take(k), sps) is Err,
    ensures
        hyperfine_spec(rs, sps) == hyperfine_spec(rs.take(k), sps),
    decreases rs.len() - k,
{
    if k < rs.len() {
        assert(rs.take(k + 1).drop_last() == rs.take(k));
        lemma_error_stays(rs, sps, k + 1);
    } else {
        assert(rs.take(k) == rs);
    }
}

/// The samples of one entry.
fn entry_samples(r: &HyperfineResult, sp: Spread) -> (s: Option<Vec<u64>>)
    ensures
        match samples_spec(r@, sp) {
            Some(v) => s matches Some(w) && w@ == v,
            None => s is None,
        },
{
    match sample_source(r) {
        SampleSource::Times => Some(r.times.clone()),
        SampleSource::MeanAndSpread => {
            let m = r.mean.unwrap();
            Some(vec![sp.low, m, sp.high])
        },
        SampleSource::MeanTwice => {
            let m = r.mean.unwrap();
            Some(vec![m, m])
        },
        SampleSource::Skipped => None,
    }
}

/// Build the run of a hyperfine export: `spreads[i]` holds `mean - stddev`
/// and `mean + stddev` of `results[i]`.
pub fn build_run(results: &Vec<HyperfineResult>, spreads: &Vec<Spread>) -> (r: Result<Run, Error>)
    requires
        spreads@.len() == results@.len(),
    ensures
        match hyperfine_spec(results_view(results@), spreads@) {
            Ok(bs) => r matches Ok(run) && run@.benchmarks == bs && run@.source == "hyperfine"@,
            Err(e) => r matches Err(err) && err@ == e,
        },
        r matches Ok(run) ==> forall|k: int|
            0 <= k < run@.benchmarks.len() ==> all_finite(#[trigger] run@.benchmarks[k].samples),
{
    let ghost rv = results_view(results@);
    let mut run = Run::new("hyperfine");
    assert(rv.take(0) =~= Seq::<HyperfineResultView>::empty());
    assert(run@.benchmarks =~= Seq::<BenchmarkView>::empty());
    for i in 0..results.len()
        invariant
            spreads@.len() == results@.len(),
            rv == results_view(results@),
            hyperfine_spec(rv.take(i as int), spreads@) == Ok::<Seq<BenchmarkView>, ErrorView>(
                run@.benchmarks,
            ),
            run@.source == "hyperfine"@,
            forall|k: int|
                0 <= k < run@.benchmarks.len() ==> all_finite(#[trigger] run@.benchmarks[k].samples),
    {
        assert(rv.take(i + 1).drop_last() == rv.take(i as int));
        assert(rv.take(i + 1).last() == results@[i as int]@);
        let r = &results[i];
        match entry_samples(r, spreads[i]) {
            None => {},
            Some(samples) => {
                match Benchmark::new(r.command.as_str(), samples, Unit::S) {
                    Ok(b) => {
                        let ghost before = run@.benchmarks;
                        run.benchmarks.push(b);
                        assert(run@.benchmarks =~= before.push(b@));
                    },
                    Err(e) => {
                        proof {
                            lemma_error_stays(rv, spreads@, i + 1);
                        }
                        return Err(e);
                    },
                }
            },
        }
    }
    assert(rv.take(results@.len() as int) == rv);
    Ok(run)
}

} // verus!
