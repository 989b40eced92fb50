//! Benchmarks from Criterion.rs output.
//!
//! Criterion writes one directory per benchmark under `target/criterion/`:
//!
//! ```text
//! target/criterion/<group>/<name>/new/sample.json    -- raw samples
//!                                     estimates.json -- summary only
//! ```
//!
//! `sample.json` (with `iters` and `times` arrays) is preferred; when only
//! `estimates.json` exists, samples are synthesized from the mean. Walking
//! the directory tree, reading the files and decoding their JSON belong to the
//! caller, as does the floating-point arithmetic (a time divided by its
//! iteration count, the mean plus or minus the standard deviation); the
//! decisions are taken here.
use vstd::prelude::*;
use crate::error::{Error, ErrorView};
use crate::ieee::{lt, lt_exec};
use crate::sample::{Benchmark, BenchmarkView, Unit, all_finite};
use crate::text::{copy_str, chars_of, append_chars, string_of};

verus! {

/// The two Criterion files that hold measurements.
#[derive(Debug, Clone, Copy, PartialEq, Eq, Structural)]
pub enum CriterionFile {
    /// `sample.json`: per-sample iteration counts and total times.
    Sample,
    /// `estimates.json`: summary statistics only.
    Estimates,
}

pub open spec fn file_kind_spec(fname: Seq<char>) -> Result<CriterionFile, ErrorView> {
    if fname == "sample.json"@ {
        Ok(CriterionFile::Sample)
    } else if fname == "estimates.json"@ {
        Ok(CriterionFile::Estimates)
    } else {
        Err(
            ErrorView::Parse {
                format: "criterion"@,
                message: "unsupported criterion file: "@ + fname,
            },
        )
    }
}

/// Which measurement file a single input file is, by its file name (empty
/// when the path has none).
pub fn file_kind(fname: &str) -> (r: Result<CriterionFile, Error>)
    ensures
        match file_kind_spec(fname@) {
            Ok(k) => r == Ok::<CriterionFile, Error>(k),
            Err(e) => r matches Err(err) && err@ == e,
        },
{
    let t = chars_of(fname);
    if crate::text::eq_lit(&t, "sample.json") {
        Ok(CriterionFile::Sample)
    } else if crate::text::eq_lit(&t, "estimates.json") {
        Ok(CriterionFile::Estimates)
    } else {
        let mut m = chars_of("unsupported criterion file: ");
        append_chars(&mut m, &t);
        Err(Error::Parse { format: copy_str("criterion"), message: string_of(&m) })
    }
}

/// The benchmark name of a Criterion benchmark directory: its own name, or
/// `"unnamed"` when it has none that is valid text.
pub fn bench_name_from_path(dir_name: Option<&str>) -> (r: String)
    ensures
        r@ == match dir_name {
            Some(n) => n@,
            None => "unnamed"@,
        },
{
    match dir_name {
        Some(n) => copy_str(n),
        None => copy_str("unnamed"),
    }
}

/// The benchmark name of a single measurement file
/// `<name>/new/sample.json`: the name of its grandparent directory, or
/// `"criterion"` when there is none.
pub fn stem_from_path(grandparent_name: Option<&str>) -> (r: String)
    ensures
        r@ == match grandparent_name {
            Some(n) => n@,
            None => "criterion"@,
        },
{
    match grandparent_name {
        Some(n) => copy_str(n),
        None => copy_str("criterion"),
    }
}

/// What the directory walk does with one entry of a directory.
#[derive(Debug, Clone, Copy, PartialEq, Eq, Structural)]
pub enum WalkStep {
    /// Not a directory, or a `report/` directory: nothing to read.
    Skip,
    /// Read `<entry>/new/sample.json` as the benchmark named after the entry.
    ReadSample,
    /// Read `<entry>/new/estimates.json` as the benchmark named after the entry.
    ReadEstimates,
    /// Walk into the entry.
    Descend,
}

pub open spec fn walk_step_spec(
    is_dir: bool,
    name: Option<Seq<char>>,
    has_new_dir: bool,
    has_sample: bool,
    has_estimates: bool,
) -> WalkStep {
    if !is_dir || name == Some("report"@) {
        WalkStep::Skip
    } else if has_new_dir && has_sample {
        WalkStep::ReadSample
    } else if has_new_dir && has_estimates {
        WalkStep::ReadEstimates
    } else {
        WalkStep::Descend
    }
}

/// The walk's decision for a directory entry: whether it is a directory, its
/// name, whether it has a `new/` directory and whether that holds a
/// `sample.json` or an `estimates.json` file. Benchmark directories are read
/// (samples preferred over estimates), other directories are walked into,
/// `report/` directories and plain files are skipped.
pub fn walk_step(
    is_dir: bool,
    name: Option<&str>,
    has_new_dir: bool,
    has_sample: bool,
    has_estimates: bool,
) -> (r: WalkStep)
    ensures
        r == walk_step_spec(
            is_dir,
            match name {
                Some(n) => Some(n@),
                None => None,
            },
            has_new_dir,
            has_sample,
            has_estimates,
        ),
{
    if !is_dir {
        return WalkStep::Skip;
    }
    match name {
        Some(n) => {
            if crate::text::eq_lit(&chars_of(n), "report") {
                return WalkStep::Skip;
            }
        },
        None => {},
    }
    if has_new_dir && has_sample {
        WalkStep::ReadSample
    } else if has_new_dir && has_estimates {
        WalkStep::ReadEstimates
    } else {
        WalkStep::Descend
    }
}

/// Per-sample values of `sample.json`: each time divided by its iteration
/// count when the two arrays have the same length and the count is positive
/// (`quotients[i]` being `times[i] / iters[i]`), the times as recorded
/// otherwise.
pub open spec fn per_iteration(iters: Seq<u64>, times: Seq<u64>, quotients: Seq<u64>) -> Seq<u64> {
    if iters.len() == times.len() {
        Seq::new(
            times.len(),
            |i: int|
                if lt(0, iters[i]) {
                    quotients[i]
                } else {
                    times[i]
                },
        )
    } else {
        times
    }
}

pub open spec fn sample_file_spec(
    name: Seq<char>,
    path: Seq<char>,
    iters: Seq<u64>,
    times: Seq<u64>,
    quotients: Seq<u64>,
) -> Result<BenchmarkView, ErrorView> {
    if times.len() == 0 {
        Err(
            ErrorView::Parse {
                format: "criterion"@,
                message: "sample.json has no times: "@ + path,
            },
        )
    } else {
        let s = per_iteration(iters, times, quotients);
        if all_finite(s) {
            Ok(BenchmarkView { name, samples: s, unit: Unit::Ns })
        } else {
            Err(ErrorView::NonFinite { name })
        }
    }
}

/// The benchmark of a decoded `sample.json` (`path` is shown in errors):
/// an error when it has no times; otherwise the per-iteration values in
/// nanoseconds, which must all be finite.
pub fn sample_benchmark(
    name: &str,
    path: &str,
    iters: &Vec<u64>,
    times: &Vec<u64>,
    quotients: &Vec<u64>,
) -> (r: Result<Benchmark, Error>)
    requires
        quotients@.len() == times@.len(),
    ensures
        match sample_file_spec(name@, path@, iters@, times@, quotients@) {
            Ok(b) => r matches Ok(x) && x@ == b,
            Err(e) => r matches Err(err) && err@ == e,
        },
{
    if times.len() == 0 {
        let mut m = chars_of("sample.json has no times: ");
        append_chars(&mut m, &chars_of(path));
        return Err(Error::Parse { format: copy_str("criterion"), message: string_of(&m) });
    }
    let samples = if iters.len() == times.len() {
        let mut v: Vec<u64> = Vec::new();
        for i in 0..times.len()
            invariant
                iters@.len() == times@.len(),
                quotients@.len() == times@.len(),
                v@ == per_iteration(iters@, times@, quotients@).take(i as int),
        {
            let x = if lt_exec(0, iters[i]) {
                quotients[i]
            } else {
                times[i]
            };
            v.push(x);
            assert(v@ =~= per_iteration(iters@, times@, quotients@).take(i + 1));
        }
        assert(v@ =~= per_iteration(iters@, times@, quotients@));
        v
    } else {
        times.clone()
    };
    Benchmark::new(name, samples, Unit::Ns)
}

/// A summary statistic of `estimates.json`: the point estimate and its
/// confidence bounds, as IEEE-754 encodings.
#[derive(Debug, Clone, Copy, PartialEq, Eq, Structural)]
pub struct EstimatePoint {
    pub estimate: Option<u64>,
    pub lower_bound: Option<u64>,
    pub upper_bound: Option<u64>,
}

pub open spec fn point_value(p: EstimatePoint) -> Option<u64> {
    match p.estimate {
        Some(v) => Some(v),
        None => match p.lower_bound {
            Some(v) => Some(v),
            None => p.upper_bound,
        },
    }
}

impl EstimatePoint {
    /// The point estimate, else the lower bound, else the upper bound.
    pub fn value(&self) -> (r: Option<u64>)
        ensures
            r == point_value(*self),
    {
        match self.estimate {
            Some(v) => Some(v),
            None => match self.lower_bound {
                Some(v) => Some(v),
                None => self.upper_bound,
            },
        }
    }
}

pub open spec fn estimates_spec(
    path: Seq<char>,
    mean: Option<EstimatePoint>,
    std_dev: Option<EstimatePoint>,
) -> Result<(u64, u64), ErrorView> {
    let m = match mean {
        Some(p) => point_value(p),
        None => None,
    };
    let sd = match std_dev {
        Some(p) => match point_value(p) {
            Some(v) => v,
            None => 0,
        },
        None => 0,
    };
    match m {
        Some(v) => Ok((v, sd)),
        None => Err(ErrorView::Parse { format: "criterion"@, message: "no mean in "@ + path }),
    }
}

/// The mean and standard deviation of a decoded `estimates.json` (`path` is
/// shown in errors): the mean is required; a missing standard deviation is
/// `0.0`. The benchmark then holds `mean - sd`, `mean`, `mean + sd`.
pub fn estimate_values(path: &str, mean: &Option<EstimatePoint>, std_dev: &Option<EstimatePoint>) -> (r:
    Result<(u64, u64), Error>)
    ensures
        match estimates_spec(path@, *mean, *std_dev) {
            Ok(v) => r == Ok::<(u64, u64), Error>(v),
            Err(e) => r matches Err(err) && err@ == e,
        },
{
    let m = match mean {
        Some(p) => p.value(),
        None => None,
    };
    let sd = match std_dev {
        Some(p) => match p.value() {
            Some(v) => v,
            None => 0,
        },
        None => 0,
    };
    match m {
        Some(v) => Ok((v, sd)),
        None => {
            let mut msg = chars_of("no mean in ");
            append_chars(&mut msg, &chars_of(path));
            Err(Error::Parse { format: copy_str("criterion"), message: string_of(&msg) })
        },
    }
}

} // verus!
