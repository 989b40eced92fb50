//! Core sample / benchmark / run types.
//!
//! A sample is the IEEE-754 encoding of the measured double (see
//! [`crate::ieee`]); converting units (a multiplication) is left to callers
//! that hold the values as doubles.
use vstd::prelude::*;
use crate::error::{Error, ErrorView, debug_str, debug_text};
use crate::ieee::{is_finite, is_finite_exec};
use crate::text::{ascii_lower, trim, chars_of, trim_chars, to_ascii_lower, eq_lit, string_of, copy_str};

verus! {

/// Unit of a benchmark measurement.
#[derive(Debug, Clone, Copy, PartialEq, Eq, Structural)]
pub enum Unit {
    /// Nanoseconds.
    Ns,
    /// Microseconds.
    Us,
    /// Milliseconds.
    Ms,
    /// Seconds.
    S,
    /// Operations per second (higher = better, inverted vs time).
    Ops,
    /// Bytes (memory, allocation size; higher = worse).
    Bytes,
}

/// The short name of each unit.
pub open spec fn unit_text(u: Unit) -> Seq<char> {
    match u {
        Unit::Ns => "ns"@,
        Unit::Us => "us"@,
        Unit::Ms => "ms"@,
        Unit::S => "s"@,
        Unit::Ops => "ops"@,
        Unit::Bytes => "bytes"@,
    }
}

/// The spellings that `Unit::parse` accepts once trimmed and ASCII-lowercased.
pub open spec fn unit_from_text(t: Seq<char>) -> Option<Unit> {
    if t == "ns"@ || t == "nanosecond"@ || t == "nanoseconds"@ || t == "ns/op"@ {
        Some(Unit::Ns)
    } else if t == "us"@ || t == "\u{3bc}s"@ || t == "microsecond"@ || t == "microseconds"@ {
        Some(Unit::Us)
    } else if t == "ms"@ || t == "millisecond"@ || t == "milliseconds"@ {
        Some(Unit::Ms)
    } else if t == "s"@ || t == "sec"@ || t == "second"@ || t == "seconds"@ {
        Some(Unit::S)
    } else if t == "ops"@ || t == "ops/s"@ || t == "throughput"@ {
        Some(Unit::Ops)
    } else if t == "bytes"@ || t == "b"@ || t == "b/op"@ {
        Some(Unit::Bytes)
    } else {
        None
    }
}

/// The outcome of `Unit::parse` on the text `s`.
pub open spec fn unit_parse_spec(s: Seq<char>) -> Result<Unit, ErrorView> {
    let t = ascii_lower(trim(s));
    match unit_from_text(t) {
        Some(u) => Ok(u),
        None => Err(
            ErrorView::Parse { format: "unit"@, message: "unknown unit "@ + debug_text(t) },
        ),
    }
}

pub open spec fn result_view<T>(r: Result<T, Error>) -> Result<T, ErrorView> {
    match r {
        Ok(v) => Ok(v),
        Err(e) => Err(e@),
    }
}

impl Unit {
    /// Is this a time unit (lower = better) rather than throughput or size?
    pub fn is_time(self) -> (r: bool)
        ensures
            r == (self == Unit::Ns || self == Unit::Us || self == Unit::Ms || self == Unit::S),
    {
        match self {
            Unit::Ns | Unit::Us | Unit::Ms | Unit::S => true,
            _ => false,
        }
    }

    /// Short display string.
    pub fn as_str(self) -> (r: &'static str)
        ensures
            r@ == unit_text(self),
    {
        match self {
            Unit::Ns => "ns",
            Unit::Us => "us",
            Unit::Ms => "ms",
            Unit::S => "s",
            Unit::Ops => "ops",
            Unit::Bytes => "bytes",
        }
    }

    /// Parse a unit from a string: surrounding whitespace is ignored and
    /// letters compare ASCII-case-insensitively.
    pub fn parse(s: &str) -> (r: Result<Unit, Error>)
        ensures
            result_view(r) == unit_parse_spec(s@),
    {
        let raw = chars_of(s);
        let trimmed = trim_chars(&raw);
        let t = to_ascii_lower(&trimmed);
        match unit_of_chars(&t) {
            Some(u) => Ok(u),
            None => {
                let ts = string_of(&t);
                let mut msg = copy_str("unknown unit ");
                let shown = debug_str(ts.as_str());
                let mut m = chars_of(msg.as_str());
                let sc = chars_of(shown.as_str());
                crate::text::append_chars(&mut m, &sc);
                let e = Error::Parse { format: copy_str("unit"), message: string_of(&m) };
                Err(e)
            },
        }
    }
}

/// Parsing the short name of a unit gives that unit back.
pub proof fn law_unit_text_round_trip(u: Unit)
    ensures
        unit_parse_spec(unit_text(u)) == Ok::<Unit, ErrorView>(u),
{
    reveal_strlit("ns");
    reveal_strlit("nanosecond");
    reveal_strlit("nanoseconds");
    reveal_strlit("ns/op");
    reveal_strlit("us");
    reveal_strlit("\u{3bc}s");
    reveal_strlit("microsecond");
    reveal_strlit("microseconds");
    reveal_strlit("ms");
    reveal_strlit("millisecond");
    reveal_strlit("milliseconds");
    reveal_strlit("s");
    reveal_strlit("sec");
    reveal_strlit("second");
    reveal_strlit("seconds");
    reveal_strlit("ops");
    reveal_strlit("ops/s");
    reveal_strlit("throughput");
    reveal_strlit("bytes");
    reveal_strlit("b");
    reveal_strlit("b/op");
    let t = unit_text(u);
    crate::text::lemma_plain_word(t);
}

/// Lookup of an already trimmed and lowercased unit spelling.
pub fn unit_of_chars(t: &Vec<char>) -> (r: Option<Unit>)
    ensures
        r == unit_from_text(t@),
{
    if eq_lit(t, "ns") || eq_lit(t, "nanosecond") || eq_lit(t, "nanoseconds") || eq_lit(t, "ns/op") {
        Some(Unit::Ns)
    } else if eq_lit(t, "us") || eq_lit(t, "\u{3bc}s") || eq_lit(t, "microsecond") || eq_lit(
        t,
        "microseconds",
    ) {
        Some(Unit::Us)
    } else if eq_lit(t, "ms") || eq_lit(t, "millisecond") || eq_lit(t, "milliseconds") {
        Some(Unit::Ms)
    } else if eq_lit(t, "s") || eq_lit(t, "sec") || eq_lit(t, "second") || eq_lit(t, "seconds") {
        Some(Unit::S)
    } else if eq_lit(t, "ops") || eq_lit(t, "ops/s") || eq_lit(t, "throughput") {
        Some(Unit::Ops)
    } else if eq_lit(t, "bytes") || eq_lit(t, "b") || eq_lit(t, "b/op") {
        Some(Unit::Bytes)
    } else {
        None
    }
}

/// A single benchmark with its raw per-iteration samples, each the IEEE-754
/// encoding of the recorded value (not yet normalized).
#[derive(Debug, Clone)]
pub struct Benchmark {
    pub name: String,
    pub samples: Vec<u64>,
    pub unit: Unit,
}

pub struct BenchmarkView {
    pub name: Seq<char>,
    pub samples: Seq<u64>,
    pub unit: Unit,
}

impl View for Benchmark {
    type V = BenchmarkView;

    open spec fn view(&self) -> BenchmarkView {
        BenchmarkView { name: self.name@, samples: self.samples@, unit: self.unit }
    }
}

pub open spec fn all_finite(s: Seq<u64>) -> bool {
    forall|i: int| 0 <= i < s.len() ==> is_finite(#[trigger] s[i])
}

impl Benchmark {
    /// Construct, rejecting NaN and infinite samples.
    pub fn new(name: &str, samples: Vec<u64>, unit: Unit) -> (r: Result<Benchmark, Error>)
        ensures
            all_finite(samples@) ==> (r matches Ok(b) && b@ == (BenchmarkView {
                name: name@,
                samples: samples@,
                unit,
            })),
            !all_finite(samples@) ==> (r matches Err(e) && e@ == (ErrorView::NonFinite {
                name: name@,
            })),
    {
        for i in 0..samples.len()
            invariant
                forall|j: int| 0 <= j < i ==> is_finite(#[trigger] samples@[j]),
        {
            if !is_finite_exec(samples[i]) {
                return Err(Error::NonFinite { name: copy_str(name) });
            }
        }
        Ok(Benchmark { name: copy_str(name), samples, unit })
    }

    /// Number of samples.
    pub fn n(&self) -> (r: usize)
        ensures
            r == self.samples@.len(),
    {
        self.samples.len()
    }
}

/// A full benchmark run (one snapshot).
#[derive(Debug, Clone)]
pub struct Run {
    pub benchmarks: Vec<Benchmark>,
    /// Informational only, e.g. "criterion" or "go-bench".
    pub source: String,
}

pub struct RunView {
    pub benchmarks: Seq<BenchmarkView>,
    pub source: Seq<char>,
}

impl View for Run {
    type V = RunView;

    open spec fn view(&self) -> RunView {
        RunView {
            benchmarks: self.benchmarks@.map_values(|b: Benchmark| b@),
            source: self.source@,
        }
    }
}

/// Index of the first benchmark called `name`, if any.
pub open spec fn first_named(bs: Seq<BenchmarkView>, name: Seq<char>) -> Option<int>
    decreases bs.len(),
{
    if bs.len() == 0 {
        None
    } else if bs[0].name == name {
        Some(0)
    } else {
        match first_named(bs.drop_first(), name) {
            Some(i) => Some(i + 1),
            None => None,
        }
    }
}

pub proof fn lemma_first_named(bs: Seq<BenchmarkView>, name: Seq<char>)
    ensures
        first_named(bs, name) matches Some(i) ==> 0 <= i < bs.len() && bs[i].name == name
            && forall|j: int| 0 <= j < i ==> bs[j].name != name,
        first_named(bs, name) is None ==> forall|j: int| 0 <= j < bs.len() ==> bs[j].name != name,
    decreases bs.len(),
{
    if bs.len() > 0 {
        lemma_first_named(bs.drop_first(), name);
        if bs[0].name != name {
            assert forall|j: int| 1 <= j < bs.len() implies bs[j] == bs.drop_first()[j - 1] by {}
        }
    }
}

impl Run {
    pub fn new(source: &str) -> (r: Run)
        ensures
            r@.benchmarks.len() == 0,
            r@.source == source@,
    {
        Run { benchmarks: Vec::new(), source: copy_str(source) }
    }

    /// Find a benchmark by exact name: the first one so named.
    pub fn find(&self, name: &str) -> (r: Option<&Benchmark>)
        ensures
            match first_named(self@.benchmarks, name@) {
                Some(i) => r matches Some(b) && b@ == self@.benchmarks[i],
                None => r is None,
            },
    {
        proof {
            lemma_first_named(self@.benchmarks, name@);
        }
        let key = copy_str(name);
        for i in 0..self.benchmarks.len()
            invariant
                key@ == name@,
                forall|j: int|
                    0 <= j < i ==> #[trigger] self@.benchmarks[j].name != name@,
        {
            if self.benchmarks[i].name == key {
                proof {
                    lemma_first_named_at(self@.benchmarks, name@, i as int);
                }
                return Some(&self.benchmarks[i]);
            }
        }
        proof {
            lemma_first_named_none(self@.benchmarks, name@);
        }
        None
    }

    /// Index of the first benchmark called `name`, if any.
    pub fn find_index(&self, name: &str) -> (r: Option<usize>)
        ensures
            match first_named(self@.benchmarks, name@) {
                Some(i) => r == Some(i as usize),
                None => r is None,
            },
    {
        proof {
            lemma_first_named(self@.benchmarks, name@);
        }
        let key = copy_str(name);
        for i in 0..self.benchmarks.len()
            invariant
                key@ == name@,
                forall|j: int|
                    0 <= j < i ==> #[trigger] self@.benchmarks[j].name != name@,
        {
            if self.benchmarks[i].name == key {
                proof {
                    lemma_first_named_at(self@.benchmarks, name@, i as int);
                }
                return Some(i);
            }
        }
        proof {
            lemma_first_named_none(self@.benchmarks, name@);
        }
        None
    }

    /// Ensure the run holds at least one benchmark.
    pub fn require_non_empty(&self) -> (r: Result<(), Error>)
        ensures
            self@.benchmarks.len() == 0 ==> (r matches Err(e) && e@ == ErrorView::EmptyInput),
            self@.benchmarks.len() > 0 ==> r is Ok,
    {
        if self.benchmarks.len() == 0 {
            Err(Error::EmptyInput)
        } else {
            Ok(())
        }
    }
}

proof fn lemma_first_named_at(bs: Seq<BenchmarkView>, name: Seq<char>, i: int)
    requires
        0 <= i < bs.len(),
        bs[i].name == name,
        forall|j: int| 0 <= j < i ==> #[trigger] bs[j].name != name,
    ensures
        first_named(bs, name) == Some(i),
    decreases i,
{
    if i > 0 {
        assert(bs[0].name != name);
        assert forall|j: int| 0 <= j < i - 1 implies #[trigger] bs.drop_first()[j].name != name by {
            assert(bs.drop_first()[j] == bs[j + 1]);
        }
        lemma_first_named_at(bs.drop_first(), name, i - 1);
    }
}

proof fn lemma_first_named_none(bs: Seq<BenchmarkView>, name: Seq<char>)
    requires
        forall|j: int| 0 <= j < bs.len() ==> #[trigger] bs[j].name != name,
    ensures
        first_named(bs, name) is None,
    decreases bs.len(),
{
    if bs.len() > 0 {
        assert forall|j: int| 0 <= j < bs.len() - 1 implies #[trigger] bs.drop_first()[j].name
            != name by {
            assert(bs.drop_first()[j] == bs[j + 1]);
        }
        lemma_first_named_none(bs.drop_first(), name);
    }
}

} // verus!
