//! Parser for `go test -bench=.` stdout.
//!
//! A bench line looks like:
//!
//! ```text
//! BenchmarkFoo-8           1000000       123.4 ns/op     456 B/op    7 allocs/op
//! ```
//!
//! The first number is the iteration count (`b.N`), which must be an unsigned
//! integer and is otherwise ignored; the first `<number> <time unit>` pair after
//! it is the per-iteration time. `-count=N` runs produce N lines per benchmark,
//! which aggregate as samples.
//!
//! Parsing is in two steps: [`scan`] finds the records and their numeric text,
//! the caller decodes each numeric text into its double, and [`assemble`]
//! validates and aggregates the decoded values.
use vstd::prelude::*;
use crate::error::{Error, ErrorView, debug_str, debug_text};
use crate::ieee::{is_finite, is_finite_exec};
use crate::parsers::{crlf_lines, lines_of, utf8_len, utf8_len_exec, saturating_usize, MAX_LINE_BYTES};
use crate::parsers::aggregate::{Aggregator, Obs, aggregated, unit_conflict_at, law_aggregation_one_benchmark_per_name};
use crate::parsers::number::{all_digits, float_literal, u64_literal, is_float_literal, is_u64_literal};
use crate::sample::{Unit, Run, BenchmarkView, all_finite};
use crate::text::{
    trim, words, starts_with, chars_of, trim_chars, split_words, starts_with_lit, eq_lit,
    string_of, copy_str, append_chars, is_ascii_digit_exec,
};

verus! {

/// Index of the last occurrence of `c` in `s`.
pub open spec fn last_index(s: Seq<char>, c: char) -> Option<int>
    decreases s.len(),
{
    if s.len() == 0 {
        None
    } else if s.last() == c {
        Some(s.len() - 1)
    } else {
        last_index(s.drop_last(), c)
    }
}

/// `BenchmarkFoo-8` becomes `BenchmarkFoo`: a trailing `-<digits>` (the
/// GOMAXPROCS marker) is removed; anything else is kept as is.
pub open spec fn strip_gomaxprocs_spec(name: Seq<char>) -> Seq<char> {
    match last_index(name, '-') {
        Some(i) => if name.len() - (i + 1) > 0 && all_digits(name.skip(i + 1)) {
            name.take(i)
        } else {
            name
        },
        None => name,
    }
}

/// The time units that may follow a per-iteration value.
pub open spec fn time_unit(tok: Seq<char>) -> Option<Unit> {
    if tok == "ns/op"@ || tok == "ns"@ {
        Some(Unit::Ns)
    } else if tok == "us/op"@ || tok == "\u{3bc}s/op"@ || tok == "us"@ {
        Some(Unit::Us)
    } else if tok == "ms/op"@ || tok == "ms"@ {
        Some(Unit::Ms)
    } else if tok == "s/op"@ {
        Some(Unit::S)
    } else {
        None
    }
}

/// First `i >= from` such that `ws[i]` is a number and `ws[i + 1]` a time unit.
pub open spec fn first_pair(ws: Seq<Seq<char>>, from: int) -> Option<int>
    decreases ws.len() - from,
{
    if from < 0 || from + 1 >= ws.len() {
        None
    } else if float_literal(ws[from]) && time_unit(ws[from + 1]) is Some {
        Some(from)
    } else {
        first_pair(ws, from + 1)
    }
}

/// A recognized benchmark line: name, numeric text of the time, time unit.
pub struct GoRecordView {
    pub name: Seq<char>,
    pub value: Seq<char>,
    pub unit: Unit,
}

/// What a (trimmed) line yields: `None` for lines that are not bench lines.
pub open spec fn go_line(line: Seq<char>) -> Option<GoRecordView> {
    let ws = words(line);
    if ws.len() < 2 || !starts_with(ws[0], "Benchmark"@) || !u64_literal(ws[1]) {
        None
    } else {
        match first_pair(ws, 2) {
            Some(i) => Some(
                GoRecordView {
                    name: strip_gomaxprocs_spec(ws[0]),
                    value: ws[i],
                    unit: time_unit(ws[i + 1]).unwrap(),
                },
            ),
            None => None,
        }
    }
}

/// Records of a sequence of lines, and the error that stopped the scan.
pub open spec fn go_scan_lines(ls: Seq<Seq<char>>) -> (Seq<GoRecordView>, Option<ErrorView>)
    decreases ls.len(),
{
    if ls.len() == 0 {
        (Seq::empty(), None)
    } else if utf8_len(ls[0]) > MAX_LINE_BYTES {
        (
            Seq::empty(),
            Some(
                ErrorView::LineTooLong {
                    format: "gobench"@,
                    bytes: saturating_usize(utf8_len(ls[0])) as nat,
                },
            ),
        )
    } else {
        let rest = go_scan_lines(ls.drop_first());
        let t = trim(ls[0]);
        if starts_with(t, "Benchmark"@) && go_line(t) is Some {
            (seq![go_line(t).unwrap()] + rest.0, rest.1)
        } else {
            rest
        }
    }
}

/// A recognized benchmark line.
pub struct GoRecord {
    pub name: String,
    /// The numeric text of the per-iteration time (accepted by `f64::from_str`).
    pub value: String,
    pub unit: Unit,
}

impl View for GoRecord {
    type V = GoRecordView;

    open spec fn view(&self) -> GoRecordView {
        GoRecordView { name: self.name@, value: self.value@, unit: self.unit }
    }
}

/// The records of a Go bench output, in line order, and the error (an
/// over-long line) at which reading stopped, if any.
pub struct GoScan {
    pub records: Vec<GoRecord>,
    pub stop: Option<Error>,
}

pub open spec fn option_view(e: Option<Error>) -> Option<ErrorView> {
    match e {
        Some(x) => Some(x@),
        None => None,
    }
}

pub open spec fn go_records_view(s: Seq<GoRecord>) -> Seq<GoRecordView> {
    s.map_values(|r: GoRecord| r@)
}

impl GoScan {
    pub open spec fn records_view(&self) -> Seq<GoRecordView> {
        go_records_view(self.records@)
    }
}

/// `BenchmarkFoo-8` becomes `BenchmarkFoo`; only a trailing `-<digits>` is
/// removed.
pub fn strip_gomaxprocs(name: &str) -> (r: String)
    ensures
        r@ == strip_gomaxprocs_spec(name@),
{
    string_of(&strip_gomaxprocs_chars(&chars_of(name)))
}

proof fn lemma_last_index_at(s: Seq<char>, c: char, i: int)
    requires
        -1 <= i < s.len(),
        forall|j: int| i < j < s.len() ==> s[j] != c,
        i >= 0 ==> s[i] == c,
    ensures
        last_index(s, c) == if i >= 0 {
            Some(i)
        } else {
            None::<int>
        },
    decreases s.len(),
{
    if s.len() > 0 && i < s.len() - 1 {
        assert forall|j: int| i < j < s.len() - 1 implies s.drop_last()[j] != c by {
            assert(s.drop_last()[j] == s[j]);
        }
        if i >= 0 {
            assert(s.drop_last()[i] == s[i]);
        }
        lemma_last_index_at(s.drop_last(), c, i);
    }
}

fn strip_gomaxprocs_chars(name: &Vec<char>) -> (r: Vec<char>)
    ensures
        r@ == strip_gomaxprocs_spec(name@),
{
    let mut k: usize = name.len();
    while k > 0 && name[k - 1] != '-'
        invariant
            k <= name.len(),
            forall|j: int| k <= j < name.len() ==> name@[j] != '-',
        decreases k,
    {
        k = k - 1;
    }
    if k == 0 {
        proof {
            lemma_last_index_at(name@, '-', -1);
        }
        return crate::text::copy_chars(name);
    }
    let idx = k - 1;
    proof {
        lemma_last_index_at(name@, '-', idx as int);
    }
    let tail = crate::text::subvec(name, idx + 1, name.len());
    assert(tail@ == name@.skip(idx + 1));
    let mut all = true;
    let mut j: usize = 0;
    while j < tail.len()
        invariant
            j <= tail.len(),
            all == all_digits(tail@.take(j as int)),
        decreases tail.len() - j,
    {
        if !is_ascii_digit_exec(tail[j]) {
            all = false;
        }
        assert(tail@.take(j + 1).drop_last() == tail@.take(j as int));
        assert(tail@.take(j + 1)[j as int] == tail@[j as int]);
        assert(forall|m: int| 0 <= m < j ==> tail@.take(j + 1)[m] == tail@.take(j as int)[m]);
        j = j + 1;
    }
    assert(tail@.take(tail.len() as int) == tail@);
    if tail.len() > 0 && all {
        crate::text::subvec(name, 0, idx)
    } else {
        crate::text::copy_chars(name)
    }
}

/// The unit of a time token (`ns/op`, `us/op`, `μs/op`, `ms/op`, `s/op`,
/// `ns`, `us`, `ms`).
pub fn match_time_unit(tok: &str) -> (r: Option<Unit>)
    ensures
        r == time_unit(tok@),
{
    time_unit_chars(&chars_of(tok))
}

fn time_unit_chars(t: &Vec<char>) -> (r: Option<Unit>)
    ensures
        r == time_unit(t@),
{
    if eq_lit(t, "ns/op") || eq_lit(t, "ns") {
        Some(Unit::Ns)
    } else if eq_lit(t, "us/op") || eq_lit(t, "\u{3bc}s/op") || eq_lit(t, "us") {
        Some(Unit::Us)
    } else if eq_lit(t, "ms/op") || eq_lit(t, "ms") {
        Some(Unit::Ms)
    } else if eq_lit(t, "s/op") {
        Some(Unit::S)
    } else {
        None
    }
}

/// Parse one trimmed bench line; `None` for lines that don't match.
fn parse_line(line: &Vec<char>) -> (r: Option<GoRecord>)
    ensures
        match go_line(line@) {
            Some(g) => r matches Some(x) && x@ == g,
            None => r is None,
        },
{
    let ws = split_words(line);
    let ghost sw = words(line@);
    if ws.len() < 2 || !starts_with_lit(&ws[0], "Benchmark") || !is_u64_literal(&ws[1]) {
        return None;
    }
    let mut i: usize = 2;
    assert(ws@[0]@ == sw[0] && ws@[1]@ == sw[1]);
    while i < ws.len() - 1
        invariant
            2 <= i <= ws@.len(),
            sw == words(line@),
            ws@.len() == sw.len(),
            ws@.len() >= 2,
            starts_with(sw[0], "Benchmark"@),
            u64_literal(sw[1]),
            forall|k: int| 0 <= k < ws@.len() ==> #[trigger] ws@[k]@ == sw[k],
            first_pair(sw, 2) == first_pair(sw, i as int),
        decreases ws@.len() - i,
    {
        if is_float_literal(&ws[i]) {
            if let Some(unit) = time_unit_chars(&ws[i + 1]) {
                let name = string_of(&strip_gomaxprocs_chars(&ws[0]));
                let value = string_of(&ws[i]);
                assert(ws@[i as int]@ == sw[i as int] && ws@[i + 1]@ == sw[i + 1]);
                assert(first_pair(sw, i as int) == Some(i as int));
                let rec = GoRecord { name, value, unit };
                assert(rec@ == GoRecordView { name: strip_gomaxprocs_spec(sw[0]), value: sw[i as int], unit: time_unit(sw[i + 1]).unwrap() });
                assert(sw.len() >= 2);
                assert(starts_with(sw[0], "Benchmark"@));
                assert(u64_literal(sw[1]));
                assert(first_pair(sw, 2) == Some(i as int));
                assert(go_line(line@) is Some);
                assert(go_line(line@) == Some(rec@));
                return Some(rec);
            }
        }
        assert(ws@[i as int]@ == sw[i as int] && ws@[i + 1]@ == sw[i + 1]);
        i = i + 1;
    }
    assert(first_pair(sw, i as int) is None);
    None
}

/// Scan Go bench output: the bench lines in order, stopping at the first line
/// longer than [`MAX_LINE_BYTES`]. Lines may end in LF or CRLF.
pub fn scan(text: &str) -> (r: GoScan)
    ensures
        r.records_view() == go_scan_lines(crlf_lines(text@)).0,
        option_view(r.stop) == go_scan_lines(crlf_lines(text@)).1,
{
    let lines = lines_of(&chars_of(text));
    let ghost ls = crlf_lines(text@);
    let mut records: Vec<GoRecord> = Vec::new();
    let mut k: usize = 0;
    assert(ls.skip(0) == ls);
    while k < lines.len()
        invariant
            k <= lines@.len(),
            ls == crlf_lines(text@),
            lines@.len() == ls.len(),
            forall|j: int| 0 <= j < lines@.len() ==> #[trigger] lines@[j]@ == ls[j],
            go_scan_lines(ls).0 == go_records_view(records@) + go_scan_lines(
                ls.skip(k as int),
            ).0,
            go_scan_lines(ls).1 == go_scan_lines(ls.skip(k as int)).1,
        decreases lines@.len() - k,
    {
        let ghost rest = ls.skip(k as int);
        assert(rest[0] == ls[k as int]);
        assert(rest.drop_first() == ls.skip(k + 1));
        let line = &lines[k];
        let bytes = utf8_len_exec(line);
        if bytes > MAX_LINE_BYTES {
            let e = Error::LineTooLong { format: copy_str("gobench"), bytes };
            assert(utf8_len(rest[0]) > MAX_LINE_BYTES);
            assert(go_scan_lines(rest).0 == Seq::<GoRecordView>::empty());
            assert(option_view(Some(e)) == go_scan_lines(rest).1);
            assert(go_records_view(records@) + Seq::<GoRecordView>::empty() == go_records_view(records@));
            return GoScan { records, stop: Some(e) };
        }
        let t = trim_chars(line);
        if starts_with_lit(&t, "Benchmark") {
            if let Some(rec) = parse_line(&t) {
                let ghost before = go_records_view(records@);
                records.push(rec);
                assert(go_records_view(records@) == before.push(rec@));
                assert(before.push(rec@) + go_scan_lines(ls.skip(k + 1)).0 == before + (seq![rec@] + go_scan_lines(ls.skip(k + 1)).0));
            }
        }
        k = k + 1;
    }
    assert(ls.skip(k as int) == Seq::<Seq<char>>::empty());
    assert(go_records_view(records@) + Seq::<GoRecordView>::empty() == go_records_view(records@));
    GoScan { records, stop: None }
}

/// The observations that records and their decoded values make.
pub open spec fn observations(recs: Seq<GoRecordView>, values: Seq<u64>) -> Seq<Obs> {
    Seq::new(recs.len(), |i: int| Obs { name: recs[i].name, value: values[i], unit: recs[i].unit })
}

/// Is observation `i` rejected: a non-finite value, or a unit change?
pub open spec fn bad_at(obs: Seq<Obs>, i: int) -> bool {
    !is_finite(obs[i].value) || unit_conflict_at(obs, i)
}

pub open spec fn go_error_at(obs: Seq<Obs>, i: int) -> ErrorView {
    if !is_finite(obs[i].value) {
        ErrorView::NonFinite { name: obs[i].name }
    } else {
        ErrorView::Parse {
            format: "gobench"@,
            message: "unit changed mid-run for benchmark "@ + debug_text(obs[i].name),
        }
    }
}

fn check_and_aggregate(scan: &GoScan, values: &Vec<u64>) -> (r: Result<Run, Error>)
    requires
        values@.len() == scan.records@.len(),
    ensures
        ({
            let obs = observations(scan.records_view(), values@);
            &&& forall|i: int|
                0 <= i < obs.len() && bad_at(obs, i) && (forall|j: int| 0 <= j < i ==> !bad_at(obs, j))
                    ==> (r matches Err(e) && e@ == go_error_at(obs, i))
            &&& (forall|i: int| 0 <= i < obs.len() ==> !bad_at(obs, i)) ==> match scan.stop {
                Some(e) => r matches Err(e2) && e2@ == e@,
                None => r matches Ok(run) && aggregated(obs, run@.benchmarks) && run@.source
                    == "go-bench"@,
            }
        }),
        scan.stop is Some ==> r is Err,
        r matches Ok(run) ==> forall|k: int|
            0 <= k < run@.benchmarks.len() ==> all_finite(#[trigger] run@.benchmarks[k].samples),
        r matches Ok(run) ==> forall|a: int, b: int|
            0 <= a < b < run@.benchmarks.len() ==> #[trigger] run@.benchmarks[a].name
                != #[trigger] run@.benchmarks[b].name,
{
    let ghost obs = observations(scan.records_view(), values@);
    let mut agg = Aggregator::new();
    for i in 0..scan.records.len()
        invariant
            values@.len() == scan.records@.len(),
            obs == observations(scan.records_view(), values@),
            agg.wf(),
            agg.obs() == obs.take(i as int),
            forall|j: int| 0 <= j < i ==> !bad_at(obs, j),
    {
        let rec = &scan.records[i];
        let v = values[i];
        assert(obs[i as int] == Obs { name: rec.name@, value: v, unit: rec.unit });
        if !is_finite_exec(v) {
            proof {
                assert(bad_at(obs, i as int));
                lemma_first_bad(obs, i as int);
            }
            return Err(Error::NonFinite { name: copy_str(rec.name.as_str()) });
        }
        let name = chars_of(rec.name.as_str());
        assert(obs.take(i as int).push(obs[i as int]) == obs.take(i + 1));
        if !agg.add(&name, v, rec.unit) {
            proof {
                lemma_conflict_prefix(obs, i as int);
                assert(bad_at(obs, i as int));
                lemma_first_bad(obs, i as int);
            }
            let shown = debug_str(rec.name.as_str());
            let mut m = chars_of("unit changed mid-run for benchmark ");
            append_chars(&mut m, &chars_of(shown.as_str()));
            return Err(Error::Parse { format: copy_str("gobench"), message: string_of(&m) });
        }
        proof {
            lemma_conflict_prefix(obs, i as int);
        }
    }
    assert(obs.take(scan.records@.len() as int) == obs);
    match &scan.stop {
        Some(e) => Err(e.clone_error()),
        None => {
            let run = agg.finish("go-bench");
            proof {
                assert forall|i: int| 0 <= i < obs.len() implies is_finite(#[trigger] obs[i].value) by {
                    assert(!bad_at(obs, i));
                }
                law_aggregation_one_benchmark_per_name(obs, run@.benchmarks);
            }
            Ok(run)
        },
    }
}

/// The outcome of validating and aggregating records `recs` with decoded
/// values `values` and scan stop `stop`: the error of the first rejected
/// record, else the stop error, else the benchmarks the observations
/// aggregate to.
pub open spec fn go_parse_result(
    recs: Seq<GoRecordView>,
    values: Seq<u64>,
    stop: Option<ErrorView>,
) -> Result<Seq<BenchmarkView>, ErrorView> {
    let obs = observations(recs, values);
    if exists|i: int| 0 <= i < obs.len() && #[trigger] bad_at(obs, i) {
        let i = choose|i: int|
            0 <= i < obs.len() && #[trigger] bad_at(obs, i) && forall|j: int| 0 <= j < i ==> !bad_at(obs, j);
        Err(go_error_at(obs, i))
    } else {
        match stop {
            Some(e) => Err(e),
            None => Ok(choose|out: Seq<BenchmarkView>| aggregated(obs, out)),
        }
    }
}

proof fn lemma_first_bad_exists(obs: Seq<Obs>, i: int)
    requires
        0 <= i < obs.len(),
        bad_at(obs, i),
    ensures
        exists|k: int| 0 <= k < obs.len() && #[trigger] bad_at(obs, k) && forall|j: int| 0 <= j < k ==> !bad_at(obs, j),
    decreases i,
{
    if exists|j: int| 0 <= j < i && bad_at(obs, j) {
        let j = choose|j: int| 0 <= j < i && bad_at(obs, j);
        lemma_first_bad_exists(obs, j);
    } else {
        assert(bad_at(obs, i) && forall|j: int| 0 <= j < i ==> !bad_at(obs, j));
    }
}

/// Validate and aggregate scanned records, `values[i]` being the IEEE-754
/// encoding of the double that `records[i].value` denotes. The first record
/// with a NaN/infinite value or a unit different from an earlier record of the
/// same benchmark is reported; then the scan's stop error; otherwise the run
/// holds one benchmark per name, ascending by name.
pub fn assemble(scan: &GoScan, values: &Vec<u64>) -> (r: Result<Run, Error>)
    requires
        values@.len() == scan.records@.len(),
    ensures
        match go_parse_result(scan.records_view(), values@, option_view(scan.stop)) {
            Ok(bs) => r matches Ok(run) && run@.benchmarks == bs && run@.source == "go-bench"@,
            Err(e) => r matches Err(x) && x@ == e,
        },
        r matches Ok(run) ==> forall|k: int|
            0 <= k < run@.benchmarks.len() ==> all_finite(#[trigger] run@.benchmarks[k].samples),
        r matches Ok(run) ==> forall|a: int, b: int|
            0 <= a < b < run@.benchmarks.len() ==> #[trigger] run@.benchmarks[a].name
                != #[trigger] run@.benchmarks[b].name,
{
    let r = check_and_aggregate(scan, values);
    proof {
        let obs = observations(scan.records_view(), values@);
        if exists|i: int| 0 <= i < obs.len() && #[trigger] bad_at(obs, i) {
            let i0 = choose|i: int| 0 <= i < obs.len() && #[trigger] bad_at(obs, i);
            lemma_first_bad_exists(obs, i0);
            let i = choose|i: int|
                0 <= i < obs.len() && #[trigger] bad_at(obs, i) && forall|j: int| 0 <= j < i ==> !bad_at(obs, j);
            assert(r matches Err(e) && e@ == go_error_at(obs, i));
        } else {
            assert(forall|i: int| 0 <= i < obs.len() ==> !bad_at(obs, i));
            if scan.stop is None {
                let run = r->Ok_0;
                assert(aggregated(obs, run@.benchmarks));
                let out = choose|out: Seq<BenchmarkView>| aggregated(obs, out);
                crate::parsers::aggregate::law_aggregation_is_determined(obs, out, run@.benchmarks);
            }
        }
    }
    r
}

/// Only one index can be the first rejected observation.
pub proof fn lemma_first_bad(obs: Seq<Obs>, i: int)
    requires
        0 <= i < obs.len(),
        bad_at(obs, i),
        forall|j: int| 0 <= j < i ==> !bad_at(obs, j),
    ensures
        forall|i2: int|
            0 <= i2 < obs.len() && bad_at(obs, i2) && (forall|j: int| 0 <= j < i2 ==> !bad_at(obs, j))
                ==> i2 == i,
        !(forall|j: int| 0 <= j < obs.len() ==> !bad_at(obs, j)),
{
    assert forall|i2: int|
        0 <= i2 < obs.len() && bad_at(obs, i2) && (forall|j: int| 0 <= j < i2 ==> !bad_at(obs, j))
            implies i2 == i by {
        if i2 > i {
            assert(!bad_at(obs, i));
        }
    }
}

/// A unit conflict at `i` depends only on the observations up to `i`.
pub proof fn lemma_conflict_prefix(obs: Seq<Obs>, i: int)
    requires
        0 <= i < obs.len(),
    ensures
        unit_conflict_at(obs.take(i + 1), i) == unit_conflict_at(obs, i),
{
    let p = obs.take(i + 1);
    if unit_conflict_at(obs, i) {
        let j = choose|j: int| 0 <= j < i && #[trigger] obs[j].name == obs[i].name && obs[j].unit != obs[i].unit;
        assert(p[j] == obs[j] && p[i] == obs[i]);
    }
    if unit_conflict_at(p, i) {
        let j = choose|j: int| 0 <= j < i && #[trigger] p[j].name == p[i].name && p[j].unit != p[i].unit;
        assert(p[j] == obs[j] && p[i] == obs[i]);
    }
}

/// CRLF input reads like LF input: for a text without carriage returns, its
/// CRLF form scans to the same records and the same stop. A line longer than
/// the limit always stops the scan with an error.
pub proof fn law_gobench_scan_crlf_and_long_lines(text: Seq<char>)
    ensures
        (forall|i: int| 0 <= i < text.len() ==> text[i] != '\r') ==> go_scan_lines(
            crlf_lines(crate::parsers::to_crlf(text)),
        ) == go_scan_lines(crlf_lines(text)),
        (exists|k: int|
            0 <= k < crlf_lines(text).len() && utf8_len(#[trigger] crlf_lines(text)[k])
                > MAX_LINE_BYTES) ==> go_scan_lines(crlf_lines(text)).1 is Some,
{
    if forall|i: int| 0 <= i < text.len() ==> text[i] != '\r' {
        crate::parsers::law_crlf_reads_like_lf(text);
    }
    if exists|k: int| 0 <= k < crlf_lines(text).len() && utf8_len(#[trigger] crlf_lines(text)[k]) > MAX_LINE_BYTES {
        let k = choose|k: int| 0 <= k < crlf_lines(text).len() && utf8_len(#[trigger] crlf_lines(text)[k]) > MAX_LINE_BYTES;
        lemma_go_long_line_stops(crlf_lines(text), k);
    }
}

proof fn lemma_go_long_line_stops(ls: Seq<Seq<char>>, k: int)
    requires
        0 <= k < ls.len(),
        utf8_len(ls[k]) > MAX_LINE_BYTES,
    ensures
        go_scan_lines(ls).1 is Some,
    decreases ls.len(),
{
    if k > 0 && utf8_len(ls[0]) <= MAX_LINE_BYTES {
        assert(ls.drop_first()[k - 1] == ls[k]);
        lemma_go_long_line_stops(ls.drop_first(), k - 1);
    }
}

/// The whole parse reads CRLF input like LF input: for a text without
/// carriage returns, its CRLF form scans to the same records (so their
/// texts decode to the same values) and the same stop, and so has the same
/// outcome, a run or an error. A text with a line longer than the limit
/// fails, whatever its values.
pub proof fn law_gobench_parse_crlf_and_long_lines(text: Seq<char>, values: Seq<u64>)
    ensures
        (forall|i: int| 0 <= i < text.len() ==> text[i] != '\r') ==> ({
            let sc = go_scan_lines(crlf_lines(crate::parsers::to_crlf(text)));
            let sl = go_scan_lines(crlf_lines(text));
            go_parse_result(sc.0, values, sc.1) == go_parse_result(sl.0, values, sl.1)
        }),
        (exists|k: int|
            0 <= k < crlf_lines(text).len() && utf8_len(#[trigger] crlf_lines(text)[k])
                > MAX_LINE_BYTES) ==> go_parse_result(
            go_scan_lines(crlf_lines(text)).0,
            values,
            go_scan_lines(crlf_lines(text)).1,
        ) is Err,
{
    law_gobench_scan_crlf_and_long_lines(text);
}

} // verus!
