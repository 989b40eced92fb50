//! Generic CSV parser. Columns: `name,value,unit`.
//!
//! Multiple rows with the same name aggregate into a single benchmark. The
//! unit must be consistent within a benchmark.
//!
//! As for Go bench output, [`scan`] finds the rows and the numeric text of
//! each value, the caller decodes those texts into doubles, and [`assemble`]
//! validates and aggregates.
use vstd::prelude::*;
use crate::error::{Error, ErrorView};
use crate::ieee::{is_finite, is_finite_exec};
use crate::parsers::{crlf_lines, lines_of, utf8_len, utf8_len_exec, saturating_usize, MAX_LINE_BYTES};
use crate::parsers::aggregate::{Aggregator, Obs, aggregated, unit_conflict_at, law_aggregation_one_benchmark_per_name};
use crate::parsers::gobench::{option_view, lemma_conflict_prefix};
use crate::parsers::number::{first_index, float_literal, find_char, lemma_first_index, is_float_literal};
use crate::sample::{Unit, Run, BenchmarkView, result_view, unit_parse_spec, all_finite};
use crate::text::{
    ascii_lower, trim, starts_with, contains, decimal, chars_of, trim_chars, to_ascii_lower,
    starts_with_lit, contains_lit, string_of, copy_str, append_chars, append_lit, subvec,
    decimal_chars,
};

verus! {

/// `str::splitn(3, ',')`: at most three pieces, the last one holding the rest.
pub open spec fn splitn3(s: Seq<char>) -> Seq<Seq<char>> {
    match first_index(s, ',') {
        None => seq![s],
        Some(i) => {
            let rest = s.skip(i + 1);
            match first_index(rest, ',') {
                None => seq![s.take(i), rest],
                Some(j) => seq![s.take(i), rest.take(j), rest.skip(j + 1)],
            }
        },
    }
}

/// Is this first line a `name,value,unit` header?
pub open spec fn is_header(line: Seq<char>) -> bool {
    let t = ascii_lower(trim(line));
    starts_with(t, "name"@) && contains(t, "value"@) && contains(t, "unit"@)
}

pub open spec fn line_error(lineno: nat, what: Seq<char>) -> ErrorView {
    ErrorView::Parse { format: "csv"@, message: "line "@ + decimal(lineno) + what }
}

/// A data row: its line number, name, trimmed numeric text and unit (or the
/// error that parsing the unit gave).
pub struct CsvRecordView {
    pub lineno: nat,
    pub name: Seq<char>,
    pub value: Seq<char>,
    pub unit: Result<Unit, ErrorView>,
}

/// A trimmed, non-blank, non-comment line.
pub open spec fn csv_line(line: Seq<char>, lineno: nat) -> Result<CsvRecordView, ErrorView> {
    let f = splitn3(line);
    if f.len() != 3 {
        Err(line_error(lineno, ": expected 3 columns"@))
    } else if trim(f[0]).len() == 0 {
        Err(line_error(lineno, ": empty name"@))
    } else if !float_literal(trim(f[1])) {
        Err(ErrorView::InvalidNumber { field: "value"@, value: f[1] })
    } else {
        Ok(
            CsvRecordView {
                lineno,
                name: trim(f[0]),
                value: trim(f[1]),
                unit: unit_parse_spec(f[2]),
            },
        )
    }
}

/// The rows of the lines that follow the header position, the first of them
/// numbered `lineno`, and the error that stopped the scan.
pub open spec fn csv_scan_lines(ls: Seq<Seq<char>>, lineno: nat) -> (
    Seq<CsvRecordView>,
    Option<ErrorView>,
)
    decreases ls.len(),
{
    if ls.len() == 0 {
        (Seq::empty(), None)
    } else if utf8_len(ls[0]) > MAX_LINE_BYTES {
        (
            Seq::empty(),
            Some(
                ErrorView::LineTooLong {
                    format: "csv"@,
                    bytes: saturating_usize(utf8_len(ls[0])) as nat,
                },
            ),
        )
    } else {
        let line = trim(ls[0]);
        if line.len() == 0 || line[0] == '#' {
            csv_scan_lines(ls.drop_first(), lineno + 1)
        } else {
            match csv_line(line, lineno) {
                Err(e) => (Seq::empty(), Some(e)),
                Ok(rec) => if rec.unit is Err {
                    (seq![rec], None)
                } else {
                    let rest = csv_scan_lines(ls.drop_first(), lineno + 1);
                    (seq![rec] + rest.0, rest.1)
                },
            }
        }
    }
}

/// The rows of a whole CSV text: an optional header line is skipped; the rows
/// are numbered from 2 on.
pub open spec fn csv_scan(text: Seq<char>) -> (Seq<CsvRecordView>, Option<ErrorView>) {
    let ls = crlf_lines(text);
    if ls.len() > 0 && is_header(ls[0]) {
        csv_scan_lines(ls.drop_first(), 2)
    } else {
        csv_scan_lines(ls, 2)
    }
}

pub struct CsvRecord {
    pub lineno: usize,
    pub name: String,
    /// The trimmed numeric text of the value (accepted by `f64::from_str`).
    pub value: String,
    pub unit: Result<Unit, Error>,
}

impl View for CsvRecord {
    type V = CsvRecordView;

    open spec fn view(&self) -> CsvRecordView {
        CsvRecordView {
            lineno: self.lineno as nat,
            name: self.name@,
            value: self.value@,
            unit: result_view(self.unit),
        }
    }
}

pub open spec fn csv_records_view(s: Seq<CsvRecord>) -> Seq<CsvRecordView> {
    s.map_values(|r: CsvRecord| r@)
}

/// The rows of a CSV text in order, and the error at which reading stopped.
pub struct CsvScan {
    pub records: Vec<CsvRecord>,
    pub stop: Option<Error>,
}

impl CsvScan {
    pub open spec fn records_view(&self) -> Seq<CsvRecordView> {
        csv_records_view(self.records@)
    }
}

fn splitn3_chars(s: &Vec<char>) -> (r: Vec<Vec<char>>)
    ensures
        r@.len() == splitn3(s@).len(),
        forall|k: int| 0 <= k < r@.len() ==> #[trigger] r@[k]@ == splitn3(s@)[k],
{
    proof {
        lemma_first_index(s@, ',');
    }
    let mut out: Vec<Vec<char>> = Vec::new();
    match find_char(s, ',') {
        None => {
            out.push(crate::text::copy_chars(s));
        },
        Some(i) => {
            assert(first_index(s@, ',') == Some(i as int));
            assert(i < s.len());
            let rest = subvec(s, i + 1, s.len());
            assert(rest@ == s@.skip(i + 1));
            proof {
                lemma_first_index(rest@, ',');
            }
            out.push(subvec(s, 0, i));
            assert(s@.subrange(0, i as int) == s@.take(i as int));
            match find_char(&rest, ',') {
                None => {
                    out.push(rest);
                },
                Some(j) => {
                    out.push(subvec(&rest, 0, j));
                    assert(rest@.subrange(0, j as int) == rest@.take(j as int));
                    out.push(subvec(&rest, j + 1, rest.len()));
                    assert(rest@.subrange(j + 1, rest@.len() as int) == rest@.skip(j + 1));
                },
            }
        },
    }
    out
}

fn line_error_exec(lineno: usize, what: &str) -> (e: Error)
    ensures
        e@ == line_error(lineno as nat, what@),
{
    let mut m = chars_of("line ");
    append_chars(&mut m, &decimal_chars(lineno as u64));
    append_lit(&mut m, what);
    Error::Parse { format: copy_str("csv"), message: string_of(&m) }
}

/// Parse one trimmed, non-blank, non-comment line.
fn parse_line(line: &Vec<char>, lineno: usize) -> (r: Result<CsvRecord, Error>)
    ensures
        match csv_line(line@, lineno as nat) {
            Ok(g) => r matches Ok(x) && x@ == g,
            Err(e) => r matches Err(x) && x@ == e,
        },
{
    let f = splitn3_chars(line);
    if f.len() != 3 {
        return Err(line_error_exec(lineno, ": expected 3 columns"));
    }
    let name = trim_chars(&f[0]);
    if name.len() == 0 {
        return Err(line_error_exec(lineno, ": empty name"));
    }
    let value = trim_chars(&f[1]);
    if !is_float_literal(&value) {
        return Err(Error::InvalidNumber { field: copy_str("value"), value: string_of(&f[1]) });
    }
    let unit_text = string_of(&f[2]);
    let unit = Unit::parse(unit_text.as_str());
    Ok(CsvRecord { lineno, name: string_of(&name), value: string_of(&value), unit })
}

proof fn lemma_records_push(s: Seq<CsvRecord>, x: CsvRecord)
    ensures
        csv_records_view(s.push(x)) == csv_records_view(s).push(x@),
{
    assert(csv_records_view(s.push(x)) =~= csv_records_view(s).push(x@));
}

/// Scan a CSV text: the data rows in order, stopping at the first line longer
/// than [`MAX_LINE_BYTES`], the first malformed row (wrong column count, empty
/// name, value that is not a number), or right after a row whose unit is
/// unknown. Blank lines and `#` comments are skipped; a first line that looks
/// like a `name,value,unit` header is skipped.
pub fn scan(text: &str) -> (r: CsvScan)
    requires
        text@.len() + 3 <= usize::MAX,
    ensures
        r.records_view() == csv_scan(text@).0,
        option_view(r.stop) == csv_scan(text@).1,
{
    let lines = lines_of(&chars_of(text));
    let ghost ls = crlf_lines(text@);
    proof {
        crate::text::lemma_split_on_nonempty(text@, '\n');
        lemma_lines_count(text@);
    }
    let mut k: usize = 0;
    if lines.len() > 0 {
        let first = to_ascii_lower(&trim_chars(&lines[0]));
        if starts_with_lit(&first, "name") && contains_lit(&first, "value") && contains_lit(
            &first,
            "unit",
        ) {
            k = 1;
        }
    }
    let first_row = k;
    let ghost start = k as int;
    let ghost body = ls.skip(start);
    assert(start == 1 ==> body == ls.drop_first());
    assert(start == 0 ==> body == ls);
    assert(csv_scan(text@) == csv_scan_lines(body, 2));
    let mut records: Vec<CsvRecord> = Vec::new();
    assert(body.skip(0) == body);
    while k < lines.len()
        invariant
            start <= k <= lines@.len(),
            start == first_row,
            start <= 1,
            lines@.len() <= text@.len() + 1,
            text@.len() + 3 <= usize::MAX,
            ls == crlf_lines(text@),
            body == ls.skip(start),
            csv_scan(text@) == csv_scan_lines(body, 2),
            lines@.len() == ls.len(),
            forall|j: int| 0 <= j < lines@.len() ==> #[trigger] lines@[j]@ == ls[j],
            csv_scan_lines(body, 2).0 == csv_records_view(records@) + csv_scan_lines(
                ls.skip(k as int),
                (k - start + 2) as nat,
            ).0,
            csv_scan_lines(body, 2).1 == csv_scan_lines(ls.skip(k as int), (k - start + 2) as nat).1,
        decreases lines@.len() - k,
    {
        let ghost rest = ls.skip(k as int);
        let lineno: usize = k - first_row + 2;
        assert(rest[0] == ls[k as int]);
        assert(rest.drop_first() == ls.skip(k + 1));
        let raw = &lines[k];
        let bytes = utf8_len_exec(raw);
        if bytes > MAX_LINE_BYTES {
            let e = Error::LineTooLong { format: copy_str("csv"), bytes };
            assert(utf8_len(rest[0]) > MAX_LINE_BYTES);
            assert(csv_records_view(records@) + Seq::<CsvRecordView>::empty() == csv_records_view(records@));
            return CsvScan { records, stop: Some(e) };
        }
        let line = trim_chars(raw);
        if line.len() == 0 || line[0] == '#' {
            k = k + 1;
            continue;
        }
        match parse_line(&line, lineno) {
            Err(e) => {
                assert(csv_records_view(records@) + Seq::<CsvRecordView>::empty() == csv_records_view(records@));
                return CsvScan { records, stop: Some(e) };
            },
            Ok(rec) => {
                let bad_unit = rec.unit.is_err();
                let ghost before = csv_records_view(records@);
                proof {
                    lemma_records_push(records@, rec);
                }
                records.push(rec);
                assert(before.push(rec@) == before + seq![rec@]);
                if bad_unit {
                    assert(csv_records_view(records@) + Seq::<CsvRecordView>::empty() == csv_records_view(records@));
                    return CsvScan { records, stop: None };
                }
                assert(before + (seq![rec@] + csv_scan_lines(ls.skip(k + 1), (lineno + 1) as nat).0) == before.push(rec@) + csv_scan_lines(ls.skip(k + 1), (lineno + 1) as nat).0);
            },
        }
        k = k + 1;
    }
    assert(ls.skip(k as int) == Seq::<Seq<char>>::empty());
    assert(csv_records_view(records@) + Seq::<CsvRecordView>::empty() == csv_records_view(records@));
    CsvScan { records, stop: None }
}

proof fn lemma_lines_count(text: Seq<char>)
    ensures
        crlf_lines(text).len() <= text.len() + 1,
{
    lemma_split_len(text, '\n');
}

proof fn lemma_split_len(s: Seq<char>, sep: char)
    ensures
        crate::text::split_on(s, sep).len() <= s.len() + 1,
    decreases s.len(),
{
    if s.len() > 0 {
        lemma_split_len(s.drop_first(), sep);
        crate::text::lemma_split_on_nonempty(s.drop_first(), sep);
        assert(crate::text::split_on(s, sep).len() <= crate::text::split_on(s.drop_first(), sep).len() + 1);
    }
}

/// The observations that rows and their decoded values make.
pub open spec fn csv_observations(recs: Seq<CsvRecordView>, values: Seq<u64>) -> Seq<Obs> {
    Seq::new(
        recs.len(),
        |i: int|
            Obs {
                name: recs[i].name,
                value: values[i],
                unit: match recs[i].unit {
                    Ok(u) => u,
                    Err(_) => Unit::Ns,
                },
            },
    )
}

/// Is row `i` rejected: non-finite value, unknown unit, or unit change?
pub open spec fn csv_bad_at(recs: Seq<CsvRecordView>, values: Seq<u64>, i: int) -> bool {
    !is_finite(values[i]) || recs[i].unit is Err || unit_conflict_at(
        csv_observations(recs, values),
        i,
    )
}

pub open spec fn csv_error_at(recs: Seq<CsvRecordView>, values: Seq<u64>, i: int) -> ErrorView {
    if !is_finite(values[i]) {
        ErrorView::NonFinite { name: recs[i].name }
    } else {
        match recs[i].unit {
            Err(e) => e,
            Ok(_) => line_error(recs[i].lineno, ": unit changed within a benchmark"@),
        }
    }
}

fn check_and_aggregate(scan: &CsvScan, values: &Vec<u64>) -> (r: Result<Run, Error>)
    requires
        values@.len() == scan.records@.len(),
    ensures
        ({
            let recs = scan.records_view();
            let v = values@;
            &&& forall|i: int|
                0 <= i < recs.len() && csv_bad_at(recs, v, i) && (forall|j: int|
                    0 <= j < i ==> !csv_bad_at(recs, v, j)) ==> (r matches Err(e) && e@
                    == csv_error_at(recs, v, i))
            &&& (forall|i: int| 0 <= i < recs.len() ==> !csv_bad_at(recs, v, i)) ==> match scan.stop {
                Some(e) => r matches Err(e2) && e2@ == e@,
                None => r matches Ok(run) && aggregated(csv_observations(recs, v), run@.benchmarks)
                    && run@.source == "csv"@,
            }
        }),
        scan.stop is Some ==> r is Err,
        r matches Ok(run) ==> forall|k: int|
            0 <= k < run@.benchmarks.len() ==> all_finite(#[trigger] run@.benchmarks[k].samples),
        r matches Ok(run) ==> forall|a: int, b: int|
            0 <= a < b < run@.benchmarks.len() ==> #[trigger] run@.benchmarks[a].name
                != #[trigger] run@.benchmarks[b].name,
{
    let ghost recs = scan.records_view();
    let ghost obs = csv_observations(recs, values@);
    let mut agg = Aggregator::new();
    for i in 0..scan.records.len()
        invariant
            values@.len() == scan.records@.len(),
            recs == scan.records_view(),
            obs == csv_observations(recs, values@),
            agg.wf(),
            agg.obs() == obs.take(i as int),
            forall|j: int| 0 <= j < i ==> !csv_bad_at(recs, values@, j),
    {
        let rec = &scan.records[i];
        let v = values[i];
        assert(recs[i as int] == rec@);
        if !is_finite_exec(v) {
            proof {
                lemma_first_csv_bad(recs, values@, i as int);
            }
            return Err(Error::NonFinite { name: copy_str(rec.name.as_str()) });
        }
        let unit = match &rec.unit {
            Err(e) => {
                proof {
                    lemma_first_csv_bad(recs, values@, i as int);
                }
                return Err(e.clone_error());
            },
            Ok(u) => *u,
        };
        assert(obs[i as int] == Obs { name: rec.name@, value: v, unit });
        let name = chars_of(rec.name.as_str());
        assert(obs.take(i as int).push(obs[i as int]) == obs.take(i + 1));
        if !agg.add(&name, v, unit) {
            proof {
                lemma_conflict_prefix(obs, i as int);
                lemma_first_csv_bad(recs, values@, i as int);
            }
            return Err(line_error_exec(rec.lineno, ": unit changed within a benchmark"));
        }
        proof {
            lemma_conflict_prefix(obs, i as int);
        }
    }
    assert(obs.take(scan.records@.len() as int) == obs);
    match &scan.stop {
        Some(e) => Err(e.clone_error()),
        None => {
            let run = agg.finish("csv");
            proof {
                assert forall|i: int| 0 <= i < obs.len() implies is_finite(#[trigger] obs[i].value) by {
                    assert(!csv_bad_at(recs, values@, i));
                }
                law_aggregation_one_benchmark_per_name(obs, run@.benchmarks);
            }
            Ok(run)
        },
    }
}

/// The outcome of validating and aggregating rows `recs` with decoded values
/// `values` and scan stop `stop`: the error of the first rejected row, else
/// the stop error, else the benchmarks the rows aggregate to.
pub open spec fn csv_parse_result(
    recs: Seq<CsvRecordView>,
    values: Seq<u64>,
    stop: Option<ErrorView>,
) -> Result<Seq<BenchmarkView>, ErrorView> {
    if exists|i: int| 0 <= i < recs.len() && #[trigger] csv_bad_at(recs, values, i) {
        let i = choose|i: int|
            0 <= i < recs.len() && #[trigger] csv_bad_at(recs, values, i) && forall|j: int|
                0 <= j < i ==> !csv_bad_at(recs, values, j);
        Err(csv_error_at(recs, values, i))
    } else {
        match stop {
            Some(e) => Err(e),
            None => Ok(choose|out: Seq<BenchmarkView>| aggregated(csv_observations(recs, values), out)),
        }
    }
}

proof fn lemma_first_csv_bad_exists(recs: Seq<CsvRecordView>, v: Seq<u64>, i: int)
    requires
        0 <= i < recs.len(),
        csv_bad_at(recs, v, i),
    ensures
        exists|k: int| 0 <= k < recs.len() && #[trigger] csv_bad_at(recs, v, k) && forall|j: int| 0 <= j < k ==> !csv_bad_at(recs, v, j),
    decreases i,
{
    if exists|j: int| 0 <= j < i && csv_bad_at(recs, v, j) {
        let j = choose|j: int| 0 <= j < i && csv_bad_at(recs, v, j);
        lemma_first_csv_bad_exists(recs, v, j);
    } else {
        assert(csv_bad_at(recs, v, i) && forall|j: int| 0 <= j < i ==> !csv_bad_at(recs, v, j));
    }
}

/// Validate and aggregate scanned rows, `values[i]` being the IEEE-754
/// encoding of the double that `records[i].value` denotes. The first row with
/// a NaN/infinite value, an unknown unit, or a unit different from an earlier
/// row of the same name is reported; then the scan's stop error; otherwise the
/// run holds one benchmark per name, ascending by name.
pub fn assemble(scan: &CsvScan, values: &Vec<u64>) -> (r: Result<Run, Error>)
    requires
        values@.len() == scan.records@.len(),
    ensures
        match csv_parse_result(scan.records_view(), values@, option_view(scan.stop)) {
            Ok(bs) => r matches Ok(run) && run@.benchmarks == bs && run@.source == "csv"@,
            Err(e) => r matches Err(x) && x@ == e,
        },
        r matches Ok(run) ==> forall|k: int|
            0 <= k < run@.benchmarks.len() ==> all_finite(#[trigger] run@.benchmarks[k].samples),
        r matches Ok(run) ==> forall|a: int, b: int|
            0 <= a < b < run@.benchmarks.len() ==> #[trigger] run@.benchmarks[a].name
                != #[trigger] run@.benchmarks[b].name,
{
    let r = check_and_aggregate(scan, values);
    proof {
        let recs = scan.records_view();
        let v = values@;
        if exists|i: int| 0 <= i < recs.len() && #[trigger] csv_bad_at(recs, v, i) {
            let i0 = choose|i: int| 0 <= i < recs.len() && #[trigger] csv_bad_at(recs, v, i);
            lemma_first_csv_bad_exists(recs, v, i0);
            let i = choose|i: int|
                0 <= i < recs.len() && #[trigger] csv_bad_at(recs, v, i) && forall|j: int|
                    0 <= j < i ==> !csv_bad_at(recs, v, j);
            assert(r matches Err(e) && e@ == csv_error_at(recs, v, i));
        } else {
            assert(forall|i: int| 0 <= i < recs.len() ==> !csv_bad_at(recs, v, i));
            if scan.stop is None {
                let run = r->Ok_0;
                let obs = csv_observations(recs, v);
                assert(aggregated(obs, run@.benchmarks));
                let out = choose|out: Seq<BenchmarkView>| aggregated(obs, out);
                crate::parsers::aggregate::law_aggregation_is_determined(obs, out, run@.benchmarks);
            }
        }
    }
    r
}

proof fn lemma_first_csv_bad(recs: Seq<CsvRecordView>, v: Seq<u64>, i: int)
    requires
        0 <= i < recs.len(),
        recs.len() == v.len(),
        csv_bad_at(recs, v, i),
        forall|j: int| 0 <= j < i ==> !csv_bad_at(recs, v, j),
    ensures
        forall|i2: int|
            0 <= i2 < recs.len() && csv_bad_at(recs, v, i2) && (forall|j: int|
                0 <= j < i2 ==> !csv_bad_at(recs, v, j)) ==> i2 == i,
        !(forall|j: int| 0 <= j < recs.len() ==> !csv_bad_at(recs, v, j)),
{
    assert forall|i2: int|
        0 <= i2 < recs.len() && csv_bad_at(recs, v, i2) && (forall|j: int|
            0 <= j < i2 ==> !csv_bad_at(recs, v, j)) implies i2 == i by {
        if i2 > i {
            assert(!csv_bad_at(recs, v, i));
        }
    }
}

/// CRLF input reads like LF input: for a text without carriage returns, its
/// CRLF form scans to the same rows (so their texts decode to the same
/// values) and the same stop, and so has the same outcome.
pub proof fn law_csv_scan_crlf(text: Seq<char>, values: Seq<u64>)
    requires
        forall|i: int| 0 <= i < text.len() ==> text[i] != '\r',
    ensures
        csv_scan(crate::parsers::to_crlf(text)) == csv_scan(text),
        csv_parse_result(csv_scan(crate::parsers::to_crlf(text)).0, values, csv_scan(crate::parsers::to_crlf(text)).1)
            == csv_parse_result(csv_scan(text).0, values, csv_scan(text).1),
{
    crate::parsers::law_crlf_reads_like_lf(text);
}

} // verus!
