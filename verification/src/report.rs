//! Report output: the choice of format and the parts of the text report
//! that do not depend on formatting a double (verdict labels, the p-value
//! column's special cases, the closing summary line).
use vstd::prelude::*;
use crate::compare::{DiffReport, Verdict, count_verdict, rows_view};
use crate::error::{Error, ErrorView};
use crate::ieee::{lt, le, lt_exec, le_exec};
use crate::sample::result_view;
use crate::text::{
    ascii_lower, trim, chars_of, trim_chars, to_ascii_lower, eq_lit, string_of, copy_str,
    append_chars, append_lit, decimal, decimal_chars,
};

verus! {

/// Output format.
#[derive(Debug, Clone, Copy, PartialEq, Eq, Structural)]
pub enum Output {
    Text,
    Markdown,
    Json,
}

/// The spellings accepted by `Output::parse`, once trimmed and lowercased.
pub open spec fn output_from_text(t: Seq<char>) -> Option<Output> {
    if t == "text"@ || t == "txt"@ {
        Some(Output::Text)
    } else if t == "markdown"@ || t == "md"@ {
        Some(Output::Markdown)
    } else if t == "json"@ {
        Some(Output::Json)
    } else {
        None
    }
}

pub open spec fn output_parse_spec(s: Seq<char>) -> Result<Output, ErrorView> {
    let t = ascii_lower(trim(s));
    match output_from_text(t) {
        Some(o) => Ok(o),
        None => Err(
            ErrorView::Parse { format: "output"@, message: "unknown output format: "@ + t },
        ),
    }
}

impl Output {
    /// Parse an output format name (case-insensitive, surrounding whitespace
    /// ignored).
    pub fn parse(s: &str) -> (r: Result<Output, Error>)
        ensures
            result_view(r) == output_parse_spec(s@),
    {
        let t = to_ascii_lower(&trim_chars(&chars_of(s)));
        if eq_lit(&t, "text") || eq_lit(&t, "txt") {
            Ok(Output::Text)
        } else if eq_lit(&t, "markdown") || eq_lit(&t, "md") {
            Ok(Output::Markdown)
        } else if eq_lit(&t, "json") {
            Ok(Output::Json)
        } else {
            let mut m = chars_of("unknown output format: ");
            append_chars(&mut m, &t);
            Err(Error::Parse { format: copy_str("output"), message: string_of(&m) })
        }
    }
}

/// The verdict column of the text report.
pub open spec fn verdict_label_text(v: Verdict) -> Seq<char> {
    match v {
        Verdict::Regression => "[!] regression"@,
        Verdict::Improvement => "[+] improvement"@,
        Verdict::Unchanged => "    unchanged"@,
        Verdict::MissingFromCurrent => "    missing"@,
        Verdict::NewInCurrent => "    new"@,
        Verdict::Ignored => "    ignored"@,
        Verdict::Insufficient => "    insufficient"@,
    }
}

/// The verdict column of the text report: a marker for changes, then the
/// verdict's name.
pub fn verdict_label(v: Verdict) -> (r: &'static str)
    ensures
        r@ == verdict_label_text(v),
{
    match v {
        Verdict::Regression => "[!] regression",
        Verdict::Improvement => "[+] improvement",
        Verdict::Unchanged => "    unchanged",
        Verdict::MissingFromCurrent => "    missing",
        Verdict::NewInCurrent => "    new",
        Verdict::Ignored => "    ignored",
        Verdict::Insufficient => "    insufficient",
    }
}

/// The encoding of `0.9999`.
pub const NEAR_ONE_BITS: u64 = 0x3FEF_FF2E_48E8_A71E;

/// The encoding of `0.0001`.
pub const TINY_P_BITS: u64 = 0x3F1A_36E2_EB1C_432D;

/// How the p-value column shows a p-value.
#[derive(Debug, Clone, Copy, PartialEq, Eq, Structural)]
pub enum PValueCell {
    /// At least `0.9999` (including the `1.0` of rows without a test): a dash.
    NotTested,
    /// Below `0.0001`: `<1e-4`.
    BelowFloor,
    /// Otherwise the value, to four decimals.
    Value,
}

pub open spec fn p_cell_spec(p: u64) -> PValueCell {
    if le(NEAR_ONE_BITS, p) {
        PValueCell::NotTested
    } else if lt(p, TINY_P_BITS) {
        PValueCell::BelowFloor
    } else {
        PValueCell::Value
    }
}

/// How the p-value `p` (an IEEE-754 encoding) is shown.
pub fn p_cell(p: u64) -> (r: PValueCell)
    ensures
        r == p_cell_spec(p),
{
    if le_exec(NEAR_ONE_BITS, p) {
        PValueCell::NotTested
    } else if lt_exec(p, TINY_P_BITS) {
        PValueCell::BelowFloor
    } else {
        PValueCell::Value
    }
}

pub open spec fn summary_text(regressions: nat, improvements: nat, unchanged: nat) -> Seq<char> {
    "\nsummary: "@ + decimal(regressions) + " regression(s), "@ + decimal(improvements)
        + " improvement(s), "@ + decimal(unchanged) + " unchanged\n"@
}

/// The closing line of the text report: the numbers of regressions,
/// improvements and unchanged rows.
pub fn summary_line(report: &DiffReport) -> (r: String)
    ensures
        r@ == summary_text(
            count_verdict(rows_view(report.rows@), Verdict::Regression),
            count_verdict(rows_view(report.rows@), Verdict::Improvement),
            count_verdict(rows_view(report.rows@), Verdict::Unchanged),
        ),
{
    let regs = report.regressions();
    let imps = report.improvements();
    let same = report.unchanged();
    let mut m = chars_of("\nsummary: ");
    append_chars(&mut m, &decimal_chars(regs as u64));
    append_lit(&mut m, " regression(s), ");
    append_chars(&mut m, &decimal_chars(imps as u64));
    append_lit(&mut m, " improvement(s), ");
    append_chars(&mut m, &decimal_chars(same as u64));
    append_lit(&mut m, " unchanged\n");
    string_of(&m)
}

} // verus!
