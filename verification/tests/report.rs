use benchdiff::compare::{missing_row, DiffReport, Verdict};
use benchdiff::config::Config;
use benchdiff::error::Error;
use benchdiff::report::{p_cell, summary_line, verdict_label, Output, PValueCell};

#[test]
fn output_parse_variants() {
    assert_eq!(Output::parse("text").unwrap(), Output::Text);
    assert_eq!(Output::parse("TXT").unwrap(), Output::Text);
    assert_eq!(Output::parse("markdown").unwrap(), Output::Markdown);
    assert_eq!(Output::parse("md").unwrap(), Output::Markdown);
    assert_eq!(Output::parse("json").unwrap(), Output::Json);
    assert!(Output::parse("xml").is_err());
}

#[test]
fn output_parse_error_shows_lowered_text() {
    assert_eq!(
        Output::parse(" XML ").unwrap_err(),
        Error::Parse { format: "output".to_string(), message: "unknown output format: xml".to_string() }
    );
}

#[test]
fn renders_contains_summary() {
    let rows = vec![missing_row("fast", Verdict::Regression), missing_row("slow", Verdict::Improvement)];
    let rep = DiffReport::assemble("v1.0.0", rows, &Config::default());
    let s = summary_line(&rep);
    assert!(s.contains("1 regression"));
    assert!(s.contains("1 improvement"));
    assert_eq!(s, "\nsummary: 1 regression(s), 1 improvement(s), 0 unchanged\n");
}

#[test]
fn verdict_labels_mark_changes() {
    assert_eq!(verdict_label(Verdict::Regression), "[!] regression");
    assert_eq!(verdict_label(Verdict::Improvement), "[+] improvement");
    assert_eq!(verdict_label(Verdict::Unchanged), "    unchanged");
    assert_eq!(verdict_label(Verdict::MissingFromCurrent), "    missing");
    assert_eq!(verdict_label(Verdict::NewInCurrent), "    new");
    assert_eq!(verdict_label(Verdict::Ignored), "    ignored");
    assert_eq!(verdict_label(Verdict::Insufficient), "    insufficient");
}

#[test]
fn p_cell_buckets() {
    assert_eq!(p_cell(1.0f64.to_bits()), PValueCell::NotTested);
    assert_eq!(p_cell(0.9999f64.to_bits()), PValueCell::NotTested);
    assert_eq!(p_cell(0.5f64.to_bits()), PValueCell::Value);
    assert_eq!(p_cell(0.0001f64.to_bits()), PValueCell::Value);
    assert_eq!(p_cell(0.00001f64.to_bits()), PValueCell::BelowFloor);
    assert_eq!(p_cell(0.0f64.to_bits()), PValueCell::BelowFloor);
    assert_eq!(p_cell(f64::NAN.to_bits()), PValueCell::Value);
}
