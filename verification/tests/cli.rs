use benchdiff::cli::{compare_exit_code, parse_format, top_changes};
use benchdiff::compare::{missing_row, DiffRow, Verdict};
use benchdiff::error::Error;
use benchdiff::parsers::Format;

#[test]
fn parse_format_auto() {
    assert!(parse_format(Some("auto")).unwrap().is_none());
    assert!(parse_format(None).unwrap().is_none());
    assert_eq!(parse_format(Some("gobench")).unwrap().unwrap(), Format::GoBench);
}

#[test]
fn parse_format_rejects_unknown() {
    assert!(parse_format(Some("magic")).is_err());
}

#[test]
fn parse_format_error_is_the_format_error() {
    assert_eq!(
        parse_format(Some("magic")).unwrap_err(),
        Error::Parse { format: "format".to_string(), message: "unknown format: magic".to_string() }
    );
    // Only the exact word selects auto-detection.
    assert!(parse_format(Some("AUTO")).is_err());
    assert_eq!(parse_format(Some(" CSV ")).unwrap(), Some(Format::Csv));
}

fn row(name: &str, rel: f64) -> DiffRow {
    let mut r = missing_row(name, Verdict::Unchanged);
    r.rel_change = rel.to_bits();
    r
}

#[test]
fn top_changes_orders_by_magnitude_and_truncates() {
    let rows = vec![row("a", 0.01), row("b", -0.5), row("c", 0.2), row("d", -0.2), row("e", 0.3)];
    let top = top_changes(rows, 3);
    let names: Vec<&str> = top.iter().map(|r| r.name.as_str()).collect();
    assert_eq!(names, vec!["b", "e", "c"]);
    let all = top_changes(vec![row("a", 0.01), row("c", 0.2), row("d", -0.2)], 10);
    let names: Vec<&str> = all.iter().map(|r| r.name.as_str()).collect();
    // Ties keep their order.
    assert_eq!(names, vec!["c", "d", "a"]);
}

#[test]
fn compare_exit_code_allows_up_to_the_limit() {
    assert_eq!(compare_exit_code(0, 0), 0);
    assert_eq!(compare_exit_code(1, 0), 1);
    assert_eq!(compare_exit_code(2, 2), 0);
    assert_eq!(compare_exit_code(3, 2), 1);
}
