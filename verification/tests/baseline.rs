use benchdiff::baseline::{epoch_to_ymdhms, iso_utc, iso_utc_of_reading, now_iso_utc, Baseline, MAX_CLOCK_SECS};
use benchdiff::error::Error;
use benchdiff::sample::Run;

#[test]
fn validate_label_accepts_normal() {
    assert!(Baseline::validate_label("v1.0.0").is_ok());
    assert!(Baseline::validate_label("main-abc123").is_ok());
    assert!(Baseline::validate_label("release_2026-04-13").is_ok());
}

#[test]
fn validate_label_rejects_empty() {
    assert!(Baseline::validate_label("").is_err());
}

#[test]
fn validate_label_rejects_dot_prefix() {
    assert!(Baseline::validate_label(".hidden").is_err());
}

#[test]
fn validate_label_rejects_path_chars() {
    for bad in &["v1/2", "v1\\2", "v1:2", "v1*2", "v1?2", "v1 2"] {
        assert!(Baseline::validate_label(bad).is_err(), "bad: {bad}");
    }
}

#[test]
fn validate_label_rejects_too_long() {
    let long = "a".repeat(200);
    assert!(Baseline::validate_label(&long).is_err());
}

#[test]
fn path_for_builds_expected() {
    let p = Baseline::path_for("/tmp", "v1.0.0").unwrap();
    assert!(p.ends_with("v1.0.0.json"));
}

#[test]
fn listing_empty_dir_returns_empty() {
    let ls = Baseline::list(&Vec::new());
    assert!(ls.is_empty());
}

#[test]
fn epoch_conversion_known() {
    // 2000-01-01T00:00:00Z is the canonical Y2K epoch 946684800.
    let (y, mo, d, h, mi, s) = epoch_to_ymdhms(946_684_800);
    assert_eq!((y, mo, d, h, mi, s), (2000, 1, 1, 0, 0, 0));
}

#[test]
fn epoch_conversion_leap_day() {
    // 2024-02-29T12:34:56Z = 1709210096.
    let (y, mo, d, h, mi, s) = epoch_to_ymdhms(1_709_210_096);
    assert_eq!((y, mo, d, h, mi, s), (2024, 2, 29, 12, 34, 56));
}

#[test]
fn epoch_conversion_1970() {
    let (y, mo, d, h, mi, s) = epoch_to_ymdhms(0);
    assert_eq!((y, mo, d, h, mi, s), (1970, 1, 1, 0, 0, 0));
}

#[test]
fn now_iso_has_shape() {
    let s = now_iso_utc();
    assert_eq!(s.len(), 20);
    assert!(s.ends_with('Z'));
    assert_eq!(&s[4..5], "-");
    assert_eq!(&s[10..11], "T");
}

#[test]
fn validate_label_error_reasons() {
    assert_eq!(
        Baseline::validate_label("").unwrap_err(),
        Error::InvalidLabel { label: String::new(), reason: "label must be non-empty".to_string() }
    );
    assert_eq!(
        Baseline::validate_label("v1/2").unwrap_err(),
        Error::InvalidLabel { label: "v1/2".to_string(), reason: "character '/' not allowed in label".to_string() }
    );
    assert_eq!(
        Baseline::validate_label(".hidden").unwrap_err(),
        Error::InvalidLabel { label: ".hidden".to_string(), reason: "label cannot start with '.'".to_string() }
    );
    let long = "a".repeat(129);
    assert_eq!(
        Baseline::validate_label(&long).unwrap_err(),
        Error::InvalidLabel { label: long.clone(), reason: "label too long (max 128)".to_string() }
    );
    assert!(Baseline::validate_label(&"a".repeat(128)).is_ok());
    // A character outside the allow-list wins over the leading dot.
    assert_eq!(
        Baseline::validate_label(".a b").unwrap_err(),
        Error::InvalidLabel { label: ".a b".to_string(), reason: "character ' ' not allowed in label".to_string() }
    );
}

#[test]
fn path_for_joins_with_one_separator() {
    assert_eq!(Baseline::path_for("/tmp", "v1").unwrap(), "/tmp/v1.json");
    assert_eq!(Baseline::path_for("base/", "v1").unwrap(), "base/v1.json");
    assert_eq!(Baseline::path_for("", "v1").unwrap(), "v1.json");
    assert!(Baseline::path_for("/tmp", "../x").is_err());
}

#[test]
fn list_returns_sorted_json_stems() {
    let names: Vec<String> = ["v2.json", "v1.json", "notes.txt", ".json", "v10.json", "a.b.json", "x.JSON"]
        .iter()
        .map(|s| s.to_string())
        .collect();
    assert_eq!(Baseline::list(&names), vec!["a.b", "v1", "v10", "v2"]);
}

#[test]
fn check_schema_accepts_only_version_one() {
    assert!(Baseline::check_schema(1).is_ok());
    assert_eq!(
        Baseline::check_schema(2).unwrap_err(),
        Error::Parse { format: "baseline".to_string(), message: "unsupported schema version 2".to_string() }
    );
}

#[test]
fn new_baseline_is_schema_one() {
    let b = Baseline::new("v1", Run::new("test"));
    assert_eq!(b.schema, 1);
    assert_eq!(b.label, "v1");
    assert_eq!(b.created_at.len(), 20);
}

#[test]
fn epoch_round_trip_scenarios() {
    assert_eq!(epoch_to_ymdhms(-1), (1969, 12, 31, 23, 59, 59));
    assert_eq!(epoch_to_ymdhms(951_782_400), (2000, 2, 29, 0, 0, 0));
    assert_eq!(epoch_to_ymdhms(4_107_542_400), (2100, 3, 1, 0, 0, 0));
    assert_eq!(iso_utc(1_709_210_096), "2024-02-29T12:34:56Z");
    assert_eq!(iso_utc(0), "1970-01-01T00:00:00Z");
}

#[test]
fn list_returns_sorted_labels() {
    let names: Vec<String> = ["v2.json", "v1.json", "v10.json"].iter().map(|s| s.to_string()).collect();
    assert_eq!(Baseline::list(&names), vec!["v1", "v10", "v2"]);
}

#[test]
fn clock_reading_edges() {
    assert_eq!(iso_utc_of_reading(None), "1970-01-01T00:00:00Z");
    assert_eq!(iso_utc_of_reading(Some(1_709_210_096)), "2024-02-29T12:34:56Z");
    assert_eq!(iso_utc_of_reading(Some(u64::MAX)), iso_utc(MAX_CLOCK_SECS));
    assert_eq!(iso_utc_of_reading(Some(MAX_CLOCK_SECS as u64)), iso_utc(MAX_CLOCK_SECS));
}
