use benchdiff::config::{glob_match, Config, ConfigProblem};

fn bits(x: f64) -> u64 {
    x.to_bits()
}

#[test]
fn default_is_sensible() {
    let c = Config::default();
    assert!(c.validate().is_ok());
    assert!((f64::from_bits(c.alpha) - 0.05).abs() < 1e-9);
}

#[test]
fn validate_rejects_bad_alpha() {
    let mut c = Config::default();
    c.alpha = bits(0.0);
    assert!(c.validate().is_err());
    c.alpha = bits(1.0);
    assert!(c.validate().is_err());
    c.alpha = bits(-0.1);
    assert!(c.validate().is_err());
    c.alpha = bits(f64::NAN);
    assert!(c.validate().is_err());
}

#[test]
fn validate_rejects_negative_threshold() {
    let mut c = Config::default();
    c.min_relative_change = bits(-0.1);
    assert!(c.validate().is_err());
}

#[test]
fn validate_rejects_bad_correction() {
    let mut c = Config::default();
    c.correction = "bonferroni".into();
    assert!(c.validate().is_err());
}

#[test]
fn ignore_glob_prefix() {
    let mut c = Config::default();
    c.ignore.patterns.push("slow_*".into());
    assert!(c.is_ignored("slow_encode"));
    assert!(!c.is_ignored("fast_encode"));
}

#[test]
fn ignore_glob_suffix() {
    let mut c = Config::default();
    c.ignore.patterns.push("*_legacy".into());
    assert!(c.is_ignored("parse_legacy"));
    assert!(!c.is_ignored("legacy_parse"));
}

#[test]
fn ignore_glob_contains() {
    let mut c = Config::default();
    c.ignore.patterns.push("*bench*".into());
    assert!(c.is_ignored("my_bench_slow"));
}

#[test]
fn ignore_exact() {
    let mut c = Config::default();
    c.ignore.patterns.push("exact".into());
    assert!(c.is_ignored("exact"));
    assert!(!c.is_ignored("not-exact"));
}

#[test]
fn tolerance_lookup() {
    let mut c = Config::default();
    c.tolerance.insert("slow_op", Some(bits(0.20)));
    assert_eq!(c.tolerance_for("slow_op"), Some(bits(0.20)));
    assert_eq!(c.tolerance_for("fast_op"), None);
}

#[test]
fn validate_reports_the_first_problem() {
    let mut c = Config::default();
    c.alpha = bits(1.5);
    c.correction = "x".into();
    assert_eq!(c.validate(), Err(ConfigProblem::Alpha(bits(1.5))));
    c.alpha = bits(0.01);
    c.min_relative_change = bits(f64::INFINITY);
    assert_eq!(c.validate(), Err(ConfigProblem::MinRelativeChange(bits(f64::INFINITY))));
    c.min_relative_change = bits(0.0);
    assert_eq!(c.validate(), Err(ConfigProblem::Correction("x".to_string())));
    c.correction = "bh".into();
    assert!(c.validate().is_ok());
}

#[test]
fn tolerance_insert_replaces_and_non_floats_do_not_count() {
    let mut c = Config::default();
    c.tolerance.insert("op", Some(bits(0.1)));
    c.tolerance.insert("op", Some(bits(0.3)));
    c.tolerance.insert("other", None);
    assert_eq!(c.tolerance_for("op"), Some(bits(0.3)));
    assert_eq!(c.tolerance.get("other"), Some(None));
    assert_eq!(c.tolerance_for("other"), None);
}

#[test]
fn glob_match_forms() {
    assert!(glob_match("*mid*", "a_mid_b"));
    assert!(glob_match("**", "anything"));
    assert!(glob_match("pre*", "pre"));
    assert!(glob_match("*suf", "suf"));
    assert!(!glob_match("pre*", "pr"));
    assert!(glob_match("", ""));
    assert!(!glob_match("", "x"));
}

#[test]
fn template_names_the_defaults() {
    let t = Config::template();
    assert!(t.contains("alpha = 0.05"));
    assert!(t.contains("correction = \"none\""));
    assert!(t.contains("[tolerance]"));
}

#[test]
fn lone_star_matches_every_name() {
    assert!(glob_match("*", "anything"));
    assert!(glob_match("*", ""));
    let mut c = Config::default();
    c.ignore.patterns.push("*".into());
    assert!(c.is_ignored("slow_op"));
}
