use spec_editor_core::glob::GlobPattern;

#[test]
fn plain_star() {
    let g = GlobPattern::parse("metric_*").unwrap();
    assert!(g.matches("metric_cpu"));
    assert!(g.matches("metric_"));
    assert!(!g.matches("cpu_metric"));
}

#[test]
fn alternation_whole_patterns() {
    let g = GlobPattern::parse("metric_cpu|metric_gpu").unwrap();
    assert!(g.matches("metric_cpu"));
    assert!(g.matches("metric_gpu"));
    assert!(!g.matches("metric_tpu"));
}

#[test]
fn alternation_with_paths() {
    let g = GlobPattern::parse("modules/auth.csv|modules/db.csv").unwrap();
    assert!(g.matches("modules/auth.csv"));
    assert!(g.matches("modules/db.csv"));
    assert!(!g.matches("modules/search.csv"));
}

#[test]
fn recursive_glob_for_sheets() {
    let g = GlobPattern::parse("**/*.csv").unwrap();
    assert!(g.matches("modules/features/search.csv"));
    assert!(g.matches("core.csv"));
}

#[test]
fn catch_all() {
    let g = GlobPattern::parse("*").unwrap();
    assert!(g.matches("anything"));
}

#[test]
fn alternatives_are_trimmed_and_empty_ones_skipped() {
    let g = GlobPattern::parse(" a.csv || b.csv ").unwrap();
    assert!(g.matches("a.csv"));
    assert!(g.matches("b.csv"));
    assert!(!g.matches(""));
    assert_eq!(g.as_raw(), " a.csv || b.csv ");
}

#[test]
fn refused_alternative_is_reported() {
    let e = GlobPattern::parse("ok*|[bad").unwrap_err();
    assert_eq!(e.pattern, "[bad");
}

#[test]
fn empty_pattern_matches_nothing() {
    let g = GlobPattern::parse("").unwrap();
    assert!(!g.matches("x"));
}
