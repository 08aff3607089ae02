use spec_editor_core::constraints::raw::{RawConstraints, RawHeader, RawValue};
use spec_editor_core::constraints::when::NumOrder;
use spec_editor_core::constraints::Constraints;
use spec_editor_core::hooks::Hooks;
use spec_editor_core::project::{sheet_has_row_headers, sheet_ids_of_files, Project, ProjectConfig};
use spec_editor_core::sheet::{CellPos, Sheet};
use spec_editor_core::style::StyleFile;
use spec_editor_core::validation::ViolationKind;

fn num(a: &str, b: &str) -> NumOrder {
    match (a.trim().parse::<f64>(), b.trim().parse::<f64>()) {
        (Ok(x), Ok(y)) => {
            if x < y {
                NumOrder::Less
            } else if x > y {
                NumOrder::Greater
            } else if x == y {
                NumOrder::Equal
            } else {
                NumOrder::Unordered
            }
        }
        _ => NumOrder::NotNumber,
    }
}

fn sheet(id: &str, text: &str) -> Sheet {
    Sheet::from_csv(id.to_string(), text.as_bytes(), false, StyleFile { column: Vec::new(), row: Vec::new() }).unwrap()
}

fn pattern_constraints() -> Constraints {
    RawConstraints {
        header: Vec::new(),
        value: vec![RawValue {
            sheet: "core.csv".to_string(),
            column: Some("device_id".to_string()),
            row: None,
            ty: None,
            required: false,
            enum_: None,
            enum_kw: None,
            pattern: Some("^D[0-9]{3}$".to_string()),
            min: None,
            max: None,
            when: None,
        }],
    }
    .into_constraints()
    .unwrap()
}

fn project(constraints: Constraints) -> Project {
    Project::new("/proj".to_string(), ProjectConfig::default(), constraints, Hooks::default(), None)
}

#[test]
fn sheet_ids_are_sorted_and_unique() {
    let mut p = project(Constraints::default());
    p.add_sheet(sheet("modules/auth.csv", "b\n2\n"));
    p.add_sheet(sheet("core.csv", "a\n1\n"));
    p.add_sheet(sheet("core.csv", "a\n5\n"));
    assert_eq!(p.sheet_ids(), vec!["core.csv".to_string(), "modules/auth.csv".to_string()]);
    assert_eq!(p.sheet("core.csv").unwrap().get(CellPos { row: 0, col: 0 }), Some("5"));
    assert!(p.sheet("none.csv").is_none());
}

#[test]
fn validation_of_all_sheets_is_data() {
    let mut p = project(pattern_constraints());
    p.add_sheet(sheet("core.csv", "device_id\nBAD\n"));
    let vs = p.validate_all(&num);
    assert_eq!(vs.len(), 1);
    assert_eq!(vs[0].kind, ViolationKind::PatternMismatch);
    assert_eq!(vs[0].pos, Some(CellPos { row: 0, col: 0 }));
}

#[test]
fn edits_through_sheet_mut_are_kept() {
    let mut p = project(pattern_constraints());
    p.add_sheet(sheet("core.csv", "device_id\nD001\n"));
    assert!(p.validate_all(&num).is_empty());
    p.sheet_mut("core.csv").unwrap().set(CellPos { row: 0, col: 0 }, "X".into());
    assert!(p.sheet("core.csv").unwrap().is_dirty());
    assert_eq!(p.validate_all(&num).len(), 1);
    assert!(p.sheet_mut("missing.csv").is_none());
}

#[test]
fn retain_keeps_unsaved_edits() {
    let mut p = project(Constraints::default());
    p.add_sheet(sheet("a.csv", "x\n1\n"));
    p.add_sheet(sheet("b.csv", "x\n1\n"));
    p.sheet_mut("a.csv").unwrap().set(CellPos { row: 0, col: 0 }, "2".into());
    p.retain_sheets(&["a.csv".to_string(), "c.csv".to_string()]);
    assert_eq!(p.sheet_ids(), vec!["a.csv".to_string()]);
    assert!(p.has_sheet("a.csv"));
    assert!(!p.has_sheet("b.csv"));
    assert_eq!(p.sheet("a.csv").unwrap().get(CellPos { row: 0, col: 0 }), Some("2"));
}

#[test]
fn trust_and_git_flags() {
    let mut p = project(Constraints::default());
    assert!(!p.trusted);
    assert!(!p.git_enabled());
    p.set_trusted(true);
    assert!(p.trusted);
}

#[test]
fn row_headers_follow_constraints() {
    let c = RawConstraints {
        header: vec![RawHeader {
            sheet: "kuku.csv".to_string(),
            column_require: Vec::new(),
            column_optional: vec!["*".to_string()],
            row_require: vec!["1".to_string()],
            row_optional: Vec::new(),
        }],
        value: Vec::new(),
    }
    .into_constraints()
    .unwrap();
    assert!(sheet_has_row_headers(&c, "kuku.csv"));
    assert!(!sheet_has_row_headers(&c, "core.csv"));
    let p = project(c);
    assert!(p.row_headers_for("kuku.csv"));
}

#[test]
fn static_checks_are_recorded() {
    let mut p = project(pattern_constraints());
    p.refresh_static_checks(&["core.csv".to_string()], &num);
    assert!(p.constraint_errors.is_empty());
}

#[test]
fn sheet_ids_from_a_file_listing() {
    let files: Vec<String> = [
        "modules/features/search.csv",
        "core.csv",
        ".constraints.toml",
        "core.style.toml",
        "modules/auth.csv",
        ".git/x.csv",
        "a/.git/b.csv",
        "notes.csv.bak",
    ]
    .iter()
    .map(|s| s.to_string())
    .collect();
    assert_eq!(
        sheet_ids_of_files(&files),
        vec!["core.csv".to_string(), "modules/auth.csv".to_string(), "modules/features/search.csv".to_string()]
    );
}

#[test]
fn config_errors_are_kept_and_hooks_wait_for_a_clean_save() {
    let mut p = project(Constraints::default());
    p.record_config_error("constraints パース失敗".to_string());
    assert_eq!(p.constraint_errors.len(), 1);
    assert_eq!(p.constraint_errors[0].message, "constraints パース失敗");
    assert!(Project::save_hooks_due(&Vec::new()));
    let mut q = project(pattern_constraints());
    q.add_sheet(sheet("core.csv", "device_id\nBAD\n"));
    assert!(!Project::save_hooks_due(&q.validate_all(&num)));
}
