use spec_editor_core::constraints::raw::{LoadError, RawConstraints, RawHeader, RawValue};
use spec_editor_core::constraints::rules::{ValueRules, ValueType};
use spec_editor_core::constraints::when::{NumOrder, WhenError};
use spec_editor_core::constraints::Constraints;
use spec_editor_core::sheet::{CellPos, Sheet};
use spec_editor_core::style::StyleFile;
use spec_editor_core::validation::ViolationKind;

fn num(a: &str, b: &str) -> NumOrder {
    match (a.trim().parse::<f64>(), b.trim().parse::<f64>()) {
        (Ok(x), Ok(y)) => {
            if x < y {
                NumOrder::Less
            } else if x > y {
                NumOrder::Greater
            } else if x == y {
                NumOrder::Equal
            } else {
                NumOrder::Unordered
            }
        }
        _ => NumOrder::NotNumber,
    }
}

fn sheet_with(name: &str, content: &str) -> Sheet {
    Sheet::from_csv(name.to_string(), content.as_bytes(), false, StyleFile { column: Vec::new(), row: Vec::new() })
        .unwrap()
}

fn strings(v: &[&str]) -> Vec<String> {
    v.iter().map(|s| s.to_string()).collect()
}

fn header(sheet: &str, column_require: &[&str], column_optional: &[&str]) -> RawHeader {
    RawHeader {
        sheet: sheet.to_string(),
        column_require: strings(column_require),
        column_optional: strings(column_optional),
        row_require: Vec::new(),
        row_optional: Vec::new(),
    }
}

fn value(sheet: &str, column: &str) -> RawValue {
    RawValue {
        sheet: sheet.to_string(),
        column: Some(column.to_string()),
        row: None,
        ty: None,
        required: false,
        enum_: None,
        enum_kw: None,
        pattern: None,
        min: None,
        max: None,
        when: None,
    }
}

fn load(header: Vec<RawHeader>, value: Vec<RawValue>) -> Constraints {
    RawConstraints { header, value }.into_constraints().unwrap()
}

#[test]
fn header_require_and_disallow() {
    let s = sheet_with("core.csv", "device_id,extra\nD001,x\n");
    let c = load(vec![header("core.csv", &["device_id", "processor_type"], &["note"])], Vec::new());
    let vs = c.validate_sheet(&s, &num);
    assert!(vs.iter().any(|v| v.kind == ViolationKind::MissingRequiredColumn));
    assert!(vs.iter().any(|v| v.kind == ViolationKind::DisallowedColumn));
}

#[test]
fn value_enum_and_pattern() {
    let s = sheet_with("core.csv", "device_id,processor_type\nD001,ARM\nBAD,SPARC\n");
    let mut v1 = value("core.csv", "device_id");
    v1.ty = Some(ValueType::String);
    v1.pattern = Some("^D[0-9]{3}$".to_string());
    let mut v2 = value("core.csv", "processor_type");
    v2.enum_kw = Some(strings(&["ARM", "MIPS", "x86"]));
    let c = load(Vec::new(), vec![v1, v2]);
    let vs = c.validate_sheet(&s, &num);
    assert!(vs.iter().any(|v| v.kind == ViolationKind::PatternMismatch));
    assert!(vs.iter().any(|v| v.kind == ViolationKind::NotInEnum));
}

#[test]
fn value_when_conditional() {
    let s = sheet_with("core.csv", "processor_type,cores\nARM,\nMIPS,\n");
    let mut v = value("core.csv", "cores");
    v.required = true;
    v.when = Some("{column=processor_type, equals=ARM}".to_string());
    let c = load(Vec::new(), vec![v]);
    let vs = c.validate_sheet(&s, &num);
    assert_eq!(vs.iter().filter(|v| v.kind == ViolationKind::Empty).count(), 1);
}

#[test]
fn static_incompatible_type_rule() {
    let mut v = value("core.csv", "n");
    v.ty = Some(ValueType::Int);
    v.pattern = Some("x".to_string());
    let c = load(Vec::new(), vec![v]);
    let errs = c.check_static(&["core.csv".to_string()]);
    assert!(!errs.is_empty());
}

#[test]
fn enum_options_pulldown() {
    let s = sheet_with("core.csv", "processor_type\nARM\n");
    let mut v = value("core.csv", "processor_type");
    v.enum_kw = Some(strings(&["ARM", "MIPS", "x86"]));
    let c = load(Vec::new(), vec![v]);
    let opts = c.enum_options(&s, CellPos { row: 0, col: 0 }, &num).unwrap();
    assert_eq!(opts, vec!["ARM", "MIPS", "x86"]);
}

#[test]
fn violation_messages_and_positions() {
    let s = sheet_with("core.csv", "device_id,extra\nD001,x\n");
    let c = load(vec![header("core.csv", &["device_id", "processor_type"], &["note"])], Vec::new());
    let vs = c.validate_sheet(&s, &num);
    assert_eq!(vs.len(), 2);
    assert_eq!(vs[0].kind, ViolationKind::MissingRequiredColumn);
    assert_eq!(vs[0].message, "必須の列 \"processor_type\" がありません");
    assert_eq!(vs[0].pos, None);
    assert_eq!(vs[1].kind, ViolationKind::DisallowedColumn);
    assert_eq!(vs[1].message, "許可されていない列 \"extra\"");
    assert_eq!(vs[1].pos, Some(CellPos { row: 0, col: 1 }));
    assert_eq!(vs[1].sheet, "core.csv");
}

#[test]
fn contradiction_between_headers_is_reported() {
    let c = load(
        vec![header("*.csv", &["id"], &[]), header("core.csv", &["id", "name"], &[])],
        Vec::new(),
    );
    let errs = c.check_static(&["core.csv".to_string(), "other.csv".to_string()]);
    assert_eq!(errs.len(), 1);
    assert_eq!(errs[0].message, "[header sheet=core.csv] 列 \"name\" が必須だが別の header が禁止（矛盾）");
}

#[test]
fn effective_header_is_union_and_intersection() {
    let c = load(
        vec![header("*.csv", &["id", "b"], &["*"]), header("core.csv", &["a", "id"], &["x*"])],
        Vec::new(),
    );
    let e = c.effective_header("core.csv");
    assert_eq!(e.column_required, strings(&["a", "b", "id"]));
    assert!(e.column_allowed("x1"));
    assert!(e.column_allowed("a"));
    assert!(!e.column_allowed("y"));
    let e = c.effective_header("other.csv");
    assert_eq!(e.column_required, strings(&["b", "id"]));
    assert!(e.column_allowed("y"));
}

#[test]
fn type_and_range_rules() {
    let mut r = ValueRules::default();
    r.ty = Some(ValueType::Int);
    r.min = Some("1".to_string());
    r.max = Some("10".to_string());
    assert_eq!(r.check_value(" 5 ", &num), Ok(()));
    assert_eq!(r.check_value("5.5", &num), Err(ViolationKind::TypeMismatch));
    assert_eq!(r.check_value("11", &num), Err(ViolationKind::OutOfRange));
    assert_eq!(r.check_value("0", &num), Err(ViolationKind::OutOfRange));
    assert_eq!(r.check_value("", &num), Ok(()));
    r.required = true;
    assert_eq!(r.check_value("  ", &num), Err(ViolationKind::Empty));
    r.ty = Some(ValueType::Float);
    assert_eq!(r.check_value("2.5", &num), Ok(()));
    assert_eq!(r.check_value("x", &num), Err(ViolationKind::TypeMismatch));
    assert_eq!(r.check_compat(), Ok(()));
    r.ty = Some(ValueType::String);
    assert!(r.check_compat().is_err());
}

#[test]
fn load_errors() {
    let mut v = value("core.csv", "a");
    v.column = None;
    match (RawConstraints { header: Vec::new(), value: vec![v] }).into_constraints() {
        Err(LoadError::MissingTarget { sheet }) => assert_eq!(sheet, "core.csv"),
        _ => panic!("a value table needs a column or a row"),
    }
    let mut v = value("core.csv", "a");
    v.when = Some("{column=a}".to_string());
    assert!(matches!(
        RawConstraints { header: Vec::new(), value: vec![v] }.into_constraints(),
        Err(LoadError::When(WhenError::MissingOperator))
    ));
    match (RawConstraints { header: vec![header("[x", &[], &[])], value: Vec::new() }).into_constraints() {
        Err(LoadError::Glob(g)) => assert_eq!(g.pattern, "[x"),
        _ => panic!("a bad glob is refused"),
    }
}

#[test]
fn enum_keyword_wins_over_enum_underscore() {
    let mut v = value("core.csv", "p");
    v.enum_ = Some(strings(&["A"]));
    v.enum_kw = Some(strings(&["B"]));
    let c = load(Vec::new(), vec![v]);
    assert_eq!(c.values[0].rules.enums, Some(strings(&["B"])));
}

#[test]
fn missing_required_row() {
    let s = Sheet::from_csv(
        "kuku.csv".to_string(),
        "n,x1\n1,1\n2,2\n".as_bytes(),
        true,
        StyleFile { column: Vec::new(), row: Vec::new() },
    )
    .unwrap();
    let h = RawHeader {
        sheet: "kuku.csv".to_string(),
        column_require: Vec::new(),
        column_optional: vec!["*".to_string()],
        row_require: strings(&["1", "9"]),
        row_optional: Vec::new(),
    };
    let c = load(vec![h], Vec::new());
    let vs = c.validate_sheet(&s, &num);
    assert_eq!(vs.len(), 2);
    assert_eq!(vs[0].kind, ViolationKind::MissingRequiredRow);
    assert_eq!(vs[0].message, "必須の行 \"9\" がありません");
    assert_eq!(vs[1].kind, ViolationKind::DisallowedRow);
    assert_eq!(vs[1].pos, Some(CellPos { row: 1, col: 0 }));
    assert_eq!(vs[1].message, "許可されていない行 \"2\"");
}

fn kuku_sheet() -> Sheet {
    Sheet::from_csv(
        "kuku.csv".to_string(),
        "n,x1,x2\n1,1,2\n2,2,x\n3,3,6\n".as_bytes(),
        true,
        StyleFile { column: Vec::new(), row: Vec::new() },
    )
    .unwrap()
}

#[test]
fn disallowed_rows_are_reported_only_with_a_matching_header() {
    let s = kuku_sheet();
    let h = RawHeader {
        sheet: "kuku.csv".to_string(),
        column_require: Vec::new(),
        column_optional: vec!["*".to_string()],
        row_require: strings(&["1"]),
        row_optional: strings(&["2"]),
    };
    let c = load(vec![h], Vec::new());
    let vs = c.validate_sheet(&s, &num);
    assert_eq!(vs.len(), 1);
    assert_eq!(vs[0].kind, ViolationKind::DisallowedRow);
    assert_eq!(vs[0].pos, Some(CellPos { row: 2, col: 0 }));
    let none = load(Vec::new(), Vec::new());
    assert!(none.validate_sheet(&s, &num).is_empty());
}

#[test]
fn row_targeted_value_rules_check_the_row() {
    let s = kuku_sheet();
    let mut v = value("kuku.csv", "unused");
    v.column = None;
    v.row = Some("2".to_string());
    v.ty = Some(ValueType::Int);
    let c = load(Vec::new(), vec![v]);
    let vs = c.validate_sheet(&s, &num);
    assert_eq!(vs.len(), 1);
    assert_eq!(vs[0].kind, ViolationKind::TypeMismatch);
    assert_eq!(vs[0].pos, Some(CellPos { row: 1, col: 2 }));
    assert_eq!(vs[0].message, "行 \"2\" の値 \"x\" が制約に違反");
    let mut w = value("kuku.csv", "unused");
    w.column = None;
    w.row = Some("2".to_string());
    w.ty = Some(ValueType::Int);
    w.when = Some("{column=x1, equals=9}".to_string());
    let c = load(Vec::new(), vec![w]);
    assert!(c.validate_sheet(&s, &num).is_empty());
}

#[test]
fn conflicting_types_on_one_line_are_a_static_error() {
    let mut a = value("core.csv", "n");
    a.ty = Some(ValueType::Int);
    let mut b = value("*.csv", "n");
    b.ty = Some(ValueType::String);
    let mut other = value("core.csv", "m");
    other.ty = Some(ValueType::Float);
    let c = load(Vec::new(), vec![a, other, b]);
    let errs = c.check_static(&["core.csv".to_string(), "x.csv".to_string()]);
    assert_eq!(errs.len(), 1);
    assert_eq!(errs[0].message, "[value sheet=core.csv] 列 \"n\" の type が矛盾（int と string）");
    let mut same = value("core.csv", "n");
    same.ty = Some(ValueType::Int);
    let mut again = value("core.csv", "n");
    again.ty = Some(ValueType::Int);
    let c = load(Vec::new(), vec![same, again]);
    assert!(c.check_static(&["core.csv".to_string()]).is_empty());
}

#[test]
fn value_rule_order_does_not_matter() {
    let s = sheet_with("core.csv", "device_id,processor_type\nBAD,SPARC\n");
    let mut v1 = value("core.csv", "device_id");
    v1.pattern = Some("^D[0-9]{3}$".to_string());
    let mut v2 = value("core.csv", "processor_type");
    v2.enum_kw = Some(strings(&["ARM"]));
    let mut v1b = value("core.csv", "device_id");
    v1b.pattern = Some("^D[0-9]{3}$".to_string());
    let mut v2b = value("core.csv", "processor_type");
    v2b.enum_kw = Some(strings(&["ARM"]));
    let a = load(Vec::new(), vec![v1, v2]).validate_sheet(&s, &num);
    let b = load(Vec::new(), vec![v2b, v1b]).validate_sheet(&s, &num);
    let mut am: Vec<String> = a.iter().map(|v| v.message.clone()).collect();
    let mut bm: Vec<String> = b.iter().map(|v| v.message.clone()).collect();
    assert_eq!(am.len(), 2);
    am.sort();
    bm.sort();
    assert_eq!(am, bm);
}

#[test]
fn disjoint_enums_on_one_line_are_a_static_error() {
    let mut a = value("core.csv", "cpu");
    a.enum_kw = Some(strings(&["ARM", "RISC-V"]));
    let mut b = value("*.csv", "cpu");
    b.enum_kw = Some(strings(&["x86"]));
    let c = load(Vec::new(), vec![a, b]);
    let errs = c.check_static(&["core.csv".to_string()]);
    assert_eq!(errs.len(), 1);
    assert_eq!(errs[0].message, "[value sheet=core.csv] 列 \"cpu\" の enum が矛盾（共通する値がない）");
    let mut a = value("core.csv", "cpu");
    a.enum_kw = Some(strings(&["ARM", "RISC-V"]));
    let mut b = value("core.csv", "cpu");
    b.enum_kw = Some(strings(&["x86", "ARM"]));
    let c = load(Vec::new(), vec![a, b]);
    assert!(c.check_static(&["core.csv".to_string()]).is_empty());
}

#[test]
fn type_and_enum_conflicts_on_one_line_give_two_errors() {
    let mut a = value("core.csv", "n");
    a.ty = Some(ValueType::Int);
    a.enum_kw = Some(strings(&["1"]));
    let mut b = value("core.csv", "n");
    b.ty = Some(ValueType::String);
    b.enum_kw = Some(strings(&["2"]));
    let c = load(Vec::new(), vec![a, b]);
    let errs = c.check_static(&["core.csv".to_string()]);
    assert_eq!(errs.len(), 2);
    assert_eq!(errs[0].message, "[value sheet=core.csv] 列 \"n\" の type が矛盾（int と string）");
    assert_eq!(errs[1].message, "[value sheet=core.csv] 列 \"n\" の enum が矛盾（共通する値がない）");
}

#[test]
fn row_targeted_rules_reach_cells_past_the_headers() {
    let s = Sheet::from_csv(
        "kuku.csv".to_string(),
        "n,x1\n1,1\n2,2,x\n".as_bytes(),
        true,
        StyleFile { column: Vec::new(), row: Vec::new() },
    )
    .unwrap();
    assert_eq!(s.row_len(1), 3);
    let mut v = value("kuku.csv", "unused");
    v.column = None;
    v.row = Some("2".to_string());
    v.ty = Some(ValueType::Int);
    let c = load(Vec::new(), vec![v]);
    let vs = c.validate_sheet(&s, &num);
    assert_eq!(vs.len(), 1);
    assert_eq!(vs[0].kind, ViolationKind::TypeMismatch);
    assert_eq!(vs[0].pos, Some(CellPos { row: 1, col: 2 }));
}

#[test]
fn crossing_bounds_on_one_line_are_reported() {
    let mut a = value("core.csv", "n");
    a.ty = Some(ValueType::Int);
    a.min = Some("10".to_string());
    let mut b = value("*.csv", "n");
    b.ty = Some(ValueType::Int);
    b.max = Some("5".to_string());
    let c = load(Vec::new(), vec![a, b]);
    assert!(c.check_static(&["core.csv".to_string()]).is_empty());
    let errs = c.check_combined(&["core.csv".to_string()], &num);
    assert_eq!(errs.len(), 1);
    assert_eq!(errs[0].message, "[value sheet=core.csv] 列 \"n\" の min/max が矛盾（min 10 > max 5）");
    let mut a = value("core.csv", "n");
    a.min = Some("1".to_string());
    a.max = Some("3".to_string());
    let mut b = value("core.csv", "n");
    b.min = Some("3".to_string());
    b.max = Some("0.5".to_string());
    let c = load(Vec::new(), vec![a, b]);
    let errs = c.check_combined(&["core.csv".to_string()], &num);
    assert_eq!(errs.len(), 2);
    assert_eq!(errs[0].message, "[value sheet=core.csv] 列 \"n\" の min/max が矛盾（min 1 > max 0.5）");
    assert_eq!(errs[1].message, "[value sheet=core.csv] 列 \"n\" の min/max が矛盾（min 3 > max 0.5）");
    let mut a = value("core.csv", "n");
    a.min = Some("1".to_string());
    let mut b = value("core.csv", "n");
    b.max = Some("1".to_string());
    let c = load(Vec::new(), vec![a, b]);
    assert!(c.check_combined(&["core.csv".to_string(), "x.csv".to_string()], &num).is_empty());
}

#[test]
fn enum_values_that_meet_no_other_rule_are_reported() {
    let mut a = value("core.csv", "n");
    a.enum_kw = Some(strings(&["x", "y"]));
    let mut b = value("core.csv", "n");
    b.ty = Some(ValueType::Int);
    let c = load(Vec::new(), vec![a, b]);
    let errs = c.check_combined(&["core.csv".to_string()], &num);
    assert_eq!(errs.len(), 1);
    assert_eq!(errs[0].message, "[value sheet=core.csv] 列 \"n\" の enum のどの値も別の value の規則を満たさない");
    let mut a = value("core.csv", "n");
    a.min = Some("5".to_string());
    let mut b = value("*.csv", "n");
    b.enum_kw = Some(strings(&["1", "2"]));
    let c = load(Vec::new(), vec![a, b]);
    let errs = c.check_combined(&["core.csv".to_string()], &num);
    assert_eq!(errs.len(), 1);
    assert_eq!(errs[0].message, "[value sheet=core.csv] 列 \"n\" の enum のどの値も別の value の規則を満たさない");
    let mut a = value("core.csv", "n");
    a.min = Some("5".to_string());
    let mut b = value("core.csv", "n");
    b.enum_kw = Some(strings(&["1", "20"]));
    let c = load(Vec::new(), vec![a, b]);
    assert!(c.check_combined(&["core.csv".to_string()], &num).is_empty());
}

#[test]
fn contradictions_are_found_in_either_order() {
    let rules = |first_int: bool| {
        let mut a = value("core.csv", "n");
        a.ty = Some(ValueType::Int);
        a.min = Some("10".to_string());
        let mut b = value("core.csv", "n");
        b.ty = Some(ValueType::String);
        b.enum_kw = Some(strings(&["x"]));
        b.max = None;
        if first_int {
            vec![a, b]
        } else {
            vec![b, a]
        }
    };
    for first_int in [true, false] {
        let c = load(Vec::new(), rules(first_int));
        let ids = ["core.csv".to_string()];
        let stat = c.check_static(&ids);
        let comb = c.check_combined(&ids, &num);
        assert_eq!(stat.len(), 1);
        assert_eq!(comb.len(), 1);
        assert_eq!(comb[0].message, "[value sheet=core.csv] 列 \"n\" の enum のどの値も別の value の規則を満たさない");
    }
}
