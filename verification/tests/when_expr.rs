use spec_editor_core::constraints::when::{NumOrder, WhenError, WhenExpr};
use spec_editor_core::sheet::RowMap;

/// Reads both texts as `f64` (trimmed) and compares them.
fn num(a: &str, b: &str) -> NumOrder {
    match (a.trim().parse::<f64>(), b.trim().parse::<f64>()) {
        (Ok(x), Ok(y)) => {
            if x < y {
                NumOrder::Less
            } else if x > y {
                NumOrder::Greater
            } else if x == y {
                NumOrder::Equal
            } else {
                NumOrder::Unordered
            }
        }
        _ => NumOrder::NotNumber,
    }
}

fn row(pairs: &[(&str, &str)]) -> RowMap {
    let mut m = RowMap::new();
    for (k, v) in pairs {
        m.insert(k.to_string(), v.to_string());
    }
    m
}

fn eval(e: &WhenExpr, pairs: &[(&str, &str)]) -> bool {
    e.eval(&row(pairs), None, &num)
}

#[test]
fn parse_single_equals() {
    let e = WhenExpr::parse("{column=processor_type, equals=ARM}").unwrap();
    assert!(eval(&e, &[("processor_type", "ARM")]));
    assert!(!eval(&e, &[("processor_type", "MIPS")]));
}

#[test]
fn not_equal() {
    let e = WhenExpr::parse("{column=status, not_equal=deprecated}").unwrap();
    assert!(eval(&e, &[("status", "active")]));
    assert!(!eval(&e, &[("status", "deprecated")]));
}

#[test]
fn and_or() {
    let e = WhenExpr::parse("{column=a, equals=1} & {column=b, equals=2}").unwrap();
    assert!(eval(&e, &[("a", "1"), ("b", "2")]));
    assert!(!eval(&e, &[("a", "1"), ("b", "9")]));

    let e = WhenExpr::parse("{column=t, equals=A} | {column=t, equals=B}").unwrap();
    assert!(eval(&e, &[("t", "A")]));
    assert!(eval(&e, &[("t", "B")]));
    assert!(!eval(&e, &[("t", "C")]));
}

#[test]
fn precedence_and_over_or() {
    let e = WhenExpr::parse("{column=a, equals=1} | {column=b, equals=1} & {column=c, equals=1}").unwrap();
    assert!(eval(&e, &[("a", "1"), ("b", "0"), ("c", "0")]));
    assert!(!eval(&e, &[("a", "0"), ("b", "1"), ("c", "0")]));
    assert!(eval(&e, &[("a", "0"), ("b", "1"), ("c", "1")]));
}

#[test]
fn parens_group() {
    let e = WhenExpr::parse("({column=a, equals=1} | {column=a, equals=2}) & {column=b, gt=10}").unwrap();
    assert!(eval(&e, &[("a", "1"), ("b", "11")]));
    assert!(!eval(&e, &[("a", "1"), ("b", "9")]));
    assert!(!eval(&e, &[("a", "3"), ("b", "11")]));
}

#[test]
fn gt_lt_numeric() {
    let e = WhenExpr::parse("{column=v, gt=10}").unwrap();
    assert!(eval(&e, &[("v", "11")]));
    assert!(!eval(&e, &[("v", "10")]));
    assert!(!eval(&e, &[("v", "abc")]));
}

#[test]
fn in_list() {
    let e = WhenExpr::parse("{column=cores, in=[2, 4, 8]}").unwrap();
    assert!(eval(&e, &[("cores", "4")]));
    assert!(!eval(&e, &[("cores", "3")]));
}

#[test]
fn matches_regex() {
    let e = WhenExpr::parse("{column=id, matches=^D[0-9]+$}").unwrap();
    assert!(eval(&e, &[("id", "D123")]));
    assert!(!eval(&e, &[("id", "X1")]));
}

#[test]
fn errors() {
    assert!(WhenExpr::parse("{column=a}").is_err());
    assert!(WhenExpr::parse("{equals=A}").is_err());
    assert!(WhenExpr::parse("{column=a, equals=1} &").is_err());
    assert!(WhenExpr::parse("({column=a, equals=1}").is_err());
}

#[test]
fn lt_and_missing_column() {
    let e = WhenExpr::parse("{column=v, lt=2.5}").unwrap();
    assert!(eval(&e, &[("v", " 2 ")]));
    assert!(!eval(&e, &[("v", "3")]));
    // a missing column makes the condition false
    assert!(!eval(&e, &[("w", "1")]));
}

#[test]
fn row_target_reads_label() {
    let e = WhenExpr::parse("{row=total, equals=total}").unwrap();
    assert!(e.eval(&row(&[]), Some("total"), &num));
    assert!(!e.eval(&row(&[]), Some("sum"), &num));
    assert!(!e.eval(&row(&[]), None, &num));
}

#[test]
fn each_parse_error() {
    assert_eq!(WhenExpr::parse("{column=a, equals=1").unwrap_err(), WhenError::UnclosedBrace);
    assert_eq!(WhenExpr::parse("x").unwrap_err(), WhenError::UnexpectedChar('x'));
    assert_eq!(
        WhenExpr::parse("{column=a, equals=1} {column=b, equals=2}").unwrap_err(),
        WhenError::TrailingTokens
    );
    assert_eq!(WhenExpr::parse("({column=a, equals=1}").unwrap_err(), WhenError::MissingCloseParen);
    assert_eq!(WhenExpr::parse("{column=a, equals=1} &").unwrap_err(), WhenError::ExpectedCondition);
    assert_eq!(WhenExpr::parse("{column}").unwrap_err(), WhenError::NotKeyValue);
    assert_eq!(WhenExpr::parse("{column=a, foo=1}").unwrap_err(), WhenError::UnknownKey);
    assert_eq!(WhenExpr::parse("{column=a, in=1}").unwrap_err(), WhenError::NotAList);
    assert_eq!(WhenExpr::parse("{equals=A}").unwrap_err(), WhenError::MissingTarget);
    assert_eq!(WhenExpr::parse("{column=a}").unwrap_err(), WhenError::MissingOperator);
}
