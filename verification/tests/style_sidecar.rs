use spec_editor_core::sheet::RowId;
use spec_editor_core::style::{parse_row_key, row_key_string, Attr, RowKey, SheetStyle};
use std::path::Path;

#[test]
fn sidecar_naming() {
    let p = Path::new("/proj/core.csv");
    let stem = p.file_stem().and_then(|s| s.to_str());
    let name = SheetStyle::sidecar_file_name(stem);
    assert_eq!(p.with_file_name(name), Path::new("/proj/core.style.toml"));
}

#[test]
fn sidecar_name_without_stem() {
    assert_eq!(SheetStyle::sidecar_file_name(None), "sheet.style.toml");
}

#[test]
fn row_keys_read_back() {
    assert_eq!(parse_row_key("3"), RowKey::Index(3));
    assert_eq!(parse_row_key("+3"), RowKey::Index(3));
    assert_eq!(parse_row_key("total"), RowKey::Label("total".to_string()));
    assert_eq!(parse_row_key("-1"), RowKey::Label("-1".to_string()));
    assert_eq!(row_key_string(&RowKey::Index(42)), "42");
    assert_eq!(row_key_string(&RowKey::Label("x".to_string())), "x");
    assert_eq!(parse_row_key(&row_key_string(&RowKey::Index(0))), RowKey::Index(0));
}

#[test]
fn row_attrs_keep_ids() {
    let mut style = SheetStyle::default();
    let attr = Attr { background: Some("#ffd".to_string()), ..Attr::default() };
    assert!(style.rows.insert(RowId(7), attr.clone()).is_none());
    assert_eq!(style.rows.get(&RowId(7)), Some(&attr));
    assert!(style.rows.get(&RowId(3)).is_none());
    assert_eq!(style.rows.remove(&RowId(7)), Some(attr));
    assert_eq!(style.rows.len(), 0);
}

#[test]
fn column_attrs_replace() {
    let mut style = SheetStyle::default();
    let bold = Attr { bold: Some(true), ..Attr::default() };
    let red = Attr { color: Some("#c00".to_string()), ..Attr::default() };
    style.columns.insert("b".to_string(), bold.clone());
    assert_eq!(style.columns.insert("b".to_string(), red.clone()), Some(bold));
    assert_eq!(style.columns.get("b"), Some(&red));
    assert_eq!(style.columns.len(), 1);
}
