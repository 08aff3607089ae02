use spec_editor_core::sheet::{CellPos, Sheet};
use spec_editor_core::style::{Attr, StyleFile};

fn empty_style() -> StyleFile {
    StyleFile { column: Vec::new(), row: Vec::new() }
}

fn load(id: &str, text: &str, has_row_headers: bool) -> Sheet {
    Sheet::from_csv(id.to_string(), text.as_bytes(), has_row_headers, empty_style()).unwrap()
}

#[test]
fn load_and_headers() {
    let s = load("core.csv", "device_id,processor_type\nD001,ARM\nD002,MIPS\n", false);
    assert_eq!(s.column_headers(), &["device_id", "processor_type"]);
    assert_eq!(s.data_row_count(), 2);
    assert_eq!(s.get(CellPos { row: 1, col: 1 }), Some("MIPS"));
}

#[test]
fn quoted_fields_roundtrip() {
    let mut s = load("q.csv", "name,note\n\"Smith, John\",\"line1\nline2\"\n", false);
    assert_eq!(s.get(CellPos { row: 0, col: 0 }), Some("Smith, John"));
    assert_eq!(s.get(CellPos { row: 0, col: 1 }), Some("line1\nline2"));
    s.set(CellPos { row: 0, col: 0 }, "Doe, Jane".into());
    let bytes = s.to_csv().unwrap();
    let s2 = Sheet::from_csv("q.csv".to_string(), &bytes, false, empty_style()).unwrap();
    assert_eq!(s2.get(CellPos { row: 0, col: 0 }), Some("Doe, Jane"));
}

#[test]
fn rowid_stable_across_insert_remove() {
    let mut s = load("c.csv", "a\n1\n2\n3\n", false);
    let id_of_2 = s.row_id(1).unwrap();
    s.insert_row(0, vec!["0".into()]);
    assert_eq!(s.index_of(id_of_2), Some(2));
    s.remove_row(0);
    assert_eq!(s.index_of(id_of_2), Some(1));
}

#[test]
fn row_map_for_when() {
    let s = load("c.csv", "a,b\nx,y\n", false);
    let m = s.row_map(0);
    assert_eq!(m.get("a"), Some("x"));
    assert_eq!(m.get("b"), Some("y"));
}

#[test]
fn set_then_get_and_dirty() {
    let mut s = load("c.csv", "a,b\n1,2\n", false);
    assert!(!s.is_dirty());
    s.set(CellPos { row: 0, col: 1 }, "9".into());
    assert_eq!(s.get(CellPos { row: 0, col: 1 }), Some("9"));
    assert_eq!(s.get(CellPos { row: 0, col: 0 }), Some("1"));
    assert!(s.is_dirty());
    s.mark_saved();
    assert!(!s.is_dirty());
    // a cell outside the grid: nothing changes
    s.set(CellPos { row: 5, col: 0 }, "x".into());
    assert!(!s.is_dirty());
    assert_eq!(s.get(CellPos { row: 5, col: 0 }), None);
}

#[test]
fn new_rows_get_fresh_ids() {
    let mut s = load("c.csv", "a\n1\n2\n", false);
    let first = s.row_id(0).unwrap();
    s.insert_row(99, vec!["3".into()]);
    assert_eq!(s.data_row_count(), 3);
    let new_id = s.row_id(2).unwrap();
    assert_ne!(new_id, first);
    s.remove_row(2);
    s.insert_row(0, vec!["x".into()]);
    assert_ne!(s.row_id(0).unwrap(), new_id);
    assert_eq!(s.index_of(new_id), None);
    assert_eq!(s.index_of(first), Some(1));
}

#[test]
fn row_labels_only_with_row_headers() {
    let s = load("k.csv", "n,x1,x2\n1,1,2\n2,2,4\n", true);
    assert_eq!(s.row_label(1), Some("2"));
    assert_eq!(s.row_label(2), None);
    let t = load("k.csv", "n,x1,x2\n1,1,2\n", false);
    assert_eq!(t.row_label(0), None);
}

#[test]
fn later_header_of_same_name_wins_in_row_map() {
    let s = load("c.csv", "a,a\nx,y\n", false);
    assert_eq!(s.row_map(0).get("a"), Some("y"));
}

#[test]
fn malformed_csv_is_refused() {
    assert!(Sheet::from_csv("b.csv".to_string(), b"a\n\xff\n", false, empty_style()).is_err());
}

#[test]
fn style_survives_save_and_load() {
    let mut s = load("k.csv", "n,v\nA,1\nB,2\n", true);
    let bold = Attr { bold: Some(true), ..Attr::default() };
    let shade = Attr { background: Some("#ffd".to_string()), ..Attr::default() };
    s.set_column_attr("v", bold.clone());
    let b = s.row_id(1).unwrap();
    s.set_row_attr(b, shade.clone());
    s.insert_row(0, vec!["Z".into(), "0".into()]);
    let file = s.style_file();
    assert_eq!(file.row.len(), 1);
    assert_eq!(file.row[0].0, "B");
    let bytes = s.to_csv().unwrap();
    let t = Sheet::from_csv("k.csv".to_string(), &bytes, true, file).unwrap();
    assert_eq!(t.style.columns.get("v"), Some(&bold));
    let b_now = t.row_id(2).unwrap();
    assert_eq!(t.style.rows.get(&b_now), Some(&shade));
}

#[test]
fn style_anchored_by_index_without_row_headers() {
    let mut s = load("c.csv", "a\n1\n2\n", false);
    let second = s.row_id(1).unwrap();
    s.set_row_attr(second, Attr { italic: Some(true), ..Attr::default() });
    let file = s.style_file();
    assert_eq!(file.row[0].0, "1");
    let t = Sheet::from_csv("c.csv".to_string(), &s.to_csv().unwrap(), false, file).unwrap();
    assert_eq!(t.style.rows.get(&t.row_id(1).unwrap()).unwrap().italic, Some(true));
}

#[test]
fn removing_a_row_drops_its_attributes() {
    let mut s = load("c.csv", "a\n1\n2\n", false);
    let first = s.row_id(0).unwrap();
    s.set_row_attr(first, Attr { bold: Some(true), ..Attr::default() });
    s.remove_row(0);
    assert_eq!(s.style.rows.len(), 0);
    assert!(s.style_file().row.is_empty());
}
