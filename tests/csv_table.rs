use rustbookkeeping::{CSVTable, IndexError};

fn two_by_two() -> CSVTable {
    let mut t = CSVTable::new();
    t.append_col();
    t.append_col();
    t.append_row();
    t.append_row();
    t.write_cell(0, 0, "a").unwrap();
    t.write_cell(0, 1, "b").unwrap();
    t.write_cell(1, 0, "c").unwrap();
    t.write_cell(1, 1, "d").unwrap();
    t
}

fn contents(t: &CSVTable) -> Vec<Vec<String>> {
    let mut rows = Vec::new();
    for r in 0..t.row_size() {
        let mut row = Vec::new();
        for c in 0..t.col_size() {
            row.push(t.read_cell(r, c).unwrap().to_string());
        }
        rows.push(row);
    }
    rows
}

fn grid(rows: &[&[&str]]) -> Vec<Vec<String>> {
    rows.iter().map(|r| r.iter().map(|s| s.to_string()).collect()).collect()
}

#[test]
fn grid_starts_empty() {
    let t = CSVTable::new();
    assert_eq!(t.row_size(), 0);
    assert_eq!(t.col_size(), 0);
    assert!(!t.has_cell(0, 0));
    assert!(!t.undoable());
    assert!(!t.redoable());
    assert_eq!(t.read_cell(0, 0), Err(IndexError { index: 0, len: 0 }));
}

#[test]
fn grid_write_undo_redo() {
    let mut t = two_by_two();
    t.write_cell(0, 0, "z").unwrap();
    assert_eq!(t.read_cell(0, 0), Ok("z"));
    assert!(t.undo());
    assert_eq!(t.read_cell(0, 0), Ok("a"));
    assert!(t.redoable());
    assert!(t.redo());
    assert_eq!(t.read_cell(0, 0), Ok("z"));
    assert!(t.undo());
    t.write_cell(1, 1, "y").unwrap();
    assert!(!t.redoable());
    assert!(!t.redo());
    assert_eq!(contents(&t), grid(&[&["a", "b"], &["c", "y"]]));
}

#[test]
fn grid_delete_row_undo_restores() {
    let mut t = two_by_two();
    let before = contents(&t);
    t.delete_row(0).unwrap();
    assert_eq!(contents(&t), grid(&[&["c", "d"]]));
    assert!(t.undo());
    assert_eq!(contents(&t), before);
    assert_eq!(t.row_layer().physical_order(), vec![0, 1]);
    assert!(t.row_layer().free_slots().is_empty());
    assert!(t.redo());
    assert_eq!(contents(&t), grid(&[&["c", "d"]]));
}

#[test]
fn grid_delete_col_undo_restores() {
    let mut t = two_by_two();
    let before = contents(&t);
    t.delete_col(1).unwrap();
    assert_eq!(contents(&t), grid(&[&["a"], &["c"]]));
    assert_eq!(t.col_layer().free_slots(), vec![1]);
    t.insert_col(0).unwrap();
    assert_eq!(contents(&t), grid(&[&["", "a"], &["", "c"]]));
    assert!(t.col_layer().free_slots().is_empty());
    assert_eq!(t.col_layer().physical_order(), vec![1, 0]);
    assert_eq!(t.col_layer().next_physical(), 2);
    assert!(t.undo());
    assert!(t.undo());
    assert_eq!(contents(&t), before);
}

#[test]
fn grid_recycles_deleted_row_slot() {
    let mut t = two_by_two();
    assert_eq!(t.row_layer().next_physical(), 2);
    t.delete_row(0).unwrap();
    assert_eq!(t.row_layer().free_slots(), vec![0]);
    t.insert_row(1).unwrap();
    assert!(t.row_layer().free_slots().is_empty());
    assert_eq!(t.row_layer().next_physical(), 2);
    assert_eq!(t.row_layer().physical_order(), vec![1, 0]);
    assert_eq!(contents(&t), grid(&[&["c", "d"], &["", ""]]));
    t.append_row();
    assert_eq!(t.row_layer().next_physical(), 3);
    assert_eq!(t.row_size(), 3);
}

#[test]
fn grid_insert_positions_and_errors() {
    let mut t = two_by_two();
    t.insert_row(0).unwrap();
    t.insert_col(2).unwrap();
    assert_eq!(contents(&t), grid(&[&["", "", ""], &["a", "b", ""], &["c", "d", ""]]));
    assert_eq!(t.insert_row(4), Err(IndexError { index: 4, len: 3 }));
    assert_eq!(t.insert_col(9), Err(IndexError { index: 9, len: 3 }));
    assert_eq!(t.delete_row(3), Err(IndexError { index: 3, len: 3 }));
    assert_eq!(t.delete_col(3), Err(IndexError { index: 3, len: 3 }));
    assert_eq!(t.write_cell(3, 0, "x"), Err(IndexError { index: 3, len: 3 }));
    assert_eq!(t.write_cell(0, 3, "x"), Err(IndexError { index: 3, len: 3 }));
    assert_eq!(t.read_cell(0, 3), Err(IndexError { index: 3, len: 3 }));
    assert!(t.has_row(2));
    assert!(!t.has_row(3));
    assert!(t.has_col(2));
    assert!(!t.has_col(3));
    assert!(t.has_cell(2, 2));
    assert!(!t.has_cell(3, 2));
}

#[test]
fn grid_undo_all_then_redo_all() {
    let mut t = two_by_two();
    let full = contents(&t);
    let mut undone = 0;
    while t.undo() {
        undone += 1;
    }
    assert_eq!(undone, 8);
    assert_eq!(t.row_size(), 0);
    assert_eq!(t.col_size(), 0);
    assert!(!t.undoable());
    while t.redo() {}
    assert_eq!(contents(&t), full);
}

#[test]
fn grid_csv_round_trip() {
    let mut t = CSVTable::new();
    t.read_csv("a,b\nc\n\"x,y\",\"q\"\"r\"\n");
    assert_eq!(contents(&t), grid(&[&["a", "b"], &["c", ""], &["x,y", "q\"r"]]));
    assert!(!t.undoable());
    assert_eq!(t.write_csv(), "a,b\nc,\n\"x,y\",\"q\"\"r\"\n");
    t.delete_row(1).unwrap();
    t.write_cell(0, 1, "line\nbreak").unwrap();
    assert_eq!(t.write_csv(), "a,\"line\nbreak\"\n\"x,y\",\"q\"\"r\"\n");
    let mut u = CSVTable::new();
    u.read_csv(&t.write_csv());
    assert_eq!(contents(&u), contents(&t));
}

#[test]
fn grid_layers_after_load_delete_undo() {
    let mut t = CSVTable::new();
    assert!(t.row_layer().free_slots().is_empty());
    assert_eq!(t.col_layer().next_physical(), 0);
    t.read_csv("a,b\nc,d\n");
    assert_eq!(t.row_layer().physical_order(), vec![0, 1]);
    assert_eq!(t.col_layer().physical_order(), vec![0, 1]);
    assert!(t.row_layer().free_slots().is_empty());
    assert!(t.col_layer().free_slots().is_empty());
    t.delete_row(0).unwrap();
    assert_eq!(t.row_layer().free_slots(), vec![0]);
    assert_eq!(t.row_layer().physical_order(), vec![1]);
    assert_eq!(t.row_layer().next_physical(), 2);
    assert!(t.undo());
    assert_eq!(t.row_layer().physical_order(), vec![0, 1]);
    assert!(t.row_layer().free_slots().is_empty());
    assert_eq!(t.col_layer().physical_order(), vec![0, 1]);
    assert_eq!(contents(&t), grid(&[&["a", "b"], &["c", "d"]]));
}
