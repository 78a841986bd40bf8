use rustbookkeeping::History;

#[test]
fn history_record_and_clear() {
    let mut h: History<u32> = History::new();
    assert!(!h.undoable());
    assert!(!h.redoable());
    h.record(1);
    h.record(2);
    assert!(h.undoable());
    assert!(!h.redoable());
    h.clear();
    assert!(!h.undoable());
    assert!(!h.redoable());
}
