use rustbookkeeping::{IndexError, IndirectionLayer};

#[test]
fn layer_appends_allocate_fresh_slots() {
    let mut layer = IndirectionLayer::new();
    assert_eq!(layer.append(), 0);
    assert_eq!(layer.append(), 1);
    assert_eq!(layer.insert(0), Ok(2));
    assert_eq!(layer.physical_order(), vec![2, 0, 1]);
    assert_eq!(layer.logical_len(), 3);
    assert_eq!(layer.next_physical(), 3);
    assert!(layer.free_slots().is_empty());
}

#[test]
fn layer_recycles_most_recently_freed_slot() {
    let mut layer = IndirectionLayer::with_len(4);
    assert_eq!(layer.delete(1), Ok(1));
    assert_eq!(layer.delete(2), Ok(3));
    assert_eq!(layer.free_slots(), vec![1, 3]);
    assert_eq!(layer.physical_order(), vec![0, 2]);
    assert_eq!(layer.insert(0), Ok(3));
    assert_eq!(layer.free_slots(), vec![1]);
    assert_eq!(layer.append(), 1);
    assert!(layer.free_slots().is_empty());
    assert_eq!(layer.next_physical(), 4);
    assert_eq!(layer.append(), 4);
    assert_eq!(layer.next_physical(), 5);
    assert_eq!(layer.physical_order(), vec![3, 0, 2, 1, 4]);
}

#[test]
fn layer_bounds_errors() {
    let mut layer = IndirectionLayer::with_len(2);
    assert_eq!(layer.resolve(2), Err(IndexError { index: 2, len: 2 }));
    assert_eq!(layer.insert(3), Err(IndexError { index: 3, len: 2 }));
    assert_eq!(layer.delete(2), Err(IndexError { index: 2, len: 2 }));
    assert_eq!(layer.swap(0, 5), Err(IndexError { index: 5, len: 2 }));
    assert_eq!(layer.swap(7, 0), Err(IndexError { index: 7, len: 2 }));
    assert_eq!(layer.physical_order(), vec![0, 1]);
}

#[test]
fn layer_swap_exchanges_slots() {
    let mut layer = IndirectionLayer::with_len(3);
    assert_eq!(layer.swap(0, 2), Ok(()));
    assert_eq!(layer.physical_order(), vec![2, 1, 0]);
    assert_eq!(layer.swap(1, 1), Ok(()));
    assert_eq!(layer.physical_order(), vec![2, 1, 0]);
    assert_eq!(layer.resolve(0), Ok(2));
}
