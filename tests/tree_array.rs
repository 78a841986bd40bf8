use rustbookkeeping::{IndexError, TreeArray};

#[test]
fn tree_array_basic_mutations() {
    let mut tree = TreeArray::new();
    tree.append(10);
    tree.append(20);
    tree.insert(1, 15).unwrap();

    assert_eq!(tree.len(), 3);
    assert_eq!(tree.get(0).unwrap(), 10);
    assert_eq!(tree.get(1).unwrap(), 15);
    assert_eq!(tree.get(2).unwrap(), 20);

    let removed = tree.remove(1).unwrap();
    assert_eq!(removed, 15);
    assert_eq!(tree.in_order(), vec![10, 20]);
}

#[test]
fn tree_array_bounds() {
    let mut tree = TreeArray::new();
    tree.append(1);
    let err = tree.get(5).unwrap_err();
    assert_eq!(err, IndexError { index: 5, len: 1 });
    assert!(tree.insert(3, 2).is_err());
}

#[test]
fn tree_array_iteration() {
    let mut tree = TreeArray::new();
    for value in 0..6 {
        tree.append(value);
    }
    let mut collected: Vec<i32> = Vec::new();
    let mut it = tree.iter();
    while let Some(v) = it.next() {
        collected.push(*v);
    }
    assert_eq!(collected, vec![0, 1, 2, 3, 4, 5]);
}

#[test]
fn tree_array_empty_tree() {
    let mut tree: TreeArray<u8> = TreeArray::new();
    assert_eq!(tree.len(), 0);
    assert!(tree.is_empty());
    assert_eq!(tree.pop(), None);
    assert_eq!(tree.remove(0), Err(IndexError { index: 0, len: 0 }));
    assert_eq!(tree.set(0, 1), Err(IndexError { index: 0, len: 0 }));
    assert_eq!(tree.in_order(), Vec::<u8>::new());
    assert!(tree.iter().next().is_none());
}

#[test]
fn tree_array_set_then_get() {
    let mut tree = TreeArray::new();
    for value in 0..10u32 {
        tree.append(value);
    }
    tree.set(4, 99).unwrap();
    assert_eq!(tree.get(4), Ok(99));
    assert_eq!(tree.in_order(), vec![0, 1, 2, 3, 99, 5, 6, 7, 8, 9]);
    assert_eq!(tree.set(10, 1), Err(IndexError { index: 10, len: 10 }));
}

#[test]
fn tree_array_insert_then_delete_restores() {
    let mut tree = TreeArray::new();
    for value in 0..7u64 {
        tree.append(value * 10);
    }
    let before = tree.in_order();
    for i in 0..=7usize {
        tree.insert(i, 555).unwrap();
        assert_eq!(tree.get(i), Ok(555));
        assert_eq!(tree.delete(i), Ok(555));
        assert_eq!(tree.in_order(), before);
    }
}

#[test]
fn tree_array_front_inserts_and_pops() {
    let mut tree = TreeArray::new();
    for value in 0..1000usize {
        tree.insert(0, value).unwrap();
        assert_eq!(tree.len(), value + 1);
    }
    assert_eq!(tree.in_order().len(), tree.len());
    assert_eq!(tree.get(0), Ok(999));
    assert_eq!(tree.get(999), Ok(0));
    for expected in 0..500usize {
        assert_eq!(tree.pop(), Some(expected));
    }
    assert_eq!(tree.len(), 500);
    let mut n = 500usize;
    while n > 0 {
        assert_eq!(tree.remove(n / 2).map(|_| ()), Ok(()));
        n -= 1;
        assert_eq!(tree.in_order().len(), n);
    }
    assert!(tree.is_empty());
    tree.clear();
    assert_eq!(tree.len(), 0);
}
