use rustbookkeeping::{map_index_error, ColumnError, IndexError, TableColumn, TableError, ValueKind};

#[test]
fn column_push_set_get() {
    let mut c = TableColumn::<i32>::new("Age");
    assert_eq!(c.name(), "Age");
    assert_eq!(c.kind(), ValueKind::Int);
    c.push(30);
    c.push(28);
    assert_eq!(c.set(1, 29), Ok(()));
    assert_eq!(c.values(), &[30, 29]);
    assert_eq!(c.get(0), Some(&30));
    assert_eq!(c.get(2), None);
    assert_eq!(c.len(), 2);
    assert_eq!(
        c.set(5, 1),
        Err(ColumnError::IndexOutOfBounds { column: "Age".to_string(), index: 5, len: 2 })
    );
}

#[test]
fn column_kinds_and_names() {
    assert_eq!(TableColumn::<String>::new("Name").kind(), ValueKind::Str);
    assert_eq!(TableColumn::<u64>::new("When").kind(), ValueKind::Date);
    assert_eq!(ValueKind::Int.as_str(), "int");
    assert_eq!(ValueKind::Double.as_str(), "double");
    assert_eq!(ValueKind::Null.as_str(), "null");
}

#[test]
fn error_constructors() {
    assert_eq!(
        ColumnError::type_mismatch("Name", ValueKind::Str, ValueKind::Int),
        ColumnError::TypeMismatch {
            column: "Name".to_string(),
            expected: ValueKind::Str,
            found: ValueKind::Int
        }
    );
    assert_eq!(
        ColumnError::index_out_of_bounds("Id", 4, 2),
        ColumnError::IndexOutOfBounds { column: "Id".to_string(), index: 4, len: 2 }
    );
    assert_eq!(TableError::row_length(1, 2), TableError::RowLength { expected: 1, found: 2 });
    assert_eq!(TableError::row_out_of_bounds(3, 1), TableError::RowOutOfBounds { index: 3, len: 1 });
    assert_eq!(
        map_index_error(IndexError { index: 7, len: 2 }),
        TableError::RowOutOfBounds { index: 7, len: 2 }
    );
    let e: TableError = ColumnError::index_out_of_bounds("Id", 0, 0).into();
    assert!(matches!(e, TableError::Column(_)));
}
