use vstd::prelude::*;

use crate::column::ColumnError;
use crate::tree_array::IndexError;

verus! {

/// Errors propagated by table operations.
#[derive(Debug, Clone, PartialEq, Eq)]
pub enum TableError {
    Column(ColumnError),
    RowLength { expected: usize, found: usize },
    RowOutOfBounds { index: usize, len: usize },
}

/// Convenience alias for table-oriented results.
pub type TableResult<T> = Result<T, TableError>;

impl TableError {
    /// The error for a row of `found` values offered to a table of `expected` columns.
    pub fn row_length(expected: usize, found: usize) -> (r: Self)
        ensures
            r == (TableError::RowLength { expected, found }),
    {
        TableError::RowLength { expected, found }
    }

    /// The error for row `index` of a table of `len` rows.
    pub fn row_out_of_bounds(index: usize, len: usize) -> (r: Self)
        ensures
            r == (TableError::RowOutOfBounds { index, len }),
    {
        TableError::RowOutOfBounds { index, len }
    }
}

impl From<ColumnError> for TableError {
    fn from(error: ColumnError) -> (r: Self) {
        TableError::Column(error)
    }
}

impl vstd::std_specs::convert::FromSpecImpl<ColumnError> for TableError {
    open spec fn obeys_from_spec() -> bool {
        true
    }

    open spec fn from_spec(error: ColumnError) -> TableError {
        TableError::Column(error)
    }
}

/// A row position outside a table, as a table error.
pub fn map_index_error(error: IndexError) -> (r: TableError)
    ensures
        r == (TableError::RowOutOfBounds { index: error.index, len: error.len }),
{
    TableError::row_out_of_bounds(error.index, error.len)
}

} // verus!
