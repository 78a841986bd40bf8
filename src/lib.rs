//! Positional data structures for spreadsheet-like tables.
//!
//! - [`TreeArray`]: an implicit-index AVL tree with `O(log n)` positional access.
//! - [`IndirectionLayer`]: a dense logical order over sparse, recyclable physical slots.
//! - [`History`]: undo and redo stacks of invertible change sets.
//! - [`CSVTable`]: a grid of text cells built from the pieces above, with undo and redo.
//! - [`CsvReader`] and [`CsvWriter`]: reading and writing CSV text.
//! - [`TableColumn`]: a named column of typed values, with the errors of column operations.
pub mod column;
pub mod csv_read;
pub mod csv_table;
pub mod grid_change;
pub mod history;
pub mod indirection;
pub mod table;
pub mod tree_array;
pub mod value;

pub use column::{ColumnError, ColumnResult, ColumnType, TableColumn};
pub use csv_read::{CsvReader, CsvWriter};
pub use csv_table::CSVTable;
pub use history::{History, TargetMementoTrait};
pub use indirection::{IndirectionLayer, SlotState};
pub use table::{map_index_error, TableError, TableResult};
pub use tree_array::{IndexError, IndexResult, TreeArray, TreeArrayIter};
pub use value::ValueKind;
