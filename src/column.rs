use vstd::prelude::*;

use crate::value::ValueKind;

verus! {

/// Errors that can occur when manipulating columnar data.
#[derive(Debug, Clone, PartialEq, Eq)]
pub enum ColumnError {
    TypeMismatch { column: String, expected: ValueKind, found: ValueKind },
    IndexOutOfBounds { column: String, index: usize, len: usize },
}

/// Convenience alias for operations on columns.
pub type ColumnResult<T> = Result<T, ColumnError>;

impl ColumnError {
    /// The error for a value of kind `found` offered to column `column` of kind `expected`.
    pub fn type_mismatch(column: &str, expected: ValueKind, found: ValueKind) -> (r: Self)
        ensures
            match r {
                ColumnError::TypeMismatch { column: c, expected: e, found: f } => c@ == column@
                    && e == expected && f == found,
                _ => false,
            },
    {
        Self::TypeMismatch { column: column.to_owned(), expected, found }
    }

    /// The error for position `index` of column `column`, which holds `len` values.
    pub fn index_out_of_bounds(column: &str, index: usize, len: usize) -> (r: Self)
        ensures
            match r {
                ColumnError::IndexOutOfBounds { column: c, index: i, len: n } => c@ == column@
                    && i == index && n == len,
                _ => false,
            },
    {
        Self::IndexOutOfBounds { column: column.to_owned(), index, len }
    }
}

/// A type whose values a [`TableColumn`] can store.
pub trait ColumnType: Sized {
    /// The kind of value the type stands for.
    spec fn spec_kind() -> ValueKind;

    /// Returns the kind of value the type stands for.
    fn kind() -> (k: ValueKind)
        ensures
            k == Self::spec_kind(),
    ;
}

impl ColumnType for i32 {
    open spec fn spec_kind() -> ValueKind {
        ValueKind::Int
    }

    fn kind() -> (k: ValueKind) {
        ValueKind::Int
    }
}

impl ColumnType for u32 {
    open spec fn spec_kind() -> ValueKind {
        ValueKind::UInt
    }

    fn kind() -> (k: ValueKind) {
        ValueKind::UInt
    }
}

impl ColumnType for i64 {
    open spec fn spec_kind() -> ValueKind {
        ValueKind::Long
    }

    fn kind() -> (k: ValueKind) {
        ValueKind::Long
    }
}

impl ColumnType for bool {
    open spec fn spec_kind() -> ValueKind {
        ValueKind::Bool
    }

    fn kind() -> (k: ValueKind) {
        ValueKind::Bool
    }
}

impl ColumnType for u8 {
    open spec fn spec_kind() -> ValueKind {
        ValueKind::Byte
    }

    fn kind() -> (k: ValueKind) {
        ValueKind::Byte
    }
}

impl ColumnType for char {
    open spec fn spec_kind() -> ValueKind {
        ValueKind::Char
    }

    fn kind() -> (k: ValueKind) {
        ValueKind::Char
    }
}

impl ColumnType for String {
    open spec fn spec_kind() -> ValueKind {
        ValueKind::Str
    }

    fn kind() -> (k: ValueKind) {
        ValueKind::Str
    }
}

impl ColumnType for u64 {
    open spec fn spec_kind() -> ValueKind {
        ValueKind::Date
    }

    fn kind() -> (k: ValueKind) {
        ValueKind::Date
    }
}

/// A named column of typed values, backed by a `Vec<T>`.
pub struct TableColumn<T: ColumnType> {
    name: String,
    values: Vec<T>,
}

impl<T: ColumnType> TableColumn<T> {
    /// The column's name.
    pub closed spec fn spec_name(&self) -> Seq<char> {
        self.name@
    }

    /// The column's values, by row.
    pub closed spec fn spec_values(&self) -> Seq<T> {
        self.values@
    }

    /// Creates an empty column with the given `name`.
    pub fn new(name: &str) -> (c: Self)
        ensures
            c.spec_name() == name@,
            c.spec_values() == Seq::<T>::empty(),
    {
        Self { name: name.to_owned(), values: Vec::new() }
    }

    /// Returns the typed view of the underlying values.
    pub fn values(&self) -> (r: &[T])
        ensures
            r@ == self.spec_values(),
    {
        self.values.as_slice()
    }

    /// Returns the column's name.
    pub fn name(&self) -> (r: &str)
        ensures
            r@ == self.spec_name(),
    {
        self.name.as_str()
    }

    /// Returns the number of values.
    pub fn len(&self) -> (n: usize)
        ensures
            n == self.spec_values().len(),
    {
        self.values.len()
    }

    /// Reports the kind of value the column stores.
    pub fn kind(&self) -> (k: ValueKind)
        ensures
            k == T::spec_kind(),
    {
        T::kind()
    }

    /// Appends `value` to the column.
    pub fn push(&mut self, value: T)
        ensures
            final(self).spec_name() == old(self).spec_name(),
            final(self).spec_values() == old(self).spec_values().push(value),
    {
        self.values.push(value);
    }

    /// Replaces the value at `index`; fails when there is no such row.
    pub fn set(&mut self, index: usize, value: T) -> (r: ColumnResult<()>)
        ensures
            final(self).spec_name() == old(self).spec_name(),
            index < old(self).spec_values().len() ==> r.is_ok() && final(self).spec_values() == old(
                self,
            ).spec_values().update(index as int, value),
            index >= old(self).spec_values().len() ==> final(self).spec_values() == old(
                self,
            ).spec_values() && match r {
                Err(ColumnError::IndexOutOfBounds { column: c, index: i, len: n }) => c@
                    == old(self).spec_name() && i == index && n == old(self).spec_values().len(),
                _ => false,
            },
    {
        match self.ensure_index(index) {
            Ok(()) => {},
            Err(e) => return Err(e),
        }
        self.values.set(index, value);
        Ok(())
    }

    /// Returns the value at `index`, if present.
    pub fn get(&self, index: usize) -> (r: Option<&T>)
        ensures
            index < self.spec_values().len() ==> r == Some(&self.spec_values()[index as int]),
            index >= self.spec_values().len() ==> r.is_none(),
    {
        if index < self.values.len() {
            Some(&self.values[index])
        } else {
            None
        }
    }

    fn ensure_index(&self, index: usize) -> (r: ColumnResult<()>)
        ensures
            index < self.spec_values().len() ==> r.is_ok(),
            index >= self.spec_values().len() ==> match r {
                Err(ColumnError::IndexOutOfBounds { column: c, index: i, len: n }) => c@
                    == self.spec_name() && i == index && n == self.spec_values().len(),
                _ => false,
            },
    {
        if index < self.values.len() {
            Ok(())
        } else {
            Err(ColumnError::index_out_of_bounds(self.name.as_str(), index, self.values.len()))
        }
    }
}

} // verus!
