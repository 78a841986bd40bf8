use vstd::prelude::*;

verus! {

/// The kinds of value that a table cell can hold.
#[derive(Debug, Clone, Copy, PartialEq, Eq, Structural)]
pub enum ValueKind {
    Int,
    Float,
    Double,
    UInt,
    Long,
    Bool,
    Byte,
    Char,
    Str,
    Date,
    Null,
}

/// The lower-case name of a kind.
pub open spec fn kind_name(k: ValueKind) -> Seq<char> {
    match k {
        ValueKind::Int => "int"@,
        ValueKind::Float => "float"@,
        ValueKind::Double => "double"@,
        ValueKind::UInt => "uint"@,
        ValueKind::Long => "long"@,
        ValueKind::Bool => "bool"@,
        ValueKind::Byte => "byte"@,
        ValueKind::Char => "char"@,
        ValueKind::Str => "str"@,
        ValueKind::Date => "date"@,
        ValueKind::Null => "null"@,
    }
}

impl ValueKind {
    /// Returns a lower-case name for the kind.
    pub fn as_str(self) -> (r: &'static str)
        ensures
            r@ == kind_name(self),
    {
        match self {
            ValueKind::Int => "int",
            ValueKind::Float => "float",
            ValueKind::Double => "double",
            ValueKind::UInt => "uint",
            ValueKind::Long => "long",
            ValueKind::Bool => "bool",
            ValueKind::Byte => "byte",
            ValueKind::Char => "char",
            ValueKind::Str => "str",
            ValueKind::Date => "date",
            ValueKind::Null => "null",
        }
    }
}

} // verus!
