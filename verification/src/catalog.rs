//! Tables and their columns.

use vstd::prelude::*;

verus! {

/// Identifies a table.
#[derive(Clone, Copy, Debug, PartialEq, Eq, Structural)]
pub struct TableId {
    pub table_id: u32,
}

/// The kinds of data that columns hold.
#[derive(Clone, Copy, Debug, PartialEq, Eq, Structural)]
pub enum DataTypeKind {
    Int32,
    Int64,
}

/// The type of a column.
#[derive(Clone, Copy, Debug, PartialEq, Eq, Structural)]
pub struct DataType {
    pub kind: DataTypeKind,
    pub nullable: bool,
}

/// A column.
#[derive(Clone, Copy, Debug, PartialEq, Eq, Structural)]
pub struct Field {
    pub data_type: DataType,
}

/// The columns of a relation.
#[derive(Debug)]
pub struct Schema {
    pub fields: Vec<Field>,
}

} // verus!
