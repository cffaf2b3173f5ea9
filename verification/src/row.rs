use vstd::prelude::*;

verus! {

/// Identifies one of the metadata tables that a row can live in.
#[derive(Copy, Clone, PartialEq, Eq, Structural, Debug, Hash)]
pub enum TableIndex {
    Constant,
    CustomAttribute,
    Field,
    GenericParam,
    InterfaceImpl,
    MemberRef,
    MethodDef,
    Param,
    TypeDef,
    TypeRef,
    TypeSpec,
    ModuleRef,
}

/// The number of metadata tables a file carries.
pub const TABLE_COUNT: usize = 12;

/// The position of a table's layout inside a file's table directory.
pub open spec fn table_num(table: TableIndex) -> int {
    match table {
        TableIndex::Constant => 0,
        TableIndex::CustomAttribute => 1,
        TableIndex::Field => 2,
        TableIndex::GenericParam => 3,
        TableIndex::InterfaceImpl => 4,
        TableIndex::MemberRef => 5,
        TableIndex::MethodDef => 6,
        TableIndex::Param => 7,
        TableIndex::TypeDef => 8,
        TableIndex::TypeRef => 9,
        TableIndex::TypeSpec => 10,
        TableIndex::ModuleRef => 11,
    }
}

/// Executable twin of [`table_num`].
pub fn table_index(table: TableIndex) -> (r: usize)
    ensures
        r == table_num(table),
{
    match table {
        TableIndex::Constant => 0,
        TableIndex::CustomAttribute => 1,
        TableIndex::Field => 2,
        TableIndex::GenericParam => 3,
        TableIndex::InterfaceImpl => 4,
        TableIndex::MemberRef => 5,
        TableIndex::MethodDef => 6,
        TableIndex::Param => 7,
        TableIndex::TypeDef => 8,
        TableIndex::TypeRef => 9,
        TableIndex::TypeSpec => 10,
        TableIndex::ModuleRef => 11,
    }
}

/// A logical coordinate of one record: which file, which table, which row.
/// It carries no data of its own; everything is read on demand through the
/// owning file.
#[derive(Copy, Clone, PartialEq, Eq, Structural, Debug, Hash)]
pub struct Row {
    pub index: usize,
    pub table_index: TableIndex,
    pub file_index: usize,
}

impl Row {
    pub fn new(index: usize, table_index: TableIndex, file_index: usize) -> (r: Row)
        ensures
            r == (Row { index, table_index, file_index }),
    {
        Row { index, table_index, file_index }
    }

    /// The row right after this one in the same table.
    pub fn next(&self) -> (r: Row)
        requires
            self.index < usize::MAX,
        ensures
            r == (Row { index: (self.index + 1) as usize, ..*self }),
    {
        Row { index: self.index + 1, table_index: self.table_index, file_index: self.file_index }
    }
}

} // verus!
