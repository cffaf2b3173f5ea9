use vstd::prelude::*;
use crate::row::{Row, TableIndex};
use crate::file::cell_value;
use crate::codes::{Decode, TypeDefOrRef};
use crate::type_reader::{TypeReader, files_wf, row_valid};

verus! {

/// A typed view over one interface-implementation row; all data is fetched
/// on demand through the owning reader.
#[derive(Copy, Clone, PartialEq, Eq, Structural, Debug)]
pub struct InterfaceImpl {
    pub row: Row,
}

impl InterfaceImpl {
    /// The view points at an existing interface-implementation row.
    pub open spec fn wf(self, reader: TypeReader) -> bool {
        &&& self.row.table_index == TableIndex::InterfaceImpl
        &&& row_valid(reader.files@, self.row)
    }

    /// What the interface column decodes to.
    pub open spec fn spec_interface(self, reader: TypeReader) -> Option<TypeDefOrRef> {
        TypeDefOrRef::decode_spec(
            cell_value(
                reader.file_of(self.row),
                TableIndex::InterfaceImpl,
                self.row.index as int,
                1,
            ),
            self.row.file_index as int,
            reader.file_of(self.row),
        )
    }

    /// The implemented interface; `None` for a null or unmapped code.
    pub fn interface(&self, reader: &TypeReader) -> (r: Option<TypeDefOrRef>)
        requires
            files_wf(reader.files@),
            self.wf(*reader),
        ensures
            r == self.spec_interface(*reader),
    {
        reader.decode(self.row, 1)
    }
}

} // verus!
