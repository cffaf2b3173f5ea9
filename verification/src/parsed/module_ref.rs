use vstd::prelude::*;
use crate::row::{Row, TableIndex};
use crate::file::text_cell_chars;
use crate::type_reader::{TypeReader, files_wf, row_valid};

verus! {

/// A typed view over one module-reference row; all data is fetched on demand
/// through the owning reader.
#[derive(Copy, Clone, PartialEq, Eq, Structural, Debug)]
pub struct ModuleRef {
    pub row: Row,
}

impl ModuleRef {
    /// The view points at an existing module-reference row.
    pub open spec fn wf(self, reader: TypeReader) -> bool {
        &&& self.row.table_index == TableIndex::ModuleRef
        &&& row_valid(reader.files@, self.row)
    }

    /// The characters of the module's name column.
    pub open spec fn spec_name(self, reader: TypeReader) -> Seq<char> {
        text_cell_chars(reader.file_of(self.row), TableIndex::ModuleRef, self.row.index as int, 0)
    }

    /// The referenced module's name.
    pub fn name(&self, reader: &TypeReader) -> (r: String)
        requires
            files_wf(reader.files@),
            self.wf(*reader),
        ensures
            r@ == self.spec_name(*reader),
    {
        reader.str(self.row, 0)
    }
}

} // verus!
