use vstd::prelude::*;
use crate::row::{Row, TableIndex};
use crate::file::text_cell_chars;
use crate::type_reader::{TypeReader, files_wf, row_valid};

verus! {

/// A typed view over one generic-parameter row; all data is fetched on demand
/// through the owning reader.
#[derive(Copy, Clone, PartialEq, Eq, Structural, Debug)]
pub struct GenericParam {
    pub row: Row,
}

impl GenericParam {
    /// The view points at an existing generic-parameter row.
    pub open spec fn wf(self, reader: TypeReader) -> bool {
        &&& self.row.table_index == TableIndex::GenericParam
        &&& row_valid(reader.files@, self.row)
    }

    /// The characters of the parameter's name column.
    pub open spec fn spec_name(self, reader: TypeReader) -> Seq<char> {
        text_cell_chars(reader.file_of(self.row), TableIndex::GenericParam, self.row.index as int, 3)
    }

    /// The parameter's name.
    pub fn name(&self, reader: &TypeReader) -> (r: String)
        requires
            files_wf(reader.files@),
            self.wf(*reader),
        ensures
            r@ == self.spec_name(*reader),
    {
        reader.str(self.row, 3)
    }
}

} // verus!
