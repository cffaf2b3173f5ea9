use vstd::prelude::*;
use crate::row::{Row, TableIndex};
use crate::file::{cell_value, blob_parse};
use crate::blob::Blob;
use crate::codes::{ElementType, element_type_from_code};
use crate::type_reader::{TypeReader, files_wf, row_valid};

verus! {

/// A typed view over one constant row; all data is fetched on demand through
/// the owning reader.
#[derive(Copy, Clone, PartialEq, Eq, Structural, Debug)]
pub struct Constant {
    pub row: Row,
}

impl Constant {
    /// The view points at an existing constant row.
    pub open spec fn wf(self, reader: TypeReader) -> bool {
        &&& self.row.table_index == TableIndex::Constant
        &&& row_valid(reader.files@, self.row)
    }

    /// The element type of the constant's value; `None` for a code outside
    /// the fixed list.
    pub fn value_type(&self, reader: &TypeReader) -> (r: Option<ElementType>)
        requires
            files_wf(reader.files@),
            self.wf(*reader),
        ensures
            r == element_type_from_code(
                cell_value(reader.file_of(self.row), TableIndex::Constant, self.row.index as int, 0),
            ),
    {
        ElementType::from_code(reader.u32(self.row, 0))
    }

    /// The blob holding the constant's value.
    pub fn value(&self, reader: &TypeReader) -> (r: Blob)
        requires
            files_wf(reader.files@),
            self.wf(*reader),
        ensures
            ({
                let f = reader.file_of(self.row);
                let v = cell_value(f, TableIndex::Constant, self.row.index as int, 2);
                &&& blob_parse(f.bytes@, f.blobs + v) == Option::Some(
                    (r.offset as int, r.size as int),
                )
                &&& r.offset + r.size <= f.bytes@.len()
                &&& r.file_index == self.row.file_index
            }),
    {
        reader.blob(self.row, 2)
    }
}

} // verus!
