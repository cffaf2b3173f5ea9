use vstd::prelude::*;
use crate::row::{Row, TableIndex};
use crate::file::{cell_value, blob_parse};
use crate::blob::Blob;
use crate::type_reader::{TypeReader, files_wf, row_valid};

verus! {

/// A typed view over one type-specification row; all data is fetched on
/// demand through the owning reader.
#[derive(Copy, Clone, PartialEq, Eq, Structural, Debug)]
pub struct TypeSpec {
    pub row: Row,
}

impl TypeSpec {
    /// The view points at an existing type-specification row.
    pub open spec fn wf(self, reader: TypeReader) -> bool {
        &&& self.row.table_index == TableIndex::TypeSpec
        &&& row_valid(reader.files@, self.row)
    }

    /// The blob holding the specification's signature.
    pub fn sig(&self, reader: &TypeReader) -> (r: Blob)
        requires
            files_wf(reader.files@),
            self.wf(*reader),
        ensures
            ({
                let f = reader.file_of(self.row);
                let v = cell_value(f, TableIndex::TypeSpec, self.row.index as int, 0);
                &&& blob_parse(f.bytes@, f.blobs + v) == Option::Some(
                    (r.offset as int, r.size as int),
                )
                &&& r.offset + r.size <= f.bytes@.len()
                &&& r.file_index == self.row.file_index
            }),
    {
        reader.blob(self.row, 0)
    }
}

} // verus!
