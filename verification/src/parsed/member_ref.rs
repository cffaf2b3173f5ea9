use vstd::prelude::*;
use crate::row::{Row, TableIndex};
use crate::file::{cell_value, text_cell_chars};
use crate::codes::{Decode, MemberRefParent};
use crate::type_reader::{TypeReader, files_wf, row_valid};

verus! {

/// A typed view over one member-reference row; all data is fetched on demand
/// through the owning reader.
#[derive(Copy, Clone, PartialEq, Eq, Structural, Debug)]
pub struct MemberRef {
    pub row: Row,
}

impl MemberRef {
    /// The view points at an existing member-reference row.
    pub open spec fn wf(self, reader: TypeReader) -> bool {
        &&& self.row.table_index == TableIndex::MemberRef
        &&& row_valid(reader.files@, self.row)
    }

    /// What the parent column decodes to.
    pub open spec fn spec_parent(self, reader: TypeReader) -> Option<MemberRefParent> {
        MemberRefParent::decode_spec(
            cell_value(reader.file_of(self.row), TableIndex::MemberRef, self.row.index as int, 0),
            self.row.file_index as int,
            reader.file_of(self.row),
        )
    }

    /// The row this member belongs to; `None` for a null or unmapped parent
    /// code.
    pub fn parent(&self, reader: &TypeReader) -> (r: Option<MemberRefParent>)
        requires
            files_wf(reader.files@),
            self.wf(*reader),
        ensures
            r == self.spec_parent(*reader),
    {
        reader.decode(self.row, 0)
    }

    /// The characters of the member's name column.
    pub open spec fn spec_name(self, reader: TypeReader) -> Seq<char> {
        text_cell_chars(reader.file_of(self.row), TableIndex::MemberRef, self.row.index as int, 1)
    }

    /// The member's name.
    pub fn name(&self, reader: &TypeReader) -> (r: String)
        requires
            files_wf(reader.files@),
            self.wf(*reader),
        ensures
            r@ == self.spec_name(*reader),
    {
        reader.str(self.row, 1)
    }
}

} // verus!
