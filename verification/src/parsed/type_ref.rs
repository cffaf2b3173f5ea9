use vstd::prelude::*;
use crate::row::{Row, TableIndex};
use crate::file::text_cell_chars;
use crate::type_reader::{TypeReader, TypeRow, files_wf, row_valid};
use crate::parsed::type_def::TypeDef;

verus! {

/// A typed view over one type-reference row; all data is fetched on demand
/// through the owning reader.
#[derive(Copy, Clone, PartialEq, Eq, Structural, Debug)]
pub struct TypeRef {
    pub row: Row,
}

impl TypeRef {
    /// The view points at an existing type-reference row.
    pub open spec fn wf(self, reader: TypeReader) -> bool {
        &&& self.row.table_index == TableIndex::TypeRef
        &&& row_valid(reader.files@, self.row)
    }

    /// The characters of the reference's namespace column.
    pub open spec fn spec_namespace(self, reader: TypeReader) -> Seq<char> {
        text_cell_chars(reader.file_of(self.row), TableIndex::TypeRef, self.row.index as int, 2)
    }

    /// The characters of the reference's name column.
    pub open spec fn spec_name(self, reader: TypeReader) -> Seq<char> {
        text_cell_chars(reader.file_of(self.row), TableIndex::TypeRef, self.row.index as int, 1)
    }

    /// The referenced type's namespace and name.
    pub fn name(&self, reader: &TypeReader) -> (r: (String, String))
        requires
            files_wf(reader.files@),
            self.wf(*reader),
        ensures
            r.0@ == self.spec_namespace(*reader),
            r.1@ == self.spec_name(*reader),
    {
        (reader.str(self.row, 2), reader.str(self.row, 1))
    }

    /// The type definition the registry resolves this reference to; the
    /// reference must resolve, and resolve to a type definition.
    pub fn resolve(&self, reader: &TypeReader) -> (r: TypeDef)
        requires
            reader.wf(),
            self.wf(*reader),
            reader.spec_find_type(self.spec_namespace(*reader), self.spec_name(*reader)) matches
                Option::Some(TypeRow::TypeDef(_)),
        ensures
            reader.spec_find_type(self.spec_namespace(*reader), self.spec_name(*reader))
                == Option::Some(TypeRow::TypeDef(r)),
    {
        let (namespace, name) = self.name(reader);
        reader.expect_type_def(&namespace, &name)
    }
}

} // verus!
