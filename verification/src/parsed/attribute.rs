use vstd::prelude::*;
use crate::row::{Row, TableIndex};
use crate::file::{File, cell_value, text_cell_chars};
use crate::codes::{Decode, AttributeType, MemberRefParent};
use crate::type_reader::{TypeReader, files_wf, row_valid};
use crate::parsed::method_def::{method_has_parent, method_parent_of};

verus! {

/// A typed view over one custom-attribute row; all data is fetched on demand
/// through the owning reader.
#[derive(Copy, Clone, PartialEq, Eq, Structural, Debug)]
pub struct Attribute {
    pub row: Row,
}

/// The namespace and name of attribute row `i`'s constructor's type: through
/// a method of this file's own type, or through a member reference whose
/// parent names the type; `None` where the constructor column leads to
/// neither.
pub open spec fn attr_name_spec(f: File, fidx: int, i: int) -> Option<(Seq<char>, Seq<char>)> {
    match AttributeType::decode_spec(
        cell_value(f, TableIndex::CustomAttribute, i, 1),
        fidx,
        f,
    ) {
        Option::Some(AttributeType::MethodDef(md)) => {
            if method_has_parent(f, md.row.index as int) {
                let t = method_parent_of(f, md.row.index as int);
                Option::Some(
                    (
                        text_cell_chars(f, TableIndex::TypeDef, t, 2),
                        text_cell_chars(f, TableIndex::TypeDef, t, 1),
                    ),
                )
            } else {
                Option::None
            }
        },
        Option::Some(AttributeType::MemberRef(mr)) => {
            match MemberRefParent::decode_spec(
                cell_value(f, TableIndex::MemberRef, mr.row.index as int, 0),
                fidx,
                f,
            ) {
                Option::Some(MemberRefParent::TypeDef(td)) => Option::Some(
                    (
                        text_cell_chars(f, TableIndex::TypeDef, td.row.index as int, 2),
                        text_cell_chars(f, TableIndex::TypeDef, td.row.index as int, 1),
                    ),
                ),
                Option::Some(MemberRefParent::TypeRef(tr)) => Option::Some(
                    (
                        text_cell_chars(f, TableIndex::TypeRef, tr.row.index as int, 2),
                        text_cell_chars(f, TableIndex::TypeRef, tr.row.index as int, 1),
                    ),
                ),
                _ => Option::None,
            }
        },
        Option::None => Option::None,
    }
}

impl Attribute {
    /// The view points at an existing custom-attribute row.
    pub open spec fn wf(self, reader: TypeReader) -> bool {
        &&& self.row.table_index == TableIndex::CustomAttribute
        &&& row_valid(reader.files@, self.row)
    }

    /// The namespace and name of the attribute's type; `None` where the
    /// constructor column leads to no named type.
    pub fn name(&self, reader: &TypeReader) -> (r: Option<(String, String)>)
        requires
            files_wf(reader.files@),
            self.wf(*reader),
        ensures
            ({
                let found = attr_name_spec(
                    reader.file_of(self.row),
                    self.row.file_index as int,
                    self.row.index as int,
                );
                match r {
                    Option::Some(p) => found == Option::Some((p.0@, p.1@)),
                    Option::None => found is None,
                }
            }),
    {
        match reader.decode::<AttributeType>(self.row, 1) {
            Option::Some(AttributeType::MethodDef(md)) => {
                let parent = md.parent(reader);
                let (namespace, name) = parent.name(reader);
                Option::Some((namespace, name))
            },
            Option::Some(AttributeType::MemberRef(mr)) => {
                match mr.parent(reader) {
                    Option::Some(MemberRefParent::TypeDef(td)) => {
                        let (namespace, name) = td.name(reader);
                        Option::Some((namespace, name))
                    },
                    Option::Some(MemberRefParent::TypeRef(tr)) => {
                        let (namespace, name) = tr.name(reader);
                        Option::Some((namespace, name))
                    },
                    _ => Option::None,
                }
            },
            Option::None => Option::None,
        }
    }
}

} // verus!
