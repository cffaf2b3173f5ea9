use vstd::prelude::*;
use crate::row::{Row, TableIndex};
use crate::file::{file_wf, col_kind, cell_wf, cell_value, text_cell_chars, ColKind};
use crate::blob::Blob;
use crate::codes::{FieldFlags, HasConstant};
use crate::type_reader::{TypeReader, files_wf, row_valid, sorted_between, lemma_adjacent_sorted};
use crate::parsed::constant::Constant;

verus! {

/// A typed view over one field row; all data is fetched on demand through the
/// owning reader.
#[derive(Copy, Clone, PartialEq, Eq, Structural, Debug)]
pub struct Field {
    pub row: Row,
}

impl Field {
    /// The view points at an existing field row.
    pub open spec fn wf(self, reader: TypeReader) -> bool {
        &&& self.row.table_index == TableIndex::Field
        &&& row_valid(reader.files@, self.row)
    }

    /// The characters of the field's name column.
    pub open spec fn spec_name(self, reader: TypeReader) -> Seq<char> {
        text_cell_chars(reader.file_of(self.row), TableIndex::Field, self.row.index as int, 1)
    }

    /// The field's name.
    pub fn name(&self, reader: &TypeReader) -> (r: String)
        requires
            files_wf(reader.files@),
            self.wf(*reader),
        ensures
            r@ == self.spec_name(*reader),
    {
        reader.str(self.row, 1)
    }

    /// The field's signature blob.
    pub fn sig(&self, reader: &TypeReader) -> (r: Blob)
        requires
            files_wf(reader.files@),
            self.wf(*reader),
        ensures
            ({
                let f = reader.file_of(self.row);
                let v = cell_value(f, TableIndex::Field, self.row.index as int, 2);
                &&& crate::file::blob_parse(f.bytes@, f.blobs + v) == Option::Some(
                    (r.offset as int, r.size as int),
                )
                &&& r.offset + r.size <= f.bytes@.len()
                &&& r.file_index == self.row.file_index
            }),
    {
        reader.blob(self.row, 2)
    }

    /// The field's flags column.
    pub fn flags(&self, reader: &TypeReader) -> (r: FieldFlags)
        requires
            files_wf(reader.files@),
            self.wf(*reader),
        ensures
            r.0 == cell_value(reader.file_of(self.row), TableIndex::Field, self.row.index as int, 0),
    {
        FieldFlags(reader.u32(self.row, 0))
    }

    /// The constant rows attached to this field: exactly those whose sorted
    /// parent column codes this field.
    pub fn constants(&self, reader: &TypeReader) -> (r: Vec<Constant>)
        requires
            files_wf(reader.files@),
            self.wf(*reader),
        ensures
            ({
                let f = reader.file_of(self.row);
                let key = HasConstant::Field(*self).encode_spec();
                &&& forall|k: int|
                    0 <= k < r@.len() ==> (#[trigger] r@[k]).row.table_index
                        == TableIndex::Constant && r@[k].row.file_index == self.row.file_index
                        && row_valid(reader.files@, r@[k].row)
                &&& forall|k: int|
                    0 <= k < r@.len() ==> (#[trigger] r@[k]).row.index == r@[0].row.index + k
                &&& forall|k: int|
                    0 <= k < r@.len() ==> cell_value(
                        f,
                        TableIndex::Constant,
                        (#[trigger] r@[k]).row.index as int,
                        1,
                    ) == key
                &&& forall|i: int|
                    0 <= i < crate::file::rows_of(f, TableIndex::Constant) && #[trigger] cell_value(
                        f,
                        TableIndex::Constant,
                        i,
                        1,
                    ) == key ==> exists|k: int| 0 <= k < r@.len() && (#[trigger] r@[k]).row.index == i
            }),
    {
        let ghost f = reader.files@[self.row.file_index as int];
        proof {
            assert(file_wf(f));
            assert forall|i: int|
                0 <= i && i + 1 < crate::file::rows_of(f, TableIndex::Constant) implies #[trigger]
            cell_value(f, TableIndex::Constant, i, 1) <= cell_value(
                f,
                TableIndex::Constant,
                i + 1,
                1,
            ) by {
                assert(cell_wf(f, TableIndex::Constant, i, 1));
            };
            lemma_adjacent_sorted(f, TableIndex::Constant, 1);
            assert(crate::file::table_wf(f, TableIndex::Field));
        }
        let key = HasConstant::Field(*self).encode();
        let rows = reader.equal_range(self.row.file_index, TableIndex::Constant, 1, key);
        let mut out: Vec<Constant> = Vec::new();
        let mut k: usize = 0;
        while k < rows.len()
            invariant
                0 <= k <= rows@.len(),
                out@.len() == k,
                forall|j: int| 0 <= j < k ==> (#[trigger] out@[j]).row == rows@[j],
            decreases rows@.len() - k,
        {
            out.push(Constant { row: rows[k] });
            k += 1;
        }
        proof {
            let key = HasConstant::Field(*self).encode_spec();
            assert forall|i: int|
                0 <= i < crate::file::rows_of(f, TableIndex::Constant) && cell_value(
                    f,
                    TableIndex::Constant,
                    i,
                    1,
                ) == key implies exists|k2: int|
                0 <= k2 < out@.len() && (#[trigger] out@[k2]).row.index == i by {
                let k2 = choose|k2: int| 0 <= k2 < rows@.len() && #[trigger] rows@[k2].index == i;
                assert(out@[k2].row.index == i);
            };
        }
        out
    }
}

} // verus!
