use vstd::prelude::*;
use crate::row::{Row, TableIndex};
use crate::file::{File, file_wf, table_wf, cell_wf, cell_value, text_cell_chars, rows_of,
    list_first, list_last, blob_parse, ColKind, col_kind};
use crate::blob::Blob;
use crate::codes::{MethodFlags, MethodCategory, HasAttribute};
use crate::type_reader::{TypeReader, files_wf, row_valid, lemma_adjacent_sorted};
use crate::parsed::param::Param;
use crate::parsed::type_def::TypeDef;
use crate::parsed::attribute::Attribute;
use crate::text::{has_prefix, starts_with_text};

verus! {

/// A typed view over one method row; all data is fetched on demand through
/// the owning reader.
#[derive(Copy, Clone, PartialEq, Eq, Structural, Debug)]
pub struct MethodDef {
    pub row: Row,
}

/// Some type definition's method range contains method `m`.
pub open spec fn method_has_parent(f: File, m: int) -> bool {
    exists|t: int|
        0 <= t < rows_of(f, TableIndex::TypeDef) && #[trigger] list_first(
            f,
            TableIndex::TypeDef,
            t,
            5,
        ) <= m < list_last(f, TableIndex::TypeDef, t, 5, TableIndex::MethodDef)
}

/// The type definition whose method range contains method `m`.
pub open spec fn method_parent_of(f: File, m: int) -> int {
    choose|t: int|
        0 <= t < rows_of(f, TableIndex::TypeDef) && #[trigger] list_first(
            f,
            TableIndex::TypeDef,
            t,
            5,
        ) <= m < list_last(f, TableIndex::TypeDef, t, 5, TableIndex::MethodDef)
}

/// Method ranges of distinct type definitions never overlap.
pub proof fn lemma_method_parent_unique(f: File, m: int, t1: int, t2: int)
    requires
        file_wf(f),
        0 <= t1 < rows_of(f, TableIndex::TypeDef),
        0 <= t2 < rows_of(f, TableIndex::TypeDef),
        list_first(f, TableIndex::TypeDef, t1, 5) <= m < list_last(
            f,
            TableIndex::TypeDef,
            t1,
            5,
            TableIndex::MethodDef,
        ),
        list_first(f, TableIndex::TypeDef, t2, 5) <= m < list_last(
            f,
            TableIndex::TypeDef,
            t2,
            5,
            TableIndex::MethodDef,
        ),
    ensures
        t1 == t2,
{
    assert forall|r: int|
        0 <= r && r + 1 < rows_of(f, TableIndex::TypeDef) implies #[trigger] cell_value(
        f,
        TableIndex::TypeDef,
        r,
        5,
    ) <= cell_value(f, TableIndex::TypeDef, r + 1, 5) by {
        assert(cell_wf(f, TableIndex::TypeDef, r, 5));
    };
    lemma_adjacent_sorted(f, TableIndex::TypeDef, 5);
    if t1 < t2 {
        assert(cell_value(f, TableIndex::TypeDef, t1 + 1, 5) <= cell_value(
            f,
            TableIndex::TypeDef,
            t2,
            5,
        ));
    }
    if t2 < t1 {
        assert(cell_value(f, TableIndex::TypeDef, t2 + 1, 5) <= cell_value(
            f,
            TableIndex::TypeDef,
            t1,
            5,
        ));
    }
}

impl MethodDef {
    /// The view points at an existing method row.
    pub open spec fn wf(self, reader: TypeReader) -> bool {
        &&& self.row.table_index == TableIndex::MethodDef
        &&& row_valid(reader.files@, self.row)
    }

    /// The method's flags column.
    pub fn flags(&self, reader: &TypeReader) -> (r: MethodFlags)
        requires
            files_wf(reader.files@),
            self.wf(*reader),
        ensures
            r.0 == cell_value(
                reader.file_of(self.row),
                TableIndex::MethodDef,
                self.row.index as int,
                2,
            ),
    {
        MethodFlags(reader.u32(self.row, 2))
    }

    /// The type definition this method belongs to: the one whose method range
    /// contains it.
    pub fn parent(&self, reader: &TypeReader) -> (r: TypeDef)
        requires
            files_wf(reader.files@),
            self.wf(*reader),
        ensures
            r.row.table_index == TableIndex::TypeDef,
            r.row.file_index == self.row.file_index,
            row_valid(reader.files@, r.row),
            method_has_parent(reader.file_of(self.row), self.row.index as int),
            r.row.index == method_parent_of(reader.file_of(self.row), self.row.index as int),
    {
        let ghost f = reader.files@[self.row.file_index as int];
        let ghost m = self.row.index as int;
        proof {
            assert(file_wf(f));
            assert(table_wf(f, TableIndex::MethodDef));
            assert forall|r2: int|
                0 <= r2 && r2 + 1 < rows_of(f, TableIndex::TypeDef) implies #[trigger] cell_value(
                f,
                TableIndex::TypeDef,
                r2,
                5,
            ) <= cell_value(f, TableIndex::TypeDef, r2 + 1, 5) by {
                assert(cell_wf(f, TableIndex::TypeDef, r2, 5));
            };
            lemma_adjacent_sorted(f, TableIndex::TypeDef, 5);
        }
        let value = (self.row.index as u32) + 1;
        let found = reader.upper_bound(self.row.file_index, TableIndex::TypeDef, 5, value);
        proof {
            assert(rows_of(f, TableIndex::TypeDef) > 0);
            if found.index == 0 {
                assert(cell_wf(f, TableIndex::TypeDef, 0, 5));
                assert(cell_value(f, TableIndex::TypeDef, 0, 5) > value);
            }
            let t = found.index - 1;
            assert(cell_wf(f, TableIndex::TypeDef, t, 5));
            if found.index < rows_of(f, TableIndex::TypeDef) {
                assert(cell_value(f, TableIndex::TypeDef, found.index as int, 5) > value);
            }
            assert(list_first(f, TableIndex::TypeDef, t, 5) <= m < list_last(
                f,
                TableIndex::TypeDef,
                t,
                5,
                TableIndex::MethodDef,
            ));
            let tc = method_parent_of(f, m);
            lemma_method_parent_unique(f, m, t, tc);
        }
        TypeDef { row: Row { index: found.index - 1, table_index: TableIndex::TypeDef, file_index: self.row.file_index } }
    }

    /// The method's parameter rows: the range this row owns in the parameter
    /// table.
    pub fn params(&self, reader: &TypeReader) -> (r: Vec<Param>)
        requires
            files_wf(reader.files@),
            self.wf(*reader),
        ensures
            ({
                let f = reader.file_of(self.row);
                let first = list_first(f, TableIndex::MethodDef, self.row.index as int, 5);
                let last = list_last(
                    f,
                    TableIndex::MethodDef,
                    self.row.index as int,
                    5,
                    TableIndex::Param,
                );
                &&& r@.len() == last - first
                &&& forall|k: int|
                    0 <= k < r@.len() ==> (#[trigger] r@[k]).row == (Row {
                        index: (first + k) as usize,
                        table_index: TableIndex::Param,
                        file_index: self.row.file_index,
                    })
                &&& forall|k: int| 0 <= k < r@.len() ==> row_valid(reader.files@, (#[trigger] r@[k]).row)
            }),
    {
        let rows = reader.list(self.row, TableIndex::Param, 5);
        let mut out: Vec<Param> = Vec::new();
        let mut k: usize = 0;
        while k < rows.len()
            invariant
                0 <= k <= rows@.len(),
                out@.len() == k,
                forall|j: int| 0 <= j < k ==> (#[trigger] out@[j]).row == rows@[j],
            decreases rows@.len() - k,
        {
            out.push(Param { row: rows[k] });
            k += 1;
        }
        out
    }

    /// The characters of the method's name column.
    pub open spec fn spec_name(self, reader: TypeReader) -> Seq<char> {
        text_cell_chars(reader.file_of(self.row), TableIndex::MethodDef, self.row.index as int, 3)
    }

    /// The method's name.
    pub fn name(&self, reader: &TypeReader) -> (r: String)
        requires
            files_wf(reader.files@),
            self.wf(*reader),
        ensures
            r@ == self.spec_name(*reader),
    {
        reader.str(self.row, 3)
    }

    /// The method's signature blob.
    pub fn sig(&self, reader: &TypeReader) -> (r: Blob)
        requires
            files_wf(reader.files@),
            self.wf(*reader),
        ensures
            ({
                let f = reader.file_of(self.row);
                let v = cell_value(f, TableIndex::MethodDef, self.row.index as int, 4);
                &&& blob_parse(f.bytes@, f.blobs + v) == Option::Some(
                    (r.offset as int, r.size as int),
                )
                &&& r.offset + r.size <= f.bytes@.len()
                &&& r.file_index == self.row.file_index
            }),
    {
        reader.blob(self.row, 4)
    }

    /// How the method is consumed: judged from the special flag and the
    /// name's prefix; a special method without a recognized prefix, such as a
    /// delegate's invoke method, is still ordinary.
    pub open spec fn spec_category(self, reader: TypeReader) -> MethodCategory {
        let flags = cell_value(
            reader.file_of(self.row),
            TableIndex::MethodDef,
            self.row.index as int,
            2,
        ) as u32;
        let name = self.spec_name(reader);
        if flags & 0x800 != 0 {
            if has_prefix(name, "get"@) {
                MethodCategory::Get
            } else if has_prefix(name, "put"@) {
                MethodCategory::Put
            } else if has_prefix(name, "add"@) {
                MethodCategory::Add
            } else if has_prefix(name, "remove"@) {
                MethodCategory::Remove
            } else {
                MethodCategory::Normal
            }
        } else {
            MethodCategory::Normal
        }
    }

    /// See [`MethodDef::spec_category`].
    pub fn category(&self, reader: &TypeReader) -> (r: MethodCategory)
        requires
            files_wf(reader.files@),
            self.wf(*reader),
        ensures
            r == self.spec_category(*reader),
    {
        if self.flags(reader).special() {
            let name = self.name(reader);
            if starts_with_text(&name, "get") {
                MethodCategory::Get
            } else if starts_with_text(&name, "put") {
                MethodCategory::Put
            } else if starts_with_text(&name, "add") {
                MethodCategory::Add
            } else if starts_with_text(&name, "remove") {
                MethodCategory::Remove
            } else {
                MethodCategory::Normal
            }
        } else {
            MethodCategory::Normal
        }
    }

    /// The attribute rows attached to this method: exactly those whose sorted
    /// parent column codes this method.
    pub fn attributes(&self, reader: &TypeReader) -> (r: Vec<Attribute>)
        requires
            files_wf(reader.files@),
            self.wf(*reader),
        ensures
            ({
                let f = reader.file_of(self.row);
                let key = HasAttribute::MethodDef(*self).encode_spec();
                &&& forall|k: int|
                    0 <= k < r@.len() ==> (#[trigger] r@[k]).row.table_index
                        == TableIndex::CustomAttribute && r@[k].row.file_index
                        == self.row.file_index && row_valid(reader.files@, r@[k].row)
                &&& forall|k: int|
                    0 <= k < r@.len() ==> (#[trigger] r@[k]).row.index == r@[0].row.index + k
                &&& forall|k: int|
                    0 <= k < r@.len() ==> cell_value(
                        f,
                        TableIndex::CustomAttribute,
                        (#[trigger] r@[k]).row.index as int,
                        0,
                    ) == key
                &&& forall|i: int|
                    0 <= i < rows_of(f, TableIndex::CustomAttribute) && #[trigger] cell_value(
                        f,
                        TableIndex::CustomAttribute,
                        i,
                        0,
                    ) == key ==> exists|k: int| 0 <= k < r@.len() && (#[trigger] r@[k]).row.index == i
            }),
    {
        let ghost f = reader.files@[self.row.file_index as int];
        proof {
            assert(file_wf(f));
            assert forall|i: int|
                0 <= i && i + 1 < rows_of(f, TableIndex::CustomAttribute) implies #[trigger]
            cell_value(f, TableIndex::CustomAttribute, i, 0) <= cell_value(
                f,
                TableIndex::CustomAttribute,
                i + 1,
                0,
            ) by {
                assert(cell_wf(f, TableIndex::CustomAttribute, i, 0));
            };
            lemma_adjacent_sorted(f, TableIndex::CustomAttribute, 0);
            assert(table_wf(f, TableIndex::MethodDef));
        }
        let key = HasAttribute::MethodDef(*self).encode();
        let rows = reader.equal_range(self.row.file_index, TableIndex::CustomAttribute, 0, key);
        let mut out: Vec<Attribute> = Vec::new();
        let mut k: usize = 0;
        while k < rows.len()
            invariant
                0 <= k <= rows@.len(),
                out@.len() == k,
                forall|j: int| 0 <= j < k ==> (#[trigger] out@[j]).row == rows@[j],
            decreases rows@.len() - k,
        {
            out.push(Attribute { row: rows[k] });
            k += 1;
        }
        proof {
            let keyg = HasAttribute::MethodDef(*self).encode_spec();
            assert forall|i: int|
                0 <= i < rows_of(f, TableIndex::CustomAttribute) && cell_value(
                    f,
                    TableIndex::CustomAttribute,
                    i,
                    0,
                ) == keyg implies exists|k2: int|
                0 <= k2 < out@.len() && (#[trigger] out@[k2]).row.index == i by {
                let k2 = choose|k2: int| 0 <= k2 < rows@.len() && #[trigger] rows@[k2].index == i;
                assert(out@[k2].row.index == i);
            };
        }
        out
    }
}

} // verus!
