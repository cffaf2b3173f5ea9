use vstd::prelude::*;
use crate::row::{Row, TableIndex, table_index};
use crate::file::{File, file_wf, table_wf, table_of, rows_of, cell_value, col_count, col_kind,
    cell_wf, text_cell_wf, blob_cell_wf, list_cell_wf, ColKind, text_bytes_at, first_zero,
    blob_parse, list_first, list_last, lemma_cell_in_bounds, lemma_first_zero};
use crate::blob::Blob;
use crate::codes::Decode;
use crate::text::utf8_to_string;
use vstd::utf8::{valid_utf8, decode_utf8};
use crate::parsed::type_def::TypeDef;
use crate::parsed::method_def::MethodDef;
use crate::parsed::field::Field;
use crate::text::lower_of;

verus! {

/// A located row of the registry: the three kinds a namespace/name pair can
/// resolve to.
#[derive(Copy, Clone, PartialEq, Eq, Structural, Debug)]
pub enum TypeRow {
    TypeDef(TypeDef),
    MethodDef(MethodDef),
    Field(Field),
}

impl TypeRow {
    /// The underlying row coordinate, whatever the kind.
    pub open spec fn spec_row(self) -> Row {
        match self {
            TypeRow::TypeDef(type_def) => type_def.row,
            TypeRow::MethodDef(method) => method.row,
            TypeRow::Field(field) => field.row,
        }
    }

    /// Executable twin of [`TypeRow::spec_row`].
    pub fn row(&self) -> (r: Row)
        ensures
            r == self.spec_row(),
    {
        match self {
            TypeRow::TypeDef(type_def) => type_def.row,
            TypeRow::MethodDef(method) => method.row,
            TypeRow::Field(field) => field.row,
        }
    }
}

/// One named entry of a namespace: a type-level name and the row it resolves
/// to.
pub struct TypeEntry {
    pub name: String,
    pub row: TypeRow,
}

/// All entries the registry holds under one namespace.
pub struct NamespaceEntry {
    pub namespace: String,
    pub types: Vec<TypeEntry>,
}

/// A reader of type information from loaded metadata files: the files plus an
/// immutable registry mapping namespace and name to a located row.
pub struct TypeReader {
    pub files: Vec<File>,
    pub types: Vec<NamespaceEntry>,
}

/// A row coordinate points at an existing row of an existing file.
pub open spec fn row_valid(files: Seq<File>, row: Row) -> bool {
    &&& row.file_index < files.len()
    &&& row.index < rows_of(files[row.file_index as int], row.table_index)
}

/// The column values of `[lo, hi)` never decrease.
pub open spec fn sorted_between(f: File, table: TableIndex, c: int, lo: int, hi: int) -> bool {
    forall|i: int, j: int|
        lo <= i <= j < hi ==> cell_value(f, table, i, c) <= cell_value(f, table, j, c)
}

/// Adjacent order over a whole column extends to any two of its rows.
pub proof fn lemma_adjacent_sorted(f: File, table: TableIndex, c: int)
    requires
        forall|r: int|
            0 <= r && r + 1 < rows_of(f, table) ==> #[trigger] cell_value(f, table, r, c)
                <= cell_value(f, table, r + 1, c),
    ensures
        sorted_between(f, table, c, 0, rows_of(f, table)),
{
    assert forall|i: int, j: int|
        0 <= i <= j < rows_of(f, table) implies cell_value(f, table, i, c) <= cell_value(
        f,
        table,
        j,
        c,
    ) by {
        lemma_cell_le(f, table, c, i, j);
    }
}

proof fn lemma_cell_le(f: File, table: TableIndex, c: int, i: int, j: int)
    requires
        forall|r: int|
            0 <= r && r + 1 < rows_of(f, table) ==> #[trigger] cell_value(f, table, r, c)
                <= cell_value(f, table, r + 1, c),
        0 <= i <= j < rows_of(f, table),
    ensures
        cell_value(f, table, i, c) <= cell_value(f, table, j, c),
    decreases j - i,
{
    if i < j {
        lemma_cell_le(f, table, c, i, j - 1);
    }
}

/// Every loaded file is well formed.
pub open spec fn files_wf(files: Seq<File>) -> bool {
    forall|i: int| 0 <= i < files.len() ==> file_wf(#[trigger] files[i])
}

/// A located row names a row of the right table, inside the loaded files.
pub open spec fn type_row_ok(files: Seq<File>, row: TypeRow) -> bool {
    &&& row_valid(files, row.spec_row())
    &&& match row {
        TypeRow::TypeDef(d) => d.row.table_index == TableIndex::TypeDef,
        TypeRow::MethodDef(m) => m.row.table_index == TableIndex::MethodDef,
        TypeRow::Field(fd) => fd.row.table_index == TableIndex::Field,
    }
}

/// One namespace entry is sound: names are unique and every row exists.
pub open spec fn ns_entry_wf(files: Seq<File>, e: NamespaceEntry) -> bool {
    &&& forall|a: int, b: int|
        0 <= a < b < e.types@.len() ==> e.types@[a].name@ != e.types@[b].name@
    &&& forall|k: int|
        0 <= k < e.types@.len() ==> type_row_ok(files, (#[trigger] e.types@[k]).row)
}

/// The first registry namespace whose lowercase form equals `lowercase`.
pub open spec fn find_lower_in(entries: Seq<NamespaceEntry>, lowercase: Seq<char>) -> Option<
    Seq<char>,
>
    decreases entries.len(),
{
    if entries.len() == 0 {
        Option::None
    } else if lower_of(entries[0].namespace@) == lowercase {
        Option::Some(entries[0].namespace@)
    } else {
        find_lower_in(entries.drop_first(), lowercase)
    }
}

/// What a hit and a miss of [`find_lower_in`] each mean: a miss means no
/// namespace folds to the sought text, a hit names one that does.
pub proof fn lemma_find_lower_in(entries: Seq<NamespaceEntry>, lowercase: Seq<char>)
    ensures
        find_lower_in(entries, lowercase) is None <==> (forall|i: int|
            0 <= i < entries.len() ==> lower_of(#[trigger] entries[i].namespace@) != lowercase),
        find_lower_in(entries, lowercase) matches Option::Some(s) ==> lower_of(s) == lowercase,
        find_lower_in(entries, lowercase) matches Option::Some(s2) ==> exists|i: int|
            0 <= i < entries.len() && #[trigger] entries[i].namespace@ == s2,
    decreases entries.len(),
{
    if entries.len() > 0 {
        lemma_find_lower_in(entries.drop_first(), lowercase);
        if lower_of(entries[0].namespace@) != lowercase {
            assert forall|i: int|
                0 <= i < entries.len() && find_lower_in(entries, lowercase) is None implies
                lower_of(#[trigger] entries[i].namespace@) != lowercase by {
                if i > 0 {
                    assert(entries.drop_first()[i - 1] == entries[i]);
                }
            };
            if let Option::Some(s) = find_lower_in(entries.drop_first(), lowercase) {
                let i = choose|i: int|
                    0 <= i < entries.drop_first().len() && #[trigger] entries.drop_first()[
                        i
                    ].namespace@ == s;
                assert(entries[i + 1].namespace@ == s);
            }
        }
    }
}

/// The registry's namespaces are unique and every entry is sound.
pub open spec fn entries_wf(files: Seq<File>, entries: Seq<NamespaceEntry>) -> bool {
    &&& forall|i: int, j: int|
        0 <= i < j < entries.len() ==> entries[i].namespace@ != entries[j].namespace@
    &&& forall|i: int| 0 <= i < entries.len() ==> ns_entry_wf(files, #[trigger] entries[i])
}

/// The registry holds the namespace.
pub open spec fn entries_has_ns(entries: Seq<NamespaceEntry>, ns: Seq<char>) -> bool {
    exists|i: int| 0 <= i < entries.len() && (#[trigger] entries[i]).namespace@ == ns
}

/// Where the namespace's entry sits.
pub open spec fn entries_ns_index(entries: Seq<NamespaceEntry>, ns: Seq<char>) -> int {
    choose|i: int| 0 <= i < entries.len() && (#[trigger] entries[i]).namespace@ == ns
}

/// The entry holds the name.
pub open spec fn entry_has_name(e: NamespaceEntry, name: Seq<char>) -> bool {
    exists|k: int| 0 <= k < e.types@.len() && (#[trigger] e.types@[k]).name@ == name
}

/// Where the name sits inside the entry.
pub open spec fn entry_name_index(e: NamespaceEntry, name: Seq<char>) -> int {
    choose|k: int| 0 <= k < e.types@.len() && (#[trigger] e.types@[k]).name@ == name
}

/// The row a registry maps a namespace/name pair to, if any.
pub open spec fn find_type_in(
    entries: Seq<NamespaceEntry>,
    ns: Seq<char>,
    name: Seq<char>,
) -> Option<TypeRow> {
    if entries_has_ns(entries, ns) {
        let e = entries[entries_ns_index(entries, ns)];
        if entry_has_name(e, name) {
            Option::Some(e.types@[entry_name_index(e, name)].row)
        } else {
            Option::None
        }
    } else {
        Option::None
    }
}

/// With unique namespaces, any entry holding `ns` is the entry the lookup
/// uses.
pub proof fn lemma_ns_index_unique(
    files: Seq<File>,
    entries: Seq<NamespaceEntry>,
    i: int,
    ns: Seq<char>,
)
    requires
        entries_wf(files, entries),
        0 <= i < entries.len(),
        entries[i].namespace@ == ns,
    ensures
        entries_has_ns(entries, ns),
        entries_ns_index(entries, ns) == i,
{
    let j = entries_ns_index(entries, ns);
    if j != i {
        if j < i {
            assert(entries[j].namespace@ != entries[i].namespace@);
        } else {
            assert(entries[i].namespace@ != entries[j].namespace@);
        }
    }
}

/// With unique names, any slot holding `name` is the slot the lookup uses.
pub proof fn lemma_name_index_unique(
    files: Seq<File>,
    e: NamespaceEntry,
    k: int,
    name: Seq<char>,
)
    requires
        ns_entry_wf(files, e),
        0 <= k < e.types@.len(),
        e.types@[k].name@ == name,
    ensures
        entry_has_name(e, name),
        entry_name_index(e, name) == k,
{
    let j = entry_name_index(e, name);
    if j != k {
        if j < k {
            assert(e.types@[j].name@ != e.types@[k].name@);
        } else {
            assert(e.types@[k].name@ != e.types@[j].name@);
        }
    }
}

impl TypeReader {
    /// Namespaces are unique, every namespace entry is sound.
    pub open spec fn registry_wf(&self) -> bool {
        entries_wf(self.files@, self.types@)
    }

    /// The reader is sound: well-formed files and a sound registry.
    pub open spec fn wf(&self) -> bool {
        &&& files_wf(self.files@)
        &&& self.registry_wf()
    }

    /// The registry holds the namespace.
    pub open spec fn spec_has_namespace(&self, ns: Seq<char>) -> bool {
        entries_has_ns(self.types@, ns)
    }

    /// Where the namespace's entry sits.
    pub open spec fn spec_namespace_index(&self, ns: Seq<char>) -> int {
        entries_ns_index(self.types@, ns)
    }

    /// The row the registry maps a namespace/name pair to, if any.
    pub open spec fn spec_find_type(&self, ns: Seq<char>, name: Seq<char>) -> Option<TypeRow> {
        find_type_in(self.types@, ns, name)
    }

    /// The file a row lives in.
    pub open spec fn file_of(&self, row: Row) -> File {
        self.files@[row.file_index as int]
    }

    /// Read a 32-bit value from a specific row and column: the little-endian
    /// integer at the column's place inside the row.
    pub fn u32(&self, row: Row, column: u32) -> (r: u32)
        requires
            files_wf(self.files@),
            row_valid(self.files@, row),
            0 <= column < col_count(row.table_index),
        ensures
            r == cell_value(self.file_of(row), row.table_index, row.index as int, column as int),
    {
        let file = &self.files[row.file_index];
        let len = file.bytes.len();
        proof {
            lemma_cell_in_bounds(*file, row.table_index, row.index as int, column as int);
            assert(table_wf(*file, row.table_index));
        }
        let ti = table_index(row.table_index);
        let table = &file.tables[ti];
        proof {
            assert(*table == table_of(*file, row.table_index));
        }
        let col = table.columns[column as usize];
        proof {
            assert(col == table_of(*file, row.table_index).columns@[column as int]);
            assert(table.data + (row.index as int) * (table.row_size as int) + col.0 + col.1
                <= len);
        }
        let offset = table.data + row.index * table.row_size + col.0;
        let b0 = file.bytes[offset] as u32;
        if col.1 == 1 {
            b0
        } else if col.1 == 2 {
            b0 + 0x100 * (file.bytes[offset + 1] as u32)
        } else {
            b0 + 0x100 * (file.bytes[offset + 1] as u32) + 0x10000 * (file.bytes[offset
                + 2] as u32) + 0x1000000 * (file.bytes[offset + 3] as u32)
        }
    }

    /// The least position in `[first, last)` whose column value is not below
    /// `value`; `last` when all are below.
    pub fn lower_bound_of(
        &self,
        table: TableIndex,
        file: usize,
        first: usize,
        last: usize,
        column: u32,
        value: u32,
    ) -> (r: usize)
        requires
            files_wf(self.files@),
            file < self.files@.len(),
            last <= rows_of(self.files@[file as int], table),
            first <= last,
            0 <= column < col_count(table),
            sorted_between(self.files@[file as int], table, column as int, first as int, last as int),
        ensures
            first <= r <= last,
            forall|i: int|
                first <= i < r ==> cell_value(self.files@[file as int], table, i, column as int)
                    < value,
            forall|i: int|
                r <= i < last ==> cell_value(self.files@[file as int], table, i, column as int)
                    >= value,
    {
        let ghost f = self.files@[file as int];
        let mut lo: usize = first;
        let mut count: usize = last - first;
        while count > 0
            invariant
                files_wf(self.files@),
                file < self.files@.len(),
                f == self.files@[file as int],
                last <= rows_of(f, table),
                0 <= column < col_count(table),
                first <= lo,
                lo + count <= last,
                sorted_between(f, table, column as int, first as int, last as int),
                forall|i: int|
                    first <= i < lo ==> cell_value(f, table, i, column as int) < value,
                forall|i: int|
                    lo + count <= i < last ==> cell_value(f, table, i, column as int) >= value,
            decreases count,
        {
            let count2 = count / 2;
            let middle = lo + count2;
            let v = self.u32(Row::new(middle, table, file), column);
            if v < value {
                lo = middle + 1;
                count = count - (count2 + 1);
            } else {
                count = count2;
            }
        }
        lo
    }

    /// The least position in `[first, last)` whose column value is above
    /// `value`; `last` when none is.
    pub fn upper_bound_of(
        &self,
        table: TableIndex,
        file: usize,
        first: usize,
        last: usize,
        column: u32,
        value: u32,
    ) -> (r: usize)
        requires
            files_wf(self.files@),
            file < self.files@.len(),
            last <= rows_of(self.files@[file as int], table),
            first <= last,
            0 <= column < col_count(table),
            sorted_between(self.files@[file as int], table, column as int, first as int, last as int),
        ensures
            first <= r <= last,
            forall|i: int|
                first <= i < r ==> cell_value(self.files@[file as int], table, i, column as int)
                    <= value,
            forall|i: int|
                r <= i < last ==> cell_value(self.files@[file as int], table, i, column as int)
                    > value,
    {
        let ghost f = self.files@[file as int];
        let mut lo: usize = first;
        let mut count: usize = last - first;
        while count > 0
            invariant
                files_wf(self.files@),
                file < self.files@.len(),
                f == self.files@[file as int],
                last <= rows_of(f, table),
                0 <= column < col_count(table),
                first <= lo,
                lo + count <= last,
                sorted_between(f, table, column as int, first as int, last as int),
                forall|i: int|
                    first <= i < lo ==> cell_value(f, table, i, column as int) <= value,
                forall|i: int|
                    lo + count <= i < last ==> cell_value(f, table, i, column as int) > value,
            decreases count,
        {
            let count2 = count / 2;
            let middle = lo + count2;
            let v = self.u32(Row::new(middle, table, file), column);
            if value < v {
                count = count2;
            } else {
                lo = middle + 1;
                count = count - (count2 + 1);
            }
        }
        lo
    }

    /// The maximal contiguous span of `[first, last)` whose column equals
    /// `value`: everything before it is below, everything after it above, and
    /// the span is empty exactly when no row matches.
    pub fn equal_range_of(
        &self,
        table: TableIndex,
        file: usize,
        first: usize,
        last: usize,
        column: u32,
        value: u32,
    ) -> (r: (usize, usize))
        requires
            files_wf(self.files@),
            file < self.files@.len(),
            last <= rows_of(self.files@[file as int], table),
            first <= last,
            0 <= column < col_count(table),
            sorted_between(self.files@[file as int], table, column as int, first as int, last as int),
        ensures
            first <= r.0 <= r.1 <= last,
            forall|i: int|
                r.0 <= i < r.1 ==> cell_value(self.files@[file as int], table, i, column as int)
                    == value,
            forall|i: int|
                first <= i < r.0 ==> cell_value(self.files@[file as int], table, i, column as int)
                    < value,
            forall|i: int|
                r.1 <= i < last ==> cell_value(self.files@[file as int], table, i, column as int)
                    > value,
    {
        let ghost f = self.files@[file as int];
        let ghost first0 = first as int;
        let ghost last0 = last as int;
        let mut lo: usize = first;
        let mut hi: usize = last;
        let mut count: usize = last - first;
        loop
            invariant
                files_wf(self.files@),
                file < self.files@.len(),
                f == self.files@[file as int],
                last <= rows_of(f, table),
                0 <= column < col_count(table),
                first0 == first as int,
                last0 == last as int,
                first0 <= lo,
                lo + count <= last0,
                hi == last,
                sorted_between(f, table, column as int, first0, last0),
                forall|i: int|
                    first0 <= i < lo ==> cell_value(f, table, i, column as int) < value,
                forall|i: int|
                    lo + count <= i < last0 ==> cell_value(f, table, i, column as int) > value,
            decreases count,
        {
            if count == 0 {
                return (lo, lo);
            }
            let count2 = count / 2;
            let middle = lo + count2;
            let v = self.u32(Row::new(middle, table, file), column);
            if v < value {
                lo = middle + 1;
                count = count - (count2 + 1);
            } else if v > value {
                count = count2;
            } else {
                let left = self.lower_bound_of(table, file, lo, middle, column, value);
                let right = self.upper_bound_of(
                    table,
                    file,
                    middle + 1,
                    lo + count,
                    column,
                    value,
                );
                assert forall|i: int|
                    left <= i < right implies cell_value(f, table, i, column as int)
                    == value by {
                    assert(cell_value(f, table, middle as int, column as int) == value);
                };
                return (left, right);
            }
        }
    }

    /// All rows of a table whose sorted column equals `value`.
    pub fn equal_range(&self, file: usize, table: TableIndex, column: u32, value: u32) -> (r: Vec<
        Row,
    >)
        requires
            files_wf(self.files@),
            file < self.files@.len(),
            0 <= column < col_count(table),
            sorted_between(
                self.files@[file as int],
                table,
                column as int,
                0,
                rows_of(self.files@[file as int], table),
            ),
        ensures
            forall|k: int|
                0 <= k < r@.len() ==> #[trigger] r@[k] == (Row {
                    index: (r@[0].index + k) as usize,
                    table_index: table,
                    file_index: file,
                }),
            forall|k: int| 0 <= k < r@.len() ==> row_valid(self.files@, #[trigger] r@[k]),
            forall|k: int| 0 <= k < r@.len() ==> (#[trigger] r@[k]).index == r@[0].index + k,
            forall|k: int|
                0 <= k < r@.len() ==> cell_value(
                    self.files@[file as int],
                    table,
                    r@[k].index as int,
                    column as int,
                ) == value,
            forall|i: int|
                0 <= i < rows_of(self.files@[file as int], table) && cell_value(
                    self.files@[file as int],
                    table,
                    i,
                    column as int,
                ) == value ==> exists|k: int| 0 <= k < r@.len() && #[trigger] r@[k].index == i,
    {
        let ghost f = self.files@[file as int];
        let rc = self.row_count(file, table);
        let (lo, hi) = self.equal_range_of(table, file, 0, rc, column, value);
        let mut rows: Vec<Row> = Vec::new();
        let mut i: usize = lo;
        while i < hi
            invariant
                lo <= i <= hi,
                rows@.len() == i - lo,
                forall|k: int|
                    0 <= k < rows@.len() ==> #[trigger] rows@[k] == (Row {
                        index: (lo + k) as usize,
                        table_index: table,
                        file_index: file,
                    }),
            decreases hi - i,
        {
            rows.push(Row::new(i, table, file));
            i += 1;
        }
        proof {
            if rows@.len() > 0 {
                assert(rows@[0].index == lo);
            }
            assert forall|k: int|
                0 <= k < rows@.len() implies (#[trigger] rows@[k]).index == rows@[0].index
                + k by {
                assert(rows@[k] == (Row {
                    index: (lo + k) as usize,
                    table_index: table,
                    file_index: file,
                }));
                assert(lo + k < hi);
            };
            assert forall|i2: int|
                0 <= i2 < rows_of(f, table) && cell_value(f, table, i2, column as int)
                    == value implies exists|k: int|
                0 <= k < rows@.len() && #[trigger] rows@[k].index == i2 by {
                assert(lo <= i2 < hi);
                assert(rows@[i2 - lo].index == i2);
            };
        }
        rows
    }

    /// How many rows one table of one file has.
    pub fn row_count(&self, file: usize, table: TableIndex) -> (r: usize)
        requires
            files_wf(self.files@),
            file < self.files@.len(),
        ensures
            r == rows_of(self.files@[file as int], table),
    {
        proof {
            assert(table_wf(self.files@[file as int], table));
        }
        self.files[file].tables[table_index(table)].row_count
    }

    /// The row right after the last one whose sorted column is at or below
    /// `value`; its index is the table's row count when there is none.
    pub fn upper_bound(&self, file: usize, table: TableIndex, column: u32, value: u32) -> (r: Row)
        requires
            files_wf(self.files@),
            file < self.files@.len(),
            0 <= column < col_count(table),
            sorted_between(
                self.files@[file as int],
                table,
                column as int,
                0,
                rows_of(self.files@[file as int], table),
            ),
        ensures
            r.table_index == table,
            r.file_index == file,
            r.index <= rows_of(self.files@[file as int], table),
            forall|i: int|
                0 <= i < r.index ==> cell_value(self.files@[file as int], table, i, column as int)
                    <= value,
            forall|i: int|
                r.index <= i < rows_of(self.files@[file as int], table) ==> cell_value(
                    self.files@[file as int],
                    table,
                    i,
                    column as int,
                ) > value,
    {
        let rc = self.row_count(file, table);
        Row::new(self.upper_bound_of(table, file, 0, rc, column, value), table, file)
    }

    /// Read a string value from a specific row and column: the zero-terminated
    /// UTF-8 span the cell points at inside the string heap.
    pub fn str(&self, row: Row, column: u32) -> (r: String)
        requires
            files_wf(self.files@),
            row_valid(self.files@, row),
            0 <= column < col_count(row.table_index),
            col_kind(row.table_index, column as int) is Text,
        ensures
            r@ == decode_utf8(
                text_bytes_at(
                    self.file_of(row),
                    cell_value(self.file_of(row), row.table_index, row.index as int, column as int),
                ),
            ),
    {
        let ghost f = self.files@[row.file_index as int];
        let v = self.u32(row, column);
        proof {
            assert(cell_wf(f, row.table_index, row.index as int, column as int));
        }
        let file = &self.files[row.file_index];
        let len = file.bytes.len();
        let ghost off0 = f.strings + v as int;
        let ghost fz = first_zero(f.bytes@, off0);
        proof {
            lemma_first_zero(f.bytes@, off0);
            assert(fz < f.bytes@.len());
            if off0 > f.bytes@.len() {
                assert(first_zero(f.bytes@, off0) == f.bytes@.len() as int);
            }
        }
        let start = file.strings + (v as usize);
        let mut i: usize = start;
        while file.bytes[i] != 0
            invariant
                f == self.files@[row.file_index as int],
                row.file_index < self.files@.len(),
                *file == f,
                off0 == f.strings + v,
                start == off0,
                fz == first_zero(f.bytes@, off0),
                fz < f.bytes@.len(),
                len == f.bytes@.len(),
                f.bytes@[fz] == 0,
                forall|j: int| off0 <= j < fz ==> f.bytes@[j] != 0,
                start <= i <= fz,
            decreases fz - i,
        {
            i += 1;
        }
        proof {
            if i < fz {
                assert(f.bytes@[i as int] != 0);
            }
            assert(i == fz);
        }
        let mut buf: Vec<u8> = Vec::new();
        let mut j: usize = start;
        while j < i
            invariant
                f == self.files@[row.file_index as int],
                row.file_index < self.files@.len(),
                *file == f,
                start <= j <= i,
                i < f.bytes@.len(),
                buf@ == f.bytes@.subrange(start as int, j as int),
            decreases i - j,
        {
            buf.push(file.bytes[j]);
            j += 1;
            proof {
                assert(buf@ =~= f.bytes@.subrange(start as int, j as int));
            }
        }
        proof {
            assert(buf@ == text_bytes_at(f, v as int));
            assert(valid_utf8(buf@));
        }
        utf8_to_string(&buf).unwrap()
    }

    /// Read a blob handle from a specific row and column, decoding the
    /// compressed length prefix the cell points at inside the blob heap.
    pub fn blob(&self, row: Row, column: u32) -> (r: Blob)
        requires
            files_wf(self.files@),
            row_valid(self.files@, row),
            0 <= column < col_count(row.table_index),
            col_kind(row.table_index, column as int) is Blob,
        ensures
            ({
                let f = self.file_of(row);
                let v = cell_value(f, row.table_index, row.index as int, column as int);
                &&& blob_parse(f.bytes@, f.blobs + v) == Option::Some(
                    (r.offset as int, r.size as int),
                )
                &&& r.offset + r.size <= f.bytes@.len()
                &&& r.file_index == row.file_index
            }),
    {
        let ghost f = self.files@[row.file_index as int];
        let v = self.u32(row, column);
        proof {
            assert(cell_wf(f, row.table_index, row.index as int, column as int));
        }
        let file = &self.files[row.file_index];
        let len = file.bytes.len();
        let off = file.blobs + (v as usize);
        let b0 = file.bytes[off];
        if b0 < 0x80 {
            Blob { file_index: row.file_index, offset: off + 1, size: b0 as usize }
        } else if b0 < 0xC0 {
            let size = ((b0 - 0x80) as usize) * 0x100 + (file.bytes[off + 1] as usize);
            Blob { file_index: row.file_index, offset: off + 2, size }
        } else {
            proof {
                assert(b0 < 0xE0);
            }
            let size = ((b0 - 0xC0) as usize) * 0x1000000 + (file.bytes[off + 1] as usize)
                * 0x10000 + (file.bytes[off + 2] as usize) * 0x100 + (file.bytes[off
                + 3] as usize);
            Blob { file_index: row.file_index, offset: off + 4, size }
        }
    }

    /// The rows of the range a row owns in a target table: from this row's
    /// start cell up to the next row's, or to the target table's end for the
    /// file's last row.
    pub fn list(&self, row: Row, table: TableIndex, column: u32) -> (r: Vec<Row>)
        requires
            files_wf(self.files@),
            row_valid(self.files@, row),
            0 <= column < col_count(row.table_index),
            col_kind(row.table_index, column as int) == ColKind::List(table),
        ensures
            ({
                let f = self.file_of(row);
                let first = list_first(f, row.table_index, row.index as int, column as int);
                let last = list_last(f, row.table_index, row.index as int, column as int, table);
                &&& r@.len() == last - first
                &&& forall|k: int|
                    0 <= k < r@.len() ==> #[trigger] r@[k] == (Row {
                        index: (first + k) as usize,
                        table_index: table,
                        file_index: row.file_index,
                    })
                &&& forall|k: int| 0 <= k < r@.len() ==> row_valid(self.files@, #[trigger] r@[k])
            }),
    {
        let ghost f = self.files@[row.file_index as int];
        let v = self.u32(row, column);
        proof {
            assert(cell_wf(f, row.table_index, row.index as int, column as int));
        }
        let first = (v - 1) as usize;
        let rc_own = self.row_count(row.file_index, row.table_index);
        let last: usize;
        if row.index + 1 < rc_own {
            let v2 = self.u32(row.next(), column);
            proof {
                assert(cell_wf(f, row.table_index, row.index + 1 as int, column as int));
            }
            last = (v2 - 1) as usize;
        } else {
            last = self.row_count(row.file_index, table);
        }
        let ghost lastg = list_last(f, row.table_index, row.index as int, column as int, table);
        proof {
            assert(last == lastg);
            assert(first <= last);
        }
        let mut rows: Vec<Row> = Vec::new();
        let mut i: usize = first;
        while i < last
            invariant
                first <= i <= last,
                last <= rows_of(f, table),
                f == self.files@[row.file_index as int],
                row.file_index < self.files@.len(),
                rows@.len() == i - first,
                forall|k: int|
                    0 <= k < rows@.len() ==> #[trigger] rows@[k] == (Row {
                        index: (first + k) as usize,
                        table_index: table,
                        file_index: row.file_index,
                    }),
            decreases last - i,
        {
            rows.push(Row::new(i, table, row.file_index));
            i += 1;
        }
        rows
    }

    /// Read a coded index from a specific row and column, decoded against the
    /// row's own file.
    pub fn decode<T: Decode>(&self, row: Row, column: u32) -> (r: Option<T>)
        requires
            files_wf(self.files@),
            row_valid(self.files@, row),
            0 <= column < col_count(row.table_index),
        ensures
            r == T::decode_spec(
                cell_value(self.file_of(row), row.table_index, row.index as int, column as int) as int,
                row.file_index as int,
                self.file_of(row),
            ),
    {
        let v = self.u32(row, column);
        T::decode(v, row.file_index, &self.files[row.file_index])
    }

    /// The registry namespace, in its canonical spelling, whose lowercase form
    /// equals the given text; the first such entry in registry order.
    pub fn find_lowercase_namespace(&self, lowercase: &String) -> (r: Option<String>)
        ensures
            ({
                let found = find_lower_in(self.types@, lowercase@);
                match r {
                    Option::Some(s) => found == Option::Some(s@),
                    Option::None => found is None,
                }
            }),
    {
        let n = self.types.len();
        let mut i: usize = 0;
        proof {
            assert(self.types@.skip(0) =~= self.types@);
        }
        while i < n
            invariant
                n == self.types@.len(),
                0 <= i <= n,
                find_lower_in(self.types@, lowercase@) == find_lower_in(
                    self.types@.skip(i as int),
                    lowercase@,
                ),
            decreases n - i,
        {
            let folded = crate::text::to_lowercase(&self.types[i].namespace);
            proof {
                assert(self.types@.skip(i as int)[0] == self.types@[i as int]);
                assert(self.types@.skip(i as int).drop_first() =~= self.types@.skip(i + 1));
            }
            if folded == *lowercase {
                proof {
                    assert(find_lower_in(self.types@.skip(i as int), lowercase@)
                        == Option::Some(self.types@[i as int].namespace@));
                }
                return Option::Some(self.types[i].namespace.clone());
            }
            i += 1;
        }
        proof {
            assert(self.types@.skip(n as int).len() == 0);
        }
        Option::None
    }

    /// The row the registry maps a namespace/name pair to, if any.
    pub fn find_type(&self, namespace: &String, name: &String) -> (r: Option<TypeRow>)
        requires
            self.wf(),
        ensures
            r == self.spec_find_type(namespace@, name@),
    {
        let n = self.types.len();
        let mut i: usize = 0;
        while i < n
            invariant
                self.wf(),
                n == self.types@.len(),
                0 <= i <= n,
                forall|j: int| 0 <= j < i ==> self.types@[j].namespace@ != namespace@,
            decreases n - i,
        {
            if self.types[i].namespace == *namespace {
                proof {
                    assert(self.spec_has_namespace(namespace@));
                    let k = self.spec_namespace_index(namespace@);
                    if k != i {
                        assert(self.types@[k].namespace@ != self.types@[i as int].namespace@);
                    }
                }
                let e = &self.types[i];
                let m = e.types.len();
                let mut a: usize = 0;
                while a < m
                    invariant
                        self.wf(),
                        i < self.types@.len(),
                        *e == self.types@[i as int],
                        self.types@[i as int].namespace@ == namespace@,
                        self.spec_has_namespace(namespace@),
                        self.spec_namespace_index(namespace@) == i,
                        m == e.types@.len(),
                        0 <= a <= m,
                        forall|b: int| 0 <= b < a ==> e.types@[b].name@ != name@,
                    decreases m - a,
                {
                    if e.types[a].name == *name {
                        proof {
                            assert(ns_entry_wf(self.files@, self.types@[i as int]));
                            let k = choose|k: int|
                                0 <= k < e.types@.len() && (#[trigger] e.types@[k]).name@
                                    == name@;
                            if k != a {
                                assert(e.types@[k].name@ != e.types@[a as int].name@);
                            }
                        }
                        return Option::Some(e.types[a].row);
                    }
                    a += 1;
                }
                proof {
                    if exists|k: int|
                        0 <= k < e.types@.len() && (#[trigger] e.types@[k]).name@ == name@ {
                        let k = choose|k: int|
                            0 <= k < e.types@.len() && (#[trigger] e.types@[k]).name@ == name@;
                        assert(e.types@[k].name@ != name@);
                    }
                }
                return Option::None;
            }
            i += 1;
        }
        proof {
            if self.spec_has_namespace(namespace@) {
                let k = self.spec_namespace_index(namespace@);
                assert(self.types@[k].namespace@ == namespace@);
            }
        }
        Option::None
    }

    /// The type definition the registry maps a namespace/name pair to; the
    /// pair must resolve, and resolve to a type definition.
    pub fn expect_type_def(&self, namespace: &String, name: &String) -> (r: TypeDef)
        requires
            self.wf(),
            self.spec_find_type(namespace@, name@) matches Option::Some(TypeRow::TypeDef(_)),
        ensures
            self.spec_find_type(namespace@, name@) == Option::Some(TypeRow::TypeDef(r)),
    {
        match self.find_type(namespace, name) {
            Option::Some(TypeRow::TypeDef(def)) => def,
            _ => {
                proof {
                    assert(false);
                }
                TypeDef { row: Row { index: 0, table_index: TableIndex::TypeDef, file_index: 0 } }
            },
        }
    }
}

} // verus!
