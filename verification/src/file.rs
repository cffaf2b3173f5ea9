use vstd::prelude::*;
use vstd::utf8::{valid_utf8, decode_utf8};
use crate::row::{TableIndex, TABLE_COUNT, table_num, table_index};

verus! {

/// The layout of one table inside a loaded file: where its rows start, how
/// many there are, how wide each row is, and where each column sits inside a
/// row together with that column's byte width.
pub struct TableData {
    pub data: usize,
    pub row_count: usize,
    pub row_size: usize,
    pub columns: Vec<(usize, usize)>,
}

/// An immutable loaded metadata image: the raw bytes, the base offsets of the
/// string, blob and GUID heaps, and the directory of table layouts.
pub struct File {
    pub bytes: Vec<u8>,
    pub strings: usize,
    pub blobs: usize,
    pub guids: usize,
    pub tables: Vec<TableData>,
}

/// What a column holds; decides which well-formedness checks apply to it.
pub enum ColKind {
    /// A plain fixed-width integer.
    Fixed,
    /// An offset into the string heap.
    Text,
    /// An offset into the blob heap.
    Blob,
    /// A one-based start index of an owned range in the given target table.
    List(TableIndex),
    /// A foreign key the table is sorted on.
    Sorted,
}

/// How many columns each table has.
pub open spec fn col_count(table: TableIndex) -> int {
    match table {
        TableIndex::Constant => 3,
        TableIndex::CustomAttribute => 3,
        TableIndex::Field => 3,
        TableIndex::GenericParam => 4,
        TableIndex::InterfaceImpl => 2,
        TableIndex::MemberRef => 3,
        TableIndex::MethodDef => 6,
        TableIndex::Param => 3,
        TableIndex::TypeDef => 6,
        TableIndex::TypeRef => 3,
        TableIndex::TypeSpec => 1,
        TableIndex::ModuleRef => 1,
    }
}

/// Executable twin of [`col_count`].
pub fn col_count_of(table: TableIndex) -> (r: usize)
    ensures
        r == col_count(table),
{
    match table {
        TableIndex::Constant => 3,
        TableIndex::CustomAttribute => 3,
        TableIndex::Field => 3,
        TableIndex::GenericParam => 4,
        TableIndex::InterfaceImpl => 2,
        TableIndex::MemberRef => 3,
        TableIndex::MethodDef => 6,
        TableIndex::Param => 3,
        TableIndex::TypeDef => 6,
        TableIndex::TypeRef => 3,
        TableIndex::TypeSpec => 1,
        TableIndex::ModuleRef => 1,
    }
}

/// The fixed, format-defined meaning of each column of each table.
pub open spec fn col_kind(table: TableIndex, c: int) -> ColKind {
    match table {
        TableIndex::Constant => if c == 1 {
            ColKind::Sorted
        } else if c == 2 {
            ColKind::Blob
        } else {
            ColKind::Fixed
        },
        TableIndex::CustomAttribute => if c == 0 {
            ColKind::Sorted
        } else if c == 2 {
            ColKind::Blob
        } else {
            ColKind::Fixed
        },
        TableIndex::Field => if c == 1 {
            ColKind::Text
        } else if c == 2 {
            ColKind::Blob
        } else {
            ColKind::Fixed
        },
        TableIndex::GenericParam => if c == 2 {
            ColKind::Sorted
        } else if c == 3 {
            ColKind::Text
        } else {
            ColKind::Fixed
        },
        TableIndex::InterfaceImpl => if c == 0 {
            ColKind::Sorted
        } else {
            ColKind::Fixed
        },
        TableIndex::MemberRef => if c == 1 {
            ColKind::Text
        } else if c == 2 {
            ColKind::Blob
        } else {
            ColKind::Fixed
        },
        TableIndex::MethodDef => if c == 3 {
            ColKind::Text
        } else if c == 4 {
            ColKind::Blob
        } else if c == 5 {
            ColKind::List(TableIndex::Param)
        } else {
            ColKind::Fixed
        },
        TableIndex::Param => if c == 2 {
            ColKind::Text
        } else {
            ColKind::Fixed
        },
        TableIndex::TypeDef => if c == 1 || c == 2 {
            ColKind::Text
        } else if c == 4 {
            ColKind::List(TableIndex::Field)
        } else if c == 5 {
            ColKind::List(TableIndex::MethodDef)
        } else {
            ColKind::Fixed
        },
        TableIndex::TypeRef => if c == 1 || c == 2 {
            ColKind::Text
        } else {
            ColKind::Fixed
        },
        TableIndex::TypeSpec => ColKind::Blob,
        TableIndex::ModuleRef => ColKind::Text,
    }
}

/// Executable twin of [`col_kind`].
pub fn col_kind_of(table: TableIndex, c: usize) -> (r: ColKind)
    ensures
        r == col_kind(table, c as int),
{
    match table {
        TableIndex::Constant => if c == 1 {
            ColKind::Sorted
        } else if c == 2 {
            ColKind::Blob
        } else {
            ColKind::Fixed
        },
        TableIndex::CustomAttribute => if c == 0 {
            ColKind::Sorted
        } else if c == 2 {
            ColKind::Blob
        } else {
            ColKind::Fixed
        },
        TableIndex::Field => if c == 1 {
            ColKind::Text
        } else if c == 2 {
            ColKind::Blob
        } else {
            ColKind::Fixed
        },
        TableIndex::GenericParam => if c == 2 {
            ColKind::Sorted
        } else if c == 3 {
            ColKind::Text
        } else {
            ColKind::Fixed
        },
        TableIndex::InterfaceImpl => if c == 0 {
            ColKind::Sorted
        } else {
            ColKind::Fixed
        },
        TableIndex::MemberRef => if c == 1 {
            ColKind::Text
        } else if c == 2 {
            ColKind::Blob
        } else {
            ColKind::Fixed
        },
        TableIndex::MethodDef => if c == 3 {
            ColKind::Text
        } else if c == 4 {
            ColKind::Blob
        } else if c == 5 {
            ColKind::List(TableIndex::Param)
        } else {
            ColKind::Fixed
        },
        TableIndex::Param => if c == 2 {
            ColKind::Text
        } else {
            ColKind::Fixed
        },
        TableIndex::TypeDef => if c == 1 || c == 2 {
            ColKind::Text
        } else if c == 4 {
            ColKind::List(TableIndex::Field)
        } else if c == 5 {
            ColKind::List(TableIndex::MethodDef)
        } else {
            ColKind::Fixed
        },
        TableIndex::TypeRef => if c == 1 || c == 2 {
            ColKind::Text
        } else {
            ColKind::Fixed
        },
        TableIndex::TypeSpec => ColKind::Blob,
        TableIndex::ModuleRef => ColKind::Text,
    }
}

/// The layout of a table inside a file.
pub open spec fn table_of(f: File, table: TableIndex) -> TableData {
    f.tables@[table_num(table)]
}

/// The number of rows a table has.
pub open spec fn rows_of(f: File, table: TableIndex) -> int {
    table_of(f, table).row_count as int
}

/// The little-endian integer held by `size` bytes starting at `off`.
pub open spec fn le_value(bytes: Seq<u8>, off: int, size: int) -> int {
    if size == 2 {
        bytes[off] + 0x100 * bytes[off + 1]
    } else if size == 4 {
        bytes[off] + 0x100 * bytes[off + 1] + 0x10000 * bytes[off + 2] + 0x1000000 * bytes[off
            + 3]
    } else {
        bytes[off] as int
    }
}

/// The decoded value of one column of one row: the little-endian integer at
/// table base + row index * row width + the column's own offset.
pub open spec fn cell_value(f: File, table: TableIndex, r: int, c: int) -> int {
    let tab = table_of(f, table);
    le_value(
        f.bytes@,
        tab.data + r * tab.row_size + tab.columns@[c].0,
        tab.columns@[c].1 as int,
    )
}

/// The position of the first zero byte at or after `off`; the sequence length
/// when there is none.
pub open spec fn first_zero(bytes: Seq<u8>, off: int) -> int
    decreases bytes.len() - off,
{
    if off < 0 || off >= bytes.len() {
        bytes.len() as int
    } else if bytes[off] == 0 {
        off
    } else {
        first_zero(bytes, off + 1)
    }
}

/// The bytes of the zero-terminated string that starts at heap offset `v`.
pub open spec fn text_bytes_at(f: File, v: int) -> Seq<u8> {
    f.bytes@.subrange(f.strings + v, first_zero(f.bytes@, f.strings + v))
}

/// Decodes a blob's compressed length prefix: the content offset and length,
/// or `None` when the prefix is invalid or runs past the end of the bytes.
pub open spec fn blob_parse(bytes: Seq<u8>, off: int) -> Option<(int, int)> {
    if !(0 <= off < bytes.len()) {
        None
    } else {
        let b0 = bytes[off] as int;
        if b0 < 0x80 {
            Some((off + 1, b0))
        } else if b0 < 0xC0 {
            if off + 1 < bytes.len() {
                Some((off + 2, (b0 - 0x80) * 0x100 + bytes[off + 1]))
            } else {
                None
            }
        } else if b0 < 0xE0 {
            if off + 3 < bytes.len() {
                Some(
                    (
                        off + 4,
                        (b0 - 0xC0) * 0x1000000 + bytes[off + 1] * 0x10000 + bytes[off + 2] * 0x100
                            + bytes[off + 3],
                    ),
                )
            } else {
                None
            }
        } else {
            None
        }
    }
}

/// A string-heap cell is sound: the terminator exists and the span before it
/// is valid UTF-8.
pub open spec fn text_cell_wf(f: File, v: int) -> bool {
    &&& first_zero(f.bytes@, f.strings + v) < f.bytes@.len()
    &&& valid_utf8(text_bytes_at(f, v))
}

/// A blob-heap cell is sound: the length prefix decodes and the content lies
/// inside the file.
pub open spec fn blob_cell_wf(f: File, v: int) -> bool {
    match blob_parse(f.bytes@, f.blobs + v) {
        Option::Some(sn) => sn.0 + sn.1 <= f.bytes@.len(),
        Option::None => false,
    }
}

/// A list cell is sound: a one-based start index into the target table, no
/// later than one past its end, never decreasing from row to row, and starting
/// at the very beginning for the first row.
pub open spec fn list_cell_wf(f: File, table: TableIndex, r: int, c: int, target: TableIndex) -> bool {
    let v = cell_value(f, table, r, c);
    &&& 1 <= v <= rows_of(f, target) + 1
    &&& r + 1 < rows_of(f, table) ==> v <= cell_value(f, table, r + 1, c)
    &&& r == 0 ==> v == 1
}

/// One cell satisfies whatever its column's kind demands.
pub open spec fn cell_wf(f: File, table: TableIndex, r: int, c: int) -> bool {
    match col_kind(table, c) {
        ColKind::Fixed => true,
        ColKind::Text => text_cell_wf(f, cell_value(f, table, r, c)),
        ColKind::Blob => blob_cell_wf(f, cell_value(f, table, r, c)),
        ColKind::List(target) => list_cell_wf(f, table, r, c, target),
        ColKind::Sorted => r + 1 < rows_of(f, table) ==> cell_value(f, table, r, c) <= cell_value(
            f,
            table,
            r + 1,
            c,
        ),
    }
}

/// A table's layout is sound: the right number of columns, every column 1, 2
/// or 4 bytes wide and inside the row, and all rows inside the file.
pub open spec fn table_wf(f: File, table: TableIndex) -> bool {
    let tab = table_of(f, table);
    &&& tab.columns@.len() == col_count(table)
    &&& tab.row_count < 0x1000000
    &&& tab.data + tab.row_count * tab.row_size <= f.bytes@.len()
    &&& forall|c: int|
        0 <= c < col_count(table) ==> {
            let col = #[trigger] tab.columns@[c];
            &&& (col.1 == 1 || col.1 == 2 || col.1 == 4)
            &&& col.0 + col.1 <= tab.row_size
        }
}

/// The whole file is sound: the table directory is complete, every table's
/// layout is sound, and every cell of every row satisfies its column's kind.
pub open spec fn file_wf(f: File) -> bool {
    &&& f.tables@.len() == TABLE_COUNT
    &&& forall|table: TableIndex| #[trigger] table_wf(f, table)
    &&& forall|table: TableIndex, r: int, c: int|
        0 <= r < rows_of(f, table) && 0 <= c < col_count(table) ==> #[trigger] cell_wf(
            f,
            table,
            r,
            c,
        )
    &&& rows_of(f, TableIndex::MethodDef) > 0 ==> rows_of(f, TableIndex::TypeDef) > 0
}

/// Where a row's owned range in the target table begins (zero-based).
pub open spec fn list_first(f: File, table: TableIndex, r: int, c: int) -> int {
    cell_value(f, table, r, c) - 1
}

/// Where a row's owned range in the target table ends (exclusive): the next
/// row's start, or the whole target table for the last row.
pub open spec fn list_last(f: File, table: TableIndex, r: int, c: int, target: TableIndex) -> int {
    if r + 1 < rows_of(f, table) {
        cell_value(f, table, r + 1, c) - 1
    } else {
        rows_of(f, target)
    }
}

/// What [`first_zero`] finds: the position is past `off`, inside the bytes
/// when a zero exists, and nothing before it is zero.
pub proof fn lemma_first_zero(bytes: Seq<u8>, off: int)
    requires
        0 <= off,
    ensures
        ({
            let fz = first_zero(bytes, off);
            &&& fz <= bytes.len()
            &&& off <= bytes.len() ==> off <= fz
            &&& fz < bytes.len() ==> bytes[fz] == 0
            &&& forall|i: int| off <= i < fz ==> bytes[i] != 0
        }),
    decreases bytes.len() - off,
{
    if off < bytes.len() && bytes[off] != 0 {
        lemma_first_zero(bytes, off + 1);
    }
}

/// The characters a string-heap column of a row decodes to.
pub open spec fn text_cell_chars(f: File, table: TableIndex, r: int, c: int) -> Seq<char> {
    decode_utf8(text_bytes_at(f, cell_value(f, table, r, c)))
}

/// The byte span of one cell lies inside the file.
pub proof fn lemma_cell_in_bounds(f: File, table: TableIndex, r: int, c: int)
    requires
        table_wf(f, table),
        0 <= r < rows_of(f, table),
        0 <= c < col_count(table),
    ensures
        ({
            let tab = table_of(f, table);
            tab.data + r * tab.row_size + tab.columns@[c].0 + tab.columns@[c].1 <= f.bytes@.len()
        }),
{
    let tab = table_of(f, table);
    assert((r + 1) * tab.row_size <= tab.row_count * tab.row_size) by (nonlinear_arith)
        requires
            r + 1 <= tab.row_count,
            tab.row_size >= 0,
    ;
    assert(r * tab.row_size + tab.row_size == (r + 1) * tab.row_size) by (nonlinear_arith);
}

/// Reads the decoded value of one column of one row straight from a file.
pub fn read_cell(f: &File, table: TableIndex, r: usize, c: usize) -> (v: u32)
    requires
        f.tables@.len() == TABLE_COUNT,
        table_wf(*f, table),
        r < rows_of(*f, table),
        c < col_count(table),
    ensures
        v == cell_value(*f, table, r as int, c as int),
{
    proof {
        lemma_cell_in_bounds(*f, table, r as int, c as int);
    }
    let len = f.bytes.len();
    let ti = table_index(table);
    let tab = &f.tables[ti];
    proof {
        assert(*tab == table_of(*f, table));
    }
    let col = tab.columns[c];
    proof {
        assert(col == table_of(*f, table).columns@[c as int]);
        assert(tab.data + (r as int) * (tab.row_size as int) + col.0 + col.1 <= len);
    }
    let offset = tab.data + r * tab.row_size + col.0;
    let b0 = f.bytes[offset] as u32;
    if col.1 == 1 {
        b0
    } else if col.1 == 2 {
        b0 + 0x100 * (f.bytes[offset + 1] as u32)
    } else {
        b0 + 0x100 * (f.bytes[offset + 1] as u32) + 0x10000 * (f.bytes[offset + 2] as u32)
            + 0x1000000 * (f.bytes[offset + 3] as u32)
    }
}

/// Whether a string-heap cell is sound: terminated and valid UTF-8.
#[verifier::loop_isolation(false)]
fn check_text(f: &File, v: u32) -> (r: bool)
    ensures
        r == text_cell_wf(*f, v as int),
{
    let len = f.bytes.len();
    let start = match f.strings.checked_add(v as usize) {
        Option::Some(s) => s,
        Option::None => {
            proof {
                assert(first_zero(f.bytes@, f.strings + v as int) == f.bytes@.len() as int);
            }
            return false;
        },
    };
    if start >= len {
        proof {
            assert(first_zero(f.bytes@, f.strings + v as int) == f.bytes@.len() as int);
        }
        return false;
    }
    let ghost fz = first_zero(f.bytes@, f.strings + v as int);
    proof {
        lemma_first_zero(f.bytes@, f.strings + v as int);
    }
    let mut i: usize = start;
    let mut buf: Vec<u8> = Vec::new();
    while i < len && f.bytes[i] != 0
        invariant
            start <= i <= len,
            i <= fz,
            buf@ == f.bytes@.subrange(start as int, i as int),
        decreases len - i,
    {
        buf.push(f.bytes[i]);
        i += 1;
        proof {
            assert(buf@ =~= f.bytes@.subrange(start as int, i as int));
        }
    }
    if i == len {
        proof {
            if fz < len {
                assert(f.bytes@[fz] == 0);
            }
            assert(fz == len);
        }
        return false;
    }
    proof {
        if i < fz {
            assert(f.bytes@[i as int] != 0);
        }
        assert(i == fz);
        assert(buf@ == text_bytes_at(*f, v as int));
    }
    crate::text::utf8_to_string(&buf).is_some()
}

/// Whether a blob-heap cell is sound: prefix readable and content inside the
/// file.
fn check_blob(f: &File, v: u32) -> (r: bool)
    ensures
        r == blob_cell_wf(*f, v as int),
{
    let len = f.bytes.len();
    let off = match f.blobs.checked_add(v as usize) {
        Option::Some(o) => o,
        Option::None => {
            return false;
        },
    };
    if off >= len {
        return false;
    }
    let b0 = f.bytes[off];
    if b0 < 0x80 {
        len - (off + 1) >= b0 as usize
    } else if b0 < 0xC0 {
        if len - off > 1 {
            let size = ((b0 - 0x80) as usize) * 0x100 + (f.bytes[off + 1] as usize);
            len - (off + 2) >= size
        } else {
            false
        }
    } else if b0 < 0xE0 {
        if len - off > 3 {
            let size = ((b0 - 0xC0) as usize) * 0x1000000 + (f.bytes[off + 1] as usize) * 0x10000
                + (f.bytes[off + 2] as usize) * 0x100 + (f.bytes[off + 3] as usize);
            len - (off + 4) >= size
        } else {
            false
        }
    } else {
        false
    }
}

/// The executable twin of [`table_num`]'s inverse.
pub fn table_from_num(i: usize) -> (r: TableIndex)
    requires
        i < TABLE_COUNT,
    ensures
        table_num(r) == i,
{
    if i == 0 {
        TableIndex::Constant
    } else if i == 1 {
        TableIndex::CustomAttribute
    } else if i == 2 {
        TableIndex::Field
    } else if i == 3 {
        TableIndex::GenericParam
    } else if i == 4 {
        TableIndex::InterfaceImpl
    } else if i == 5 {
        TableIndex::MemberRef
    } else if i == 6 {
        TableIndex::MethodDef
    } else if i == 7 {
        TableIndex::Param
    } else if i == 8 {
        TableIndex::TypeDef
    } else if i == 9 {
        TableIndex::TypeRef
    } else if i == 10 {
        TableIndex::TypeSpec
    } else {
        TableIndex::ModuleRef
    }
}

/// Whether one table's layout is sound.
#[verifier::loop_isolation(false)]
fn check_table_layout(f: &File, table: TableIndex) -> (r: bool)
    requires
        f.tables@.len() == TABLE_COUNT,
    ensures
        r == table_wf(*f, table),
{
    let len = f.bytes.len();
    let ti = table_index(table);
    let tab = &f.tables[ti];
    proof {
        assert(*tab == table_of(*f, table));
    }
    if tab.columns.len() != col_count_of(table) {
        return false;
    }
    if tab.row_count >= 0x1000000 {
        return false;
    }
    let prod = match tab.row_count.checked_mul(tab.row_size) {
        Option::Some(p) => p,
        Option::None => {
            return false;
        },
    };
    let total = match tab.data.checked_add(prod) {
        Option::Some(t) => t,
        Option::None => {
            return false;
        },
    };
    if total > len {
        return false;
    }
    let n = tab.columns.len();
    let mut c: usize = 0;
    while c < n
        invariant
            0 <= c <= n,
            forall|c2: int|
                0 <= c2 < c ==> {
                    let col = #[trigger] table_of(*f, table).columns@[c2];
                    &&& (col.1 == 1 || col.1 == 2 || col.1 == 4)
                    &&& col.0 + col.1 <= table_of(*f, table).row_size
                },
        decreases n - c,
    {
        let col = tab.columns[c];
        proof {
            assert(col == table_of(*f, table).columns@[c as int]);
        }
        if !(col.1 == 1 || col.1 == 2 || col.1 == 4) {
            return false;
        }
        if col.1 > tab.row_size || col.0 > tab.row_size - col.1 {
            return false;
        }
        c += 1;
    }
    true
}

/// Whether every cell of one table satisfies its column's kind.
#[verifier::loop_isolation(false)]
fn check_cells(f: &File, table: TableIndex) -> (r: bool)
    requires
        f.tables@.len() == TABLE_COUNT,
        forall|t: TableIndex| #[trigger] table_wf(*f, t),
    ensures
        r == (forall|r2: int, c: int|
            0 <= r2 < rows_of(*f, table) && 0 <= c < col_count(table) ==> #[trigger] cell_wf(
                *f,
                table,
                r2,
                c,
            )),
{
    proof {
        assert(table_wf(*f, table));
    }
    let ti = table_index(table);
    let rc = f.tables[ti].row_count;
    let cols = col_count_of(table);
    let mut r2: usize = 0;
    while r2 < rc
        invariant
            0 <= r2 <= rc,
            forall|a: int, c: int|
                0 <= a < r2 && 0 <= c < col_count(table) ==> #[trigger] cell_wf(*f, table, a, c),
        decreases rc - r2,
    {
        let mut c: usize = 0;
        while c < cols
            invariant
                0 <= c <= cols,
                r2 < rc,
                forall|a: int, c2: int|
                    0 <= a < r2 && 0 <= c2 < col_count(table) ==> #[trigger] cell_wf(
                        *f,
                        table,
                        a,
                        c2,
                    ),
                forall|c2: int| 0 <= c2 < c ==> #[trigger] cell_wf(*f, table, r2 as int, c2),
            decreases cols - c,
        {
            let v = read_cell(f, table, r2, c);
            let ok: bool = match col_kind_of(table, c) {
                ColKind::Fixed => true,
                ColKind::Text => check_text(f, v),
                ColKind::Blob => check_blob(f, v),
                ColKind::List(target) => {
                    let rctar = f.tables[table_index(target)].row_count;
                    proof {
                        assert(table_wf(*f, target));
                    }
                    let mut good = (v as usize) >= 1 && (v as usize) <= rctar + 1;
                    if good && r2 + 1 < rc {
                        let v2 = read_cell(f, table, r2 + 1, c);
                        good = v <= v2;
                    }
                    if good && r2 == 0 {
                        good = v == 1;
                    }
                    good
                },
                ColKind::Sorted => {
                    if r2 + 1 < rc {
                        let v2 = read_cell(f, table, r2 + 1, c);
                        v <= v2
                    } else {
                        true
                    }
                },
            };
            if !ok {
                proof {
                    assert(!cell_wf(*f, table, r2 as int, c as int));
                }
                return false;
            }
            proof {
                assert(cell_wf(*f, table, r2 as int, c as int));
            }
            c += 1;
        }
        r2 += 1;
    }
    true
}

impl File {
    /// Builds a loaded metadata image from its raw parts, validating the
    /// whole layout: table directory, per-column widths, heap references,
    /// owned ranges and sort order. Anything malformed yields `None`; the
    /// input is trusted-format, so there is no degraded reading.
    #[verifier::loop_isolation(false)]
    pub fn new(
        bytes: Vec<u8>,
        strings: usize,
        blobs: usize,
        guids: usize,
        tables: Vec<TableData>,
    ) -> (r: Option<File>)
        ensures
            ({
                let built = File { bytes, strings, blobs, guids, tables };
                &&& r is Some <==> file_wf(built)
                &&& r matches Option::Some(f) ==> f == built
            }),
    {
        let f = File { bytes, strings, blobs, guids, tables };
        let ghost built = f;
        if f.tables.len() != TABLE_COUNT {
            proof {
                assert(!file_wf(built));
            }
            return Option::None;
        }
        let mut i: usize = 0;
        while i < TABLE_COUNT
            invariant
                0 <= i <= TABLE_COUNT,
                f.tables@.len() == TABLE_COUNT,
                forall|t: TableIndex| table_num(t) < i ==> #[trigger] table_wf(f, t),
            decreases TABLE_COUNT - i,
        {
            let t = table_from_num(i);
            if !check_table_layout(&f, t) {
                proof {
                    assert(!table_wf(built, t));
                    assert(!file_wf(built));
                }
                return Option::None;
            }
            i += 1;
        }
        proof {
            assert forall|t: TableIndex| #[trigger] table_wf(f, t) by {
                assert(table_num(t) < TABLE_COUNT);
            };
        }
        let mut i2: usize = 0;
        while i2 < TABLE_COUNT
            invariant
                0 <= i2 <= TABLE_COUNT,
                f.tables@.len() == TABLE_COUNT,
                forall|t: TableIndex| #[trigger] table_wf(f, t),
                forall|t: TableIndex, r2: int, c: int|
                    table_num(t) < i2 && 0 <= r2 < rows_of(f, t) && 0 <= c < col_count(t)
                        ==> #[trigger] cell_wf(f, t, r2, c),
            decreases TABLE_COUNT - i2,
        {
            let t = table_from_num(i2);
            if !check_cells(&f, t) {
                proof {
                    assert(exists|r2: int, c: int|
                        0 <= r2 < rows_of(built, t) && 0 <= c < col_count(t) && !(
                        #[trigger] cell_wf(built, t, r2, c)));
                    assert(!file_wf(built));
                }
                return Option::None;
            }
            i2 += 1;
        }
        proof {
            assert forall|t: TableIndex, r2: int, c: int|
                0 <= r2 < rows_of(f, t) && 0 <= c < col_count(t) implies #[trigger] cell_wf(
                f,
                t,
                r2,
                c,
            ) by {
                assert(table_num(t) < TABLE_COUNT);
            };
        }
        if f.tables[table_index(TableIndex::MethodDef)].row_count > 0 && f.tables[table_index(
            TableIndex::TypeDef,
        )].row_count == 0 {
            proof {
                assert(!file_wf(built));
            }
            return Option::None;
        }
        Option::Some(f)
    }
}

/// Nothing but zero ends the scan: a zero-free span followed by a zero puts
/// the first zero right after the span.
proof fn lemma_first_zero_after(bytes: Seq<u8>, off: int, n: int)
    requires
        0 <= off,
        0 <= n,
        off + n < bytes.len(),
        forall|k: int| 0 <= k < n ==> #[trigger] bytes[off + k] != 0,
        bytes[off + n] == 0,
    ensures
        first_zero(bytes, off) == off + n,
    decreases n,
{
    if n > 0 {
        assert(bytes[off + 0] != 0);
        assert(bytes[off] != 0);
        assert forall|k: int| 0 <= k < n - 1 implies #[trigger] bytes[off + 1 + k] != 0 by {
            assert(bytes[off + (k + 1)] != 0);
        };
        assert(bytes[off + 1 + (n - 1)] == 0);
        lemma_first_zero_after(bytes, off + 1, n - 1);
    }
}

/// Round trip for strings: text written at a heap offset through the
/// documented encoding, zero-free and zero-terminated, reads back exactly.
pub proof fn lemma_text_round_trip(f: File, v: int, text: Seq<u8>)
    requires
        0 <= f.strings + v,
        f.strings + v + text.len() < f.bytes@.len(),
        forall|k: int|
            0 <= k < text.len() ==> (#[trigger] text[k]) != 0 && f.bytes@[f.strings + v + k]
                == text[k],
        f.bytes@[f.strings + v + text.len()] == 0,
    ensures
        text_bytes_at(f, v) == text,
{
    assert forall|k: int|
        0 <= k < text.len() implies #[trigger] f.bytes@[f.strings + v + k] != 0 by {
        assert(text[k] != 0);
    };
    lemma_first_zero_after(f.bytes@, f.strings + v, text.len() as int);
    assert(text_bytes_at(f, v) =~= text);
}

/// Round trip for short blobs: a payload written at a heap offset behind a
/// one-byte length prefix reads back exactly.
pub proof fn lemma_blob_round_trip(f: File, v: int, payload: Seq<u8>)
    requires
        0 <= f.blobs + v,
        payload.len() < 0x80,
        f.blobs + v + 1 + payload.len() <= f.bytes@.len(),
        f.bytes@[f.blobs + v] == payload.len(),
        forall|k: int|
            0 <= k < payload.len() ==> f.bytes@[f.blobs + v + 1 + k] == #[trigger] payload[k],
    ensures
        blob_parse(f.bytes@, f.blobs + v) == Option::Some(
            (f.blobs + v + 1, payload.len() as int),
        ),
        f.bytes@.subrange(f.blobs + v + 1, f.blobs + v + 1 + payload.len()) == payload,
{
    assert(f.bytes@.subrange(f.blobs + v + 1, f.blobs + v + 1 + payload.len()) =~= payload);
}

} // verus!
