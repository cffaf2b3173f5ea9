use vstd::prelude::*;
use crate::row::{Row, TableIndex};
use crate::file::{File, file_wf, table_wf, cell_wf, cell_value, text_cell_chars, rows_of,
    list_first, list_last, blob_parse, ColKind, col_kind};
use crate::blob::{read_unsigned_spec, skip_modifiers_spec, read_expected_spec};
use crate::codes::{ElementType, element_type_from_code};
use crate::codes::{TypeFlags, TypeCategory, TypeDefOrRef, TypeOrMethodDef, HasAttribute, Decode};
use crate::type_reader::{TypeReader, files_wf, row_valid, lemma_adjacent_sorted};
use crate::parsed::field::Field;
use crate::parsed::method_def::MethodDef;
use crate::parsed::generic_param::GenericParam;
use crate::parsed::interface_impl::InterfaceImpl;
use crate::parsed::attribute::{Attribute, attr_name_spec};

verus! {

/// A typed view over one type-definition row; all data is fetched on demand
/// through the owning reader.
#[derive(Copy, Clone, PartialEq, Eq, Structural, Debug)]
pub struct TypeDef {
    pub row: Row,
}

/// The lowest constant row at or after `i` whose parent column equals
/// `key`.
pub open spec fn first_con_from(f: File, key: int, i: int) -> Option<int>
    decreases rows_of(f, TableIndex::Constant) - i,
{
    if i < 0 || i >= rows_of(f, TableIndex::Constant) {
        Option::None
    } else if cell_value(f, TableIndex::Constant, i, 1) == key {
        Option::Some(i)
    } else {
        first_con_from(f, key, i + 1)
    }
}

/// A match with nothing matching below it is the first match.
proof fn lemma_first_con_at(f: File, key: int, i: int, a: int)
    requires
        0 <= i <= a < rows_of(f, TableIndex::Constant),
        cell_value(f, TableIndex::Constant, a, 1) == key,
        forall|b: int| i <= b < a ==> cell_value(f, TableIndex::Constant, b, 1) != key,
    ensures
        first_con_from(f, key, i) == Option::Some(a),
    decreases a - i,
{
    if i < a {
        lemma_first_con_at(f, key, i + 1, a);
    }
}

/// With nothing matching at all, there is no first match.
proof fn lemma_first_con_none(f: File, key: int, i: int)
    requires
        0 <= i,
        forall|b: int|
            i <= b < rows_of(f, TableIndex::Constant) ==> cell_value(
                f,
                TableIndex::Constant,
                b,
                1,
            ) != key,
    ensures
        first_con_from(f, key, i) is None,
    decreases rows_of(f, TableIndex::Constant) - i,
{
    if i < rows_of(f, TableIndex::Constant) {
        lemma_first_con_none(f, key, i + 1);
    }
}

/// What a field signature's leading bytes say the type is: past the calling
/// convention, any custom modifiers and an optional array mark, the element
/// code; `None` where the bytes run out or the code is outside the fixed
/// list.
pub open spec fn underlying_sig_spec(bytes: Seq<u8>, off: int, end: int) -> Option<ElementType> {
    match read_unsigned_spec(bytes, off, end) {
        Option::None => Option::None,
        Option::Some(v) => match skip_modifiers_spec(bytes, v.1, end) {
            Option::None => Option::None,
            Option::Some(o1) => {
                let o2 = read_expected_spec(bytes, o1, end, 0x1D).1;
                match skip_modifiers_spec(bytes, o2, end) {
                    Option::None => Option::None,
                    Option::Some(o3) => match read_unsigned_spec(bytes, o3, end) {
                        Option::None => Option::None,
                        Option::Some(w) => element_type_from_code(w.0),
                    },
                }
            },
        },
    }
}

/// The underlying element type of type definition `i`: from its first
/// field's attached constant when there is one, else from that field's
/// signature; `None` for a type with no fields or an unreadable shape.
pub open spec fn underlying_type_spec(f: File, i: int) -> Option<ElementType> {
    let first = list_first(f, TableIndex::TypeDef, i, 4);
    let last = list_last(f, TableIndex::TypeDef, i, 4, TableIndex::Field);
    if first >= last {
        Option::None
    } else {
        let key = (first + 1) * 4;
        match first_con_from(f, key, 0) {
            Option::Some(c) => element_type_from_code(cell_value(f, TableIndex::Constant, c, 0)),
            Option::None => match blob_parse(
                f.bytes@,
                f.blobs + cell_value(f, TableIndex::Field, first, 2),
            ) {
                Option::Some(sn) => underlying_sig_spec(f.bytes@, sn.0, sn.0 + sn.1),
                Option::None => Option::None,
            },
        }
    }
}

/// An attribute of the given namespace and name is attached to type
/// definition `i` of file `f`.
pub open spec fn typedef_has_attribute(
    f: File,
    fidx: int,
    i: int,
    namespace: Seq<char>,
    name: Seq<char>,
) -> bool {
    exists|a: int|
        0 <= a < rows_of(f, TableIndex::CustomAttribute) && #[trigger] cell_value(
            f,
            TableIndex::CustomAttribute,
            a,
            0,
        ) == (i + 1) * 32 + 3 && attr_name_spec(f, fidx, a) == Option::Some((namespace, name))
}

/// The category a non-interface type takes from its base type's name.
pub open spec fn category_of_base(
    f: File,
    fidx: int,
    i: int,
    base_namespace: Seq<char>,
    base_name: Seq<char>,
) -> TypeCategory {
    if base_namespace == "System"@ && base_name == "Enum"@ {
        TypeCategory::Enum
    } else if base_namespace == "System"@ && base_name == "MulticastDelegate"@ {
        TypeCategory::Delegate
    } else if base_namespace == "System"@ && base_name == "Attribute"@ {
        TypeCategory::Attribute
    } else if base_namespace == "System"@ && base_name == "ValueType"@ {
        if typedef_has_attribute(
            f,
            fidx,
            i,
            "Windows.Foundation.Metadata"@,
            "ApiContractAttribute"@,
        ) {
            TypeCategory::Contract
        } else {
            TypeCategory::Struct
        }
    } else {
        TypeCategory::Class
    }
}

/// The derived category of type definition `i` of file `f`: interface by
/// flags; else enum, delegate, attribute, or value type by the base type's
/// name, a value type further split by the contract marker attribute;
/// anything else is a class.
pub open spec fn typedef_category(f: File, fidx: int, i: int) -> TypeCategory {
    if cell_value(f, TableIndex::TypeDef, i, 0) as u32 & 0x20 != 0 {
        TypeCategory::Interface
    } else {
        match TypeDefOrRef::decode_spec(cell_value(f, TableIndex::TypeDef, i, 3), fidx, f) {
            Option::Some(TypeDefOrRef::TypeRef(tr)) => category_of_base(
                f,
                fidx,
                i,
                text_cell_chars(f, TableIndex::TypeRef, tr.row.index as int, 2),
                text_cell_chars(f, TableIndex::TypeRef, tr.row.index as int, 1),
            ),
            Option::Some(TypeDefOrRef::TypeDef(td)) => category_of_base(
                f,
                fidx,
                i,
                text_cell_chars(f, TableIndex::TypeDef, td.row.index as int, 2),
                text_cell_chars(f, TableIndex::TypeDef, td.row.index as int, 1),
            ),
            _ => TypeCategory::Class,
        }
    }
}

impl TypeDef {
    /// The view points at an existing type-definition row.
    pub open spec fn wf(self, reader: TypeReader) -> bool {
        &&& self.row.table_index == TableIndex::TypeDef
        &&& row_valid(reader.files@, self.row)
    }

    /// The type's flags column.
    pub open spec fn spec_flags(self, reader: TypeReader) -> u32 {
        cell_value(reader.file_of(self.row), TableIndex::TypeDef, self.row.index as int, 0) as u32
    }

    pub fn flags(&self, reader: &TypeReader) -> (r: TypeFlags)
        requires
            files_wf(reader.files@),
            self.wf(*reader),
        ensures
            r.0 == self.spec_flags(*reader),
    {
        TypeFlags(reader.u32(self.row, 0))
    }

    /// The characters of the type's namespace column.
    pub open spec fn spec_namespace(self, reader: TypeReader) -> Seq<char> {
        text_cell_chars(reader.file_of(self.row), TableIndex::TypeDef, self.row.index as int, 2)
    }

    /// The characters of the type's name column.
    pub open spec fn spec_name(self, reader: TypeReader) -> Seq<char> {
        text_cell_chars(reader.file_of(self.row), TableIndex::TypeDef, self.row.index as int, 1)
    }

    /// The type's namespace and name.
    pub fn name(&self, reader: &TypeReader) -> (r: (String, String))
        requires
            files_wf(reader.files@),
            self.wf(*reader),
        ensures
            r.0@ == self.spec_namespace(*reader),
            r.1@ == self.spec_name(*reader),
    {
        (reader.str(self.row, 2), reader.str(self.row, 1))
    }

    /// What the extends column decodes to.
    pub open spec fn spec_extends(self, reader: TypeReader) -> Option<TypeDefOrRef> {
        TypeDefOrRef::decode_spec(
            cell_value(reader.file_of(self.row), TableIndex::TypeDef, self.row.index as int, 3),
            self.row.file_index as int,
            reader.file_of(self.row),
        )
    }

    /// The type's base type; `None` for a null or unmapped code.
    pub fn extends(&self, reader: &TypeReader) -> (r: Option<TypeDefOrRef>)
        requires
            files_wf(reader.files@),
            self.wf(*reader),
        ensures
            r == self.spec_extends(*reader),
    {
        reader.decode(self.row, 3)
    }

    /// The type's field rows: the range this row owns in the field table.
    pub fn fields(&self, reader: &TypeReader) -> (r: Vec<Field>)
        requires
            files_wf(reader.files@),
            self.wf(*reader),
        ensures
            ({
                let f = reader.file_of(self.row);
                let first = list_first(f, TableIndex::TypeDef, self.row.index as int, 4);
                let last = list_last(
                    f,
                    TableIndex::TypeDef,
                    self.row.index as int,
                    4,
                    TableIndex::Field,
                );
                &&& r@.len() == last - first
                &&& forall|k: int|
                    0 <= k < r@.len() ==> (#[trigger] r@[k]).row == (Row {
                        index: (first + k) as usize,
                        table_index: TableIndex::Field,
                        file_index: self.row.file_index,
                    })
                &&& forall|k: int| 0 <= k < r@.len() ==> row_valid(reader.files@, (#[trigger] r@[k]).row)
            }),
    {
        let rows = reader.list(self.row, TableIndex::Field, 4);
        let mut out: Vec<Field> = Vec::new();
        let mut k: usize = 0;
        while k < rows.len()
            invariant
                0 <= k <= rows@.len(),
                out@.len() == k,
                forall|j: int| 0 <= j < k ==> (#[trigger] out@[j]).row == rows@[j],
            decreases rows@.len() - k,
        {
            out.push(Field { row: rows[k] });
            k += 1;
        }
        out
    }

    /// The type's method rows: the range this row owns in the method table.
    pub fn methods(&self, reader: &TypeReader) -> (r: Vec<MethodDef>)
        requires
            files_wf(reader.files@),
            self.wf(*reader),
        ensures
            ({
                let f = reader.file_of(self.row);
                let first = list_first(f, TableIndex::TypeDef, self.row.index as int, 5);
                let last = list_last(
                    f,
                    TableIndex::TypeDef,
                    self.row.index as int,
                    5,
                    TableIndex::MethodDef,
                );
                &&& r@.len() == last - first
                &&& forall|k: int|
                    0 <= k < r@.len() ==> (#[trigger] r@[k]).row == (Row {
                        index: (first + k) as usize,
                        table_index: TableIndex::MethodDef,
                        file_index: self.row.file_index,
                    })
                &&& forall|k: int| 0 <= k < r@.len() ==> row_valid(reader.files@, (#[trigger] r@[k]).row)
            }),
    {
        let rows = reader.list(self.row, TableIndex::MethodDef, 5);
        let mut out: Vec<MethodDef> = Vec::new();
        let mut k: usize = 0;
        while k < rows.len()
            invariant
                0 <= k <= rows@.len(),
                out@.len() == k,
                forall|j: int| 0 <= j < k ==> (#[trigger] out@[j]).row == rows@[j],
            decreases rows@.len() - k,
        {
            out.push(MethodDef { row: rows[k] });
            k += 1;
        }
        out
    }

    /// The type's generic parameters: exactly the generic-parameter rows
    /// whose sorted owner column codes this type.
    pub fn generics(&self, reader: &TypeReader) -> (r: Vec<GenericParam>)
        requires
            files_wf(reader.files@),
            self.wf(*reader),
        ensures
            ({
                let f = reader.file_of(self.row);
                let key = TypeOrMethodDef::TypeDef(*self).encode_spec();
                &&& forall|k: int|
                    0 <= k < r@.len() ==> (#[trigger] r@[k]).row.table_index
                        == TableIndex::GenericParam && r@[k].row.file_index == self.row.file_index
                        && row_valid(reader.files@, r@[k].row)
                &&& forall|k: int|
                    0 <= k < r@.len() ==> (#[trigger] r@[k]).row.index == r@[0].row.index + k
                &&& forall|k: int|
                    0 <= k < r@.len() ==> cell_value(
                        f,
                        TableIndex::GenericParam,
                        (#[trigger] r@[k]).row.index as int,
                        2,
                    ) == key
                &&& forall|i: int|
                    0 <= i < rows_of(f, TableIndex::GenericParam) && #[trigger] cell_value(
                        f,
                        TableIndex::GenericParam,
                        i,
                        2,
                    ) == key ==> exists|k: int| 0 <= k < r@.len() && (#[trigger] r@[k]).row.index == i
            }),
    {
        let ghost f = reader.files@[self.row.file_index as int];
        proof {
            assert(file_wf(f));
            assert forall|i: int|
                0 <= i && i + 1 < rows_of(f, TableIndex::GenericParam) implies #[trigger]
            cell_value(f, TableIndex::GenericParam, i, 2) <= cell_value(
                f,
                TableIndex::GenericParam,
                i + 1,
                2,
            ) by {
                assert(cell_wf(f, TableIndex::GenericParam, i, 2));
            };
            lemma_adjacent_sorted(f, TableIndex::GenericParam, 2);
            assert(table_wf(f, TableIndex::TypeDef));
        }
        let key = TypeOrMethodDef::TypeDef(*self).encode();
        let rows = reader.equal_range(self.row.file_index, TableIndex::GenericParam, 2, key);
        let mut out: Vec<GenericParam> = Vec::new();
        let mut k: usize = 0;
        while k < rows.len()
            invariant
                0 <= k <= rows@.len(),
                out@.len() == k,
                forall|j: int| 0 <= j < k ==> (#[trigger] out@[j]).row == rows@[j],
            decreases rows@.len() - k,
        {
            out.push(GenericParam { row: rows[k] });
            k += 1;
        }
        proof {
            let keyg = TypeOrMethodDef::TypeDef(*self).encode_spec();
            assert forall|i: int|
                0 <= i < rows_of(f, TableIndex::GenericParam) && cell_value(
                    f,
                    TableIndex::GenericParam,
                    i,
                    2,
                ) == keyg implies exists|k2: int|
                0 <= k2 < out@.len() && (#[trigger] out@[k2]).row.index == i by {
                let k2 = choose|k2: int| 0 <= k2 < rows@.len() && #[trigger] rows@[k2].index == i;
                assert(out@[k2].row.index == i);
            };
        }
        out
    }

    /// The type's interface implementations: exactly the rows whose sorted
    /// class column holds this type's one-based index.
    pub fn interfaces(&self, reader: &TypeReader) -> (r: Vec<InterfaceImpl>)
        requires
            files_wf(reader.files@),
            self.wf(*reader),
        ensures
            ({
                let f = reader.file_of(self.row);
                &&& forall|k: int|
                    0 <= k < r@.len() ==> (#[trigger] r@[k]).row.table_index
                        == TableIndex::InterfaceImpl && r@[k].row.file_index
                        == self.row.file_index && row_valid(reader.files@, r@[k].row)
                &&& forall|k: int|
                    0 <= k < r@.len() ==> (#[trigger] r@[k]).row.index == r@[0].row.index + k
                &&& forall|k: int|
                    0 <= k < r@.len() ==> cell_value(
                        f,
                        TableIndex::InterfaceImpl,
                        (#[trigger] r@[k]).row.index as int,
                        0,
                    ) == self.row.index + 1
                &&& forall|i: int|
                    0 <= i < rows_of(f, TableIndex::InterfaceImpl) && #[trigger] cell_value(
                        f,
                        TableIndex::InterfaceImpl,
                        i,
                        0,
                    ) == self.row.index + 1 ==> exists|k: int|
                        0 <= k < r@.len() && (#[trigger] r@[k]).row.index == i
            }),
    {
        let ghost f = reader.files@[self.row.file_index as int];
        proof {
            assert(file_wf(f));
            assert forall|i: int|
                0 <= i && i + 1 < rows_of(f, TableIndex::InterfaceImpl) implies #[trigger]
            cell_value(f, TableIndex::InterfaceImpl, i, 0) <= cell_value(
                f,
                TableIndex::InterfaceImpl,
                i + 1,
                0,
            ) by {
                assert(cell_wf(f, TableIndex::InterfaceImpl, i, 0));
            };
            lemma_adjacent_sorted(f, TableIndex::InterfaceImpl, 0);
            assert(table_wf(f, TableIndex::TypeDef));
        }
        let value = (self.row.index as u32) + 1;
        let rows = reader.equal_range(self.row.file_index, TableIndex::InterfaceImpl, 0, value);
        let mut out: Vec<InterfaceImpl> = Vec::new();
        let mut k: usize = 0;
        while k < rows.len()
            invariant
                0 <= k <= rows@.len(),
                out@.len() == k,
                forall|j: int| 0 <= j < k ==> (#[trigger] out@[j]).row == rows@[j],
            decreases rows@.len() - k,
        {
            out.push(InterfaceImpl { row: rows[k] });
            k += 1;
        }
        proof {
            assert forall|i: int|
                0 <= i < rows_of(f, TableIndex::InterfaceImpl) && cell_value(
                    f,
                    TableIndex::InterfaceImpl,
                    i,
                    0,
                ) == self.row.index + 1 implies exists|k2: int|
                0 <= k2 < out@.len() && (#[trigger] out@[k2]).row.index == i by {
                let k2 = choose|k2: int| 0 <= k2 < rows@.len() && #[trigger] rows@[k2].index == i;
                assert(out@[k2].row.index == i);
            };
        }
        out
    }

    /// The attribute rows attached to this type: exactly those whose sorted
    /// parent column codes this type.
    pub fn attributes(&self, reader: &TypeReader) -> (r: Vec<Attribute>)
        requires
            files_wf(reader.files@),
            self.wf(*reader),
        ensures
            ({
                let f = reader.file_of(self.row);
                let key = HasAttribute::TypeDef(*self).encode_spec();
                &&& forall|k: int|
                    0 <= k < r@.len() ==> (#[trigger] r@[k]).row.table_index
                        == TableIndex::CustomAttribute && r@[k].row.file_index
                        == self.row.file_index && row_valid(reader.files@, r@[k].row)
                &&& forall|k: int|
                    0 <= k < r@.len() ==> (#[trigger] r@[k]).row.index == r@[0].row.index + k
                &&& forall|k: int|
                    0 <= k < r@.len() ==> cell_value(
                        f,
                        TableIndex::CustomAttribute,
                        (#[trigger] r@[k]).row.index as int,
                        0,
                    ) == key
                &&& forall|i: int|
                    0 <= i < rows_of(f, TableIndex::CustomAttribute) && #[trigger] cell_value(
                        f,
                        TableIndex::CustomAttribute,
                        i,
                        0,
                    ) == key ==> exists|k: int| 0 <= k < r@.len() && (#[trigger] r@[k]).row.index == i
            }),
    {
        let ghost f = reader.files@[self.row.file_index as int];
        proof {
            assert(file_wf(f));
            assert forall|i: int|
                0 <= i && i + 1 < rows_of(f, TableIndex::CustomAttribute) implies #[trigger]
            cell_value(f, TableIndex::CustomAttribute, i, 0) <= cell_value(
                f,
                TableIndex::CustomAttribute,
                i + 1,
                0,
            ) by {
                assert(cell_wf(f, TableIndex::CustomAttribute, i, 0));
            };
            lemma_adjacent_sorted(f, TableIndex::CustomAttribute, 0);
            assert(table_wf(f, TableIndex::TypeDef));
        }
        let key = HasAttribute::TypeDef(*self).encode();
        let rows = reader.equal_range(self.row.file_index, TableIndex::CustomAttribute, 0, key);
        let mut out: Vec<Attribute> = Vec::new();
        let mut k: usize = 0;
        while k < rows.len()
            invariant
                0 <= k <= rows@.len(),
                out@.len() == k,
                forall|j: int| 0 <= j < k ==> (#[trigger] out@[j]).row == rows@[j],
            decreases rows@.len() - k,
        {
            out.push(Attribute { row: rows[k] });
            k += 1;
        }
        proof {
            let keyg = HasAttribute::TypeDef(*self).encode_spec();
            assert forall|i: int|
                0 <= i < rows_of(f, TableIndex::CustomAttribute) && cell_value(
                    f,
                    TableIndex::CustomAttribute,
                    i,
                    0,
                ) == keyg implies exists|k2: int|
                0 <= k2 < out@.len() && (#[trigger] out@[k2]).row.index == i by {
                let k2 = choose|k2: int| 0 <= k2 < rows@.len() && #[trigger] rows@[k2].index == i;
                assert(out@[k2].row.index == i);
            };
        }
        out
    }

    /// An attribute of the given namespace and name is attached to this type.
    pub open spec fn spec_has_attribute(
        self,
        reader: TypeReader,
        namespace: Seq<char>,
        name: Seq<char>,
    ) -> bool {
        typedef_has_attribute(
            reader.file_of(self.row),
            self.row.file_index as int,
            self.row.index as int,
            namespace,
            name,
        )
    }

    /// Whether an attribute of the given namespace and name is attached to
    /// this type.
    #[verifier::loop_isolation(false)]
    pub fn has_attribute(&self, reader: &TypeReader, namespace: &String, name: &String) -> (r:
        bool)
        requires
            files_wf(reader.files@),
            self.wf(*reader),
        ensures
            r == self.spec_has_attribute(*reader, namespace@, name@),
    {
        let ghost f = reader.files@[self.row.file_index as int];
        let attrs = self.attributes(reader);
        let mut k: usize = 0;
        while k < attrs.len()
            invariant
                0 <= k <= attrs@.len(),
                forall|j: int|
                    0 <= j < k ==> attr_name_spec(
                        f,
                        self.row.file_index as int,
                        (#[trigger] attrs@[j]).row.index as int,
                    ) != Option::Some((namespace@, name@)),
            decreases attrs@.len() - k,
        {
            match attrs[k].name(reader) {
                Option::Some(pair) => {
                    if pair.0 == *namespace && pair.1 == *name {
                        return true;
                    }
                },
                Option::None => {},
            }
            k += 1;
        }
        proof {
            if self.spec_has_attribute(*reader, namespace@, name@) {
                let i = choose|i: int|
                    0 <= i < rows_of(f, TableIndex::CustomAttribute) && #[trigger] cell_value(
                        f,
                        TableIndex::CustomAttribute,
                        i,
                        0,
                    ) == HasAttribute::TypeDef(*self).encode_spec() && attr_name_spec(
                        f,
                        self.row.file_index as int,
                        i,
                    ) == Option::Some((namespace@, name@));
                let k2 = choose|k2: int|
                    0 <= k2 < attrs@.len() && (#[trigger] attrs@[k2]).row.index == i;
                assert(attr_name_spec(f, self.row.file_index as int, attrs@[k2].row.index as int)
                    != Option::Some((namespace@, name@)));
            }
        }
        false
    }

    /// The type belongs to the runtime type system's own metadata surface.
    pub fn is_winrt(&self, reader: &TypeReader) -> (r: bool)
        requires
            files_wf(reader.files@),
            self.wf(*reader),
        ensures
            r == (self.spec_flags(*reader) & 0x4000 != 0),
    {
        self.flags(reader).windows_runtime()
    }

    /// The derived category: interface by flags; else enum, delegate,
    /// attribute, or value type by the base type's name, a value type further
    /// split by the contract marker attribute; anything else is a class.
    pub open spec fn spec_category(self, reader: TypeReader) -> TypeCategory {
        typedef_category(reader.file_of(self.row), self.row.file_index as int, self.row.index as int)
    }

    /// The element type a constant of this type is stored as, read from its
    /// first field. A type with no fields has no discoverable underlying
    /// representation, which the format makes fatal, so the empty field
    /// range is excluded; `None` marks an unreadable first field, fatal for
    /// the caller too.
    pub fn underlying_type(&self, reader: &TypeReader) -> (r: Option<ElementType>)
        requires
            files_wf(reader.files@),
            self.wf(*reader),
            list_first(
                reader.file_of(self.row),
                TableIndex::TypeDef,
                self.row.index as int,
                4,
            ) < list_last(
                reader.file_of(self.row),
                TableIndex::TypeDef,
                self.row.index as int,
                4,
                TableIndex::Field,
            ),
        ensures
            r == underlying_type_spec(reader.file_of(self.row), self.row.index as int),
    {
        let ghost f = reader.files@[self.row.file_index as int];
        let fields = self.fields(reader);
        let fd = fields[0];
        let ghost first = list_first(f, TableIndex::TypeDef, self.row.index as int, 4);
        let ghost key = (first + 1) * 4;
        proof {
            assert(cell_wf(f, TableIndex::TypeDef, self.row.index as int, 4));
            assert(table_wf(f, TableIndex::Field));
            assert(fd.row.index == first);
        }
        let cons = fd.constants(reader);
        if cons.len() > 0 {
            let c = cons[0];
            proof {
                assert(reader.file_of(fd.row) == f);
                assert(crate::codes::HasConstant::Field(fd).encode_spec() == key);
                assert forall|b: int| 0 <= b < c.row.index as int implies cell_value(
                    f,
                    TableIndex::Constant,
                    b,
                    1,
                ) != key by {
                    if cell_value(f, TableIndex::Constant, b, 1) == key {
                        let k2 = choose|k2: int|
                            0 <= k2 < cons@.len() && (#[trigger] cons@[k2]).row.index == b;
                        assert(cons@[k2].row.index == cons@[0].row.index + k2);
                    }
                };
                lemma_first_con_at(f, key, 0, c.row.index as int);
            }
            c.value_type(reader)
        } else {
            proof {
                assert forall|b: int|
                    0 <= b < rows_of(f, TableIndex::Constant) implies cell_value(
                    f,
                    TableIndex::Constant,
                    b,
                    1,
                ) != key by {
                    assert(reader.file_of(fd.row) == f);
                    assert(crate::codes::HasConstant::Field(fd).encode_spec() == key);
                    if cell_value(f, TableIndex::Constant, b, 1) == key {
                        assert(exists|k2: int|
                            0 <= k2 < cons@.len() && (#[trigger] cons@[k2]).row.index == b);
                        assert(false);
                    }
                };
                lemma_first_con_none(f, key, 0);
            }
            let mut blob = fd.sig(reader);
            match blob.read_unsigned(reader) {
                Option::None => Option::None,
                Option::Some(_) => {
                    if !blob.read_modifiers(reader) {
                        return Option::None;
                    }
                    blob.read_expected(reader, 0x1D);
                    if !blob.read_modifiers(reader) {
                        return Option::None;
                    }
                    match blob.read_unsigned(reader) {
                        Option::None => Option::None,
                        Option::Some(code) => ElementType::from_code(code),
                    }
                },
            }
        }
    }

    /// See [`TypeDef::spec_category`].
    pub fn category(&self, reader: &TypeReader) -> (r: TypeCategory)
        requires
            files_wf(reader.files@),
            self.wf(*reader),
        ensures
            r == self.spec_category(*reader),
    {
        if self.flags(reader).interface() {
            TypeCategory::Interface
        } else {
            let base = match self.extends(reader) {
                Option::Some(TypeDefOrRef::TypeRef(tr)) => Option::Some(tr.name(reader)),
                Option::Some(TypeDefOrRef::TypeDef(td)) => Option::Some(td.name(reader)),
                _ => Option::None,
            };
            match base {
                Option::Some(pair) => {
                    let system: String = "System".to_owned();
                    if pair.0 == system && pair.1 == "Enum".to_owned() {
                        TypeCategory::Enum
                    } else if pair.0 == system && pair.1 == "MulticastDelegate".to_owned() {
                        TypeCategory::Delegate
                    } else if pair.0 == system && pair.1 == "Attribute".to_owned() {
                        TypeCategory::Attribute
                    } else if pair.0 == system && pair.1 == "ValueType".to_owned() {
                        if self.has_attribute(
                            reader,
                            &"Windows.Foundation.Metadata".to_owned(),
                            &"ApiContractAttribute".to_owned(),
                        ) {
                            TypeCategory::Contract
                        } else {
                            TypeCategory::Struct
                        }
                    } else {
                        TypeCategory::Class
                    }
                },
                Option::None => TypeCategory::Class,
            }
        }
    }
}

} // verus!
