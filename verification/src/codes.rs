use vstd::prelude::*;
use crate::row::{Row, TableIndex};
use crate::file::{File, file_wf, rows_of};
use crate::parsed::type_def::TypeDef;
use crate::parsed::type_ref::TypeRef;
use crate::parsed::type_spec::TypeSpec;
use crate::parsed::module_ref::ModuleRef;
use crate::parsed::method_def::MethodDef;
use crate::parsed::field::Field;
use crate::parsed::param::Param;
use crate::parsed::member_ref::MemberRef;

verus! {

/// The flags column of a type definition.
#[derive(Copy, Clone, PartialEq, Eq, Structural, Debug)]
pub struct TypeFlags(pub u32);

impl TypeFlags {
    /// The type is an interface.
    pub fn interface(&self) -> (r: bool)
        ensures
            r == (self.0 & 0x20 != 0),
    {
        self.0 & 0x20 != 0
    }

    /// The type belongs to the runtime type system's own metadata surface.
    pub fn windows_runtime(&self) -> (r: bool)
        ensures
            r == (self.0 & 0x4000 != 0),
    {
        self.0 & 0x4000 != 0
    }
}

/// The flags column of a method definition.
#[derive(Copy, Clone, PartialEq, Eq, Structural, Debug)]
pub struct MethodFlags(pub u32);

impl MethodFlags {
    /// The method is marked special, as property and event accessors are.
    pub fn special(&self) -> (r: bool)
        ensures
            r == (self.0 & 0x800 != 0),
    {
        self.0 & 0x800 != 0
    }
}

/// The flags column of a field.
#[derive(Copy, Clone, PartialEq, Eq, Structural, Debug)]
pub struct FieldFlags(pub u32);

impl FieldFlags {
    /// The field is a compile-time constant.
    pub fn literal(&self) -> (r: bool)
        ensures
            r == (self.0 & 0x40 != 0),
    {
        self.0 & 0x40 != 0
    }
}

/// Derived classification of a type definition; this, not the raw flags,
/// drives what the registry indexes and what the tree resolves.
#[derive(Copy, Clone, PartialEq, Eq, Structural, Debug)]
pub enum TypeCategory {
    Interface,
    Enum,
    Delegate,
    Attribute,
    Contract,
    Struct,
    Class,
}

/// How a method is consumed, judged from its flags and name prefix.
#[derive(Copy, Clone, PartialEq, Eq, Structural, Debug)]
pub enum MethodCategory {
    Get,
    Put,
    Add,
    Remove,
    Normal,
}

/// The element types a constant or signature column can name.
#[derive(Copy, Clone, PartialEq, Eq, Structural, Debug)]
pub enum ElementType {
    Bool,
    Char,
    I8,
    U8,
    I16,
    U16,
    I32,
    U32,
    I64,
    U64,
    F32,
    F64,
    Text,
}

/// The fixed code each element type is stored as.
pub open spec fn element_type_from_code(code: int) -> Option<ElementType> {
    if code == 0x02 {
        Option::Some(ElementType::Bool)
    } else if code == 0x03 {
        Option::Some(ElementType::Char)
    } else if code == 0x04 {
        Option::Some(ElementType::I8)
    } else if code == 0x05 {
        Option::Some(ElementType::U8)
    } else if code == 0x06 {
        Option::Some(ElementType::I16)
    } else if code == 0x07 {
        Option::Some(ElementType::U16)
    } else if code == 0x08 {
        Option::Some(ElementType::I32)
    } else if code == 0x09 {
        Option::Some(ElementType::U32)
    } else if code == 0x0A {
        Option::Some(ElementType::I64)
    } else if code == 0x0B {
        Option::Some(ElementType::U64)
    } else if code == 0x0C {
        Option::Some(ElementType::F32)
    } else if code == 0x0D {
        Option::Some(ElementType::F64)
    } else if code == 0x0E {
        Option::Some(ElementType::Text)
    } else {
        Option::None
    }
}

impl ElementType {
    /// Maps a stored code to its element type; `None` for a code outside the
    /// fixed list.
    pub fn from_code(code: u32) -> (r: Option<ElementType>)
        ensures
            r == element_type_from_code(code as int),
    {
        if code == 0x02 {
            Option::Some(ElementType::Bool)
        } else if code == 0x03 {
            Option::Some(ElementType::Char)
        } else if code == 0x04 {
            Option::Some(ElementType::I8)
        } else if code == 0x05 {
            Option::Some(ElementType::U8)
        } else if code == 0x06 {
            Option::Some(ElementType::I16)
        } else if code == 0x07 {
            Option::Some(ElementType::U16)
        } else if code == 0x08 {
            Option::Some(ElementType::I32)
        } else if code == 0x09 {
            Option::Some(ElementType::U32)
        } else if code == 0x0A {
            Option::Some(ElementType::I64)
        } else if code == 0x0B {
            Option::Some(ElementType::U64)
        } else if code == 0x0C {
            Option::Some(ElementType::F32)
        } else if code == 0x0D {
            Option::Some(ElementType::F64)
        } else if code == 0x0E {
            Option::Some(ElementType::Text)
        } else {
            Option::None
        }
    }
}

/// A coded index that can be decoded from a column value: a tag in the low
/// bits picks the owning table, the high bits hold a one-based row index.
pub trait Decode: Sized {
    /// What the code denotes in the given file; `None` for a null index, an
    /// unmapped tag, or a row outside its table.
    spec fn decode_spec(code: int, file_index: int, f: File) -> Option<Self>;

    /// Decodes the code against the given file.
    fn decode(code: u32, file_index: usize, f: &File) -> (r: Option<Self>)
        requires
            file_wf(*f),
        ensures
            r == Self::decode_spec(code as int, file_index as int, *f),
    ;
}

/// A column that refers to a type definition, a type reference, or a type
/// specification.
#[derive(Copy, Clone, PartialEq, Eq, Structural, Debug)]
pub enum TypeDefOrRef {
    TypeDef(TypeDef),
    TypeRef(TypeRef),
    TypeSpec(TypeSpec),
}

impl Decode for TypeDefOrRef {
    open spec fn decode_spec(code: int, file_index: int, f: File) -> Option<TypeDefOrRef> {
        let tag = code % 4;
        let idx = code / 4;
        if idx == 0 {
            Option::None
        } else if tag == 0 && idx - 1 < rows_of(f, TableIndex::TypeDef) {
            Option::Some(
                TypeDefOrRef::TypeDef(
                    TypeDef {
                        row: Row {
                            index: (idx - 1) as usize,
                            table_index: TableIndex::TypeDef,
                            file_index: file_index as usize,
                        },
                    },
                ),
            )
        } else if tag == 1 && idx - 1 < rows_of(f, TableIndex::TypeRef) {
            Option::Some(
                TypeDefOrRef::TypeRef(
                    TypeRef {
                        row: Row {
                            index: (idx - 1) as usize,
                            table_index: TableIndex::TypeRef,
                            file_index: file_index as usize,
                        },
                    },
                ),
            )
        } else if tag == 2 && idx - 1 < rows_of(f, TableIndex::TypeSpec) {
            Option::Some(
                TypeDefOrRef::TypeSpec(
                    TypeSpec {
                        row: Row {
                            index: (idx - 1) as usize,
                            table_index: TableIndex::TypeSpec,
                            file_index: file_index as usize,
                        },
                    },
                ),
            )
        } else {
            Option::None
        }
    }

    fn decode(code: u32, file_index: usize, f: &File) -> (r: Option<TypeDefOrRef>) {
        let tag = code % 4;
        let idx = (code / 4) as usize;
        if idx == 0 {
            Option::None
        } else if tag == 0 && idx - 1 < f.tables[crate::row::table_index(TableIndex::TypeDef)].row_count {
            Option::Some(
                TypeDefOrRef::TypeDef(
                    TypeDef {
                        row: Row {
                            index: idx - 1,
                            table_index: TableIndex::TypeDef,
                            file_index,
                        },
                    },
                ),
            )
        } else if tag == 1 && idx - 1 < f.tables[crate::row::table_index(TableIndex::TypeRef)].row_count {
            Option::Some(
                TypeDefOrRef::TypeRef(
                    TypeRef {
                        row: Row {
                            index: idx - 1,
                            table_index: TableIndex::TypeRef,
                            file_index,
                        },
                    },
                ),
            )
        } else if tag == 2 && idx - 1 < f.tables[crate::row::table_index(TableIndex::TypeSpec)].row_count {
            Option::Some(
                TypeDefOrRef::TypeSpec(
                    TypeSpec {
                        row: Row {
                            index: idx - 1,
                            table_index: TableIndex::TypeSpec,
                            file_index,
                        },
                    },
                ),
            )
        } else {
            Option::None
        }
    }
}

/// The parent column of a member reference.
#[derive(Copy, Clone, PartialEq, Eq, Structural, Debug)]
pub enum MemberRefParent {
    TypeDef(TypeDef),
    TypeRef(TypeRef),
    ModuleRef(ModuleRef),
    MethodDef(MethodDef),
    TypeSpec(TypeSpec),
}

impl Decode for MemberRefParent {
    open spec fn decode_spec(code: int, file_index: int, f: File) -> Option<MemberRefParent> {
        let tag = code % 8;
        let idx = code / 8;
        if idx == 0 {
            Option::None
        } else if tag == 0 && idx - 1 < rows_of(f, TableIndex::TypeDef) {
            Option::Some(
                MemberRefParent::TypeDef(
                    TypeDef {
                        row: Row {
                            index: (idx - 1) as usize,
                            table_index: TableIndex::TypeDef,
                            file_index: file_index as usize,
                        },
                    },
                ),
            )
        } else if tag == 1 && idx - 1 < rows_of(f, TableIndex::TypeRef) {
            Option::Some(
                MemberRefParent::TypeRef(
                    TypeRef {
                        row: Row {
                            index: (idx - 1) as usize,
                            table_index: TableIndex::TypeRef,
                            file_index: file_index as usize,
                        },
                    },
                ),
            )
        } else if tag == 2 && idx - 1 < rows_of(f, TableIndex::ModuleRef) {
            Option::Some(
                MemberRefParent::ModuleRef(
                    ModuleRef {
                        row: Row {
                            index: (idx - 1) as usize,
                            table_index: TableIndex::ModuleRef,
                            file_index: file_index as usize,
                        },
                    },
                ),
            )
        } else if tag == 3 && idx - 1 < rows_of(f, TableIndex::MethodDef) {
            Option::Some(
                MemberRefParent::MethodDef(
                    MethodDef {
                        row: Row {
                            index: (idx - 1) as usize,
                            table_index: TableIndex::MethodDef,
                            file_index: file_index as usize,
                        },
                    },
                ),
            )
        } else if tag == 4 && idx - 1 < rows_of(f, TableIndex::TypeSpec) {
            Option::Some(
                MemberRefParent::TypeSpec(
                    TypeSpec {
                        row: Row {
                            index: (idx - 1) as usize,
                            table_index: TableIndex::TypeSpec,
                            file_index: file_index as usize,
                        },
                    },
                ),
            )
        } else {
            Option::None
        }
    }

    fn decode(code: u32, file_index: usize, f: &File) -> (r: Option<MemberRefParent>) {
        let tag = code % 8;
        let idx = (code / 8) as usize;
        if idx == 0 {
            Option::None
        } else if tag == 0 && idx - 1 < f.tables[crate::row::table_index(TableIndex::TypeDef)].row_count {
            Option::Some(
                MemberRefParent::TypeDef(
                    TypeDef {
                        row: Row {
                            index: idx - 1,
                            table_index: TableIndex::TypeDef,
                            file_index,
                        },
                    },
                ),
            )
        } else if tag == 1 && idx - 1 < f.tables[crate::row::table_index(TableIndex::TypeRef)].row_count {
            Option::Some(
                MemberRefParent::TypeRef(
                    TypeRef {
                        row: Row {
                            index: idx - 1,
                            table_index: TableIndex::TypeRef,
                            file_index,
                        },
                    },
                ),
            )
        } else if tag == 2 && idx - 1 < f.tables[crate::row::table_index(TableIndex::ModuleRef)].row_count {
            Option::Some(
                MemberRefParent::ModuleRef(
                    ModuleRef {
                        row: Row {
                            index: idx - 1,
                            table_index: TableIndex::ModuleRef,
                            file_index,
                        },
                    },
                ),
            )
        } else if tag == 3 && idx - 1 < f.tables[crate::row::table_index(TableIndex::MethodDef)].row_count {
            Option::Some(
                MemberRefParent::MethodDef(
                    MethodDef {
                        row: Row {
                            index: idx - 1,
                            table_index: TableIndex::MethodDef,
                            file_index,
                        },
                    },
                ),
            )
        } else if tag == 4 && idx - 1 < f.tables[crate::row::table_index(TableIndex::TypeSpec)].row_count {
            Option::Some(
                MemberRefParent::TypeSpec(
                    TypeSpec {
                        row: Row {
                            index: idx - 1,
                            table_index: TableIndex::TypeSpec,
                            file_index,
                        },
                    },
                ),
            )
        } else {
            Option::None
        }
    }
}

/// The constructor column of a custom attribute.
#[derive(Copy, Clone, PartialEq, Eq, Structural, Debug)]
pub enum AttributeType {
    MethodDef(MethodDef),
    MemberRef(MemberRef),
}

impl Decode for AttributeType {
    open spec fn decode_spec(code: int, file_index: int, f: File) -> Option<AttributeType> {
        let tag = code % 8;
        let idx = code / 8;
        if idx == 0 {
            Option::None
        } else if tag == 2 && idx - 1 < rows_of(f, TableIndex::MethodDef) {
            Option::Some(
                AttributeType::MethodDef(
                    MethodDef {
                        row: Row {
                            index: (idx - 1) as usize,
                            table_index: TableIndex::MethodDef,
                            file_index: file_index as usize,
                        },
                    },
                ),
            )
        } else if tag == 3 && idx - 1 < rows_of(f, TableIndex::MemberRef) {
            Option::Some(
                AttributeType::MemberRef(
                    MemberRef {
                        row: Row {
                            index: (idx - 1) as usize,
                            table_index: TableIndex::MemberRef,
                            file_index: file_index as usize,
                        },
                    },
                ),
            )
        } else {
            Option::None
        }
    }

    fn decode(code: u32, file_index: usize, f: &File) -> (r: Option<AttributeType>) {
        let tag = code % 8;
        let idx = (code / 8) as usize;
        if idx == 0 {
            Option::None
        } else if tag == 2 && idx - 1 < f.tables[crate::row::table_index(TableIndex::MethodDef)].row_count {
            Option::Some(
                AttributeType::MethodDef(
                    MethodDef {
                        row: Row {
                            index: idx - 1,
                            table_index: TableIndex::MethodDef,
                            file_index,
                        },
                    },
                ),
            )
        } else if tag == 3 && idx - 1 < f.tables[crate::row::table_index(TableIndex::MemberRef)].row_count {
            Option::Some(
                AttributeType::MemberRef(
                    MemberRef {
                        row: Row {
                            index: idx - 1,
                            table_index: TableIndex::MemberRef,
                            file_index,
                        },
                    },
                ),
            )
        } else {
            Option::None
        }
    }
}

/// A row that can carry a constant value.
pub enum HasConstant {
    Field(Field),
    Param(Param),
}

impl HasConstant {
    /// The coded value this owner is stored as in the constant table's parent
    /// column.
    pub open spec fn encode_spec(self) -> int {
        match self {
            HasConstant::Field(field) => (field.row.index + 1) * 4,
            HasConstant::Param(param) => (param.row.index + 1) * 4 + 1,
        }
    }

    pub fn encode(&self) -> (r: u32)
        requires
            self.encode_spec() <= u32::MAX,
        ensures
            r == self.encode_spec(),
    {
        match self {
            HasConstant::Field(field) => ((field.row.index as u32) + 1) * 4,
            HasConstant::Param(param) => ((param.row.index as u32) + 1) * 4 + 1,
        }
    }
}

/// A row that custom attributes can be attached to.
pub enum HasAttribute {
    MethodDef(MethodDef),
    Field(Field),
    TypeRef(TypeRef),
    TypeDef(TypeDef),
    Param(Param),
}

impl HasAttribute {
    /// The coded value this target is stored as in the attribute table's
    /// parent column.
    pub open spec fn encode_spec(self) -> int {
        match self {
            HasAttribute::MethodDef(method) => (method.row.index + 1) * 32,
            HasAttribute::Field(field) => (field.row.index + 1) * 32 + 1,
            HasAttribute::TypeRef(type_ref) => (type_ref.row.index + 1) * 32 + 2,
            HasAttribute::TypeDef(type_def) => (type_def.row.index + 1) * 32 + 3,
            HasAttribute::Param(param) => (param.row.index + 1) * 32 + 4,
        }
    }

    pub fn encode(&self) -> (r: u32)
        requires
            self.encode_spec() <= u32::MAX,
        ensures
            r == self.encode_spec(),
    {
        match self {
            HasAttribute::MethodDef(method) => ((method.row.index as u32) + 1) * 32,
            HasAttribute::Field(field) => ((field.row.index as u32) + 1) * 32 + 1,
            HasAttribute::TypeRef(type_ref) => ((type_ref.row.index as u32) + 1) * 32 + 2,
            HasAttribute::TypeDef(type_def) => ((type_def.row.index as u32) + 1) * 32 + 3,
            HasAttribute::Param(param) => ((param.row.index as u32) + 1) * 32 + 4,
        }
    }
}

/// A row that can own generic parameters.
pub enum TypeOrMethodDef {
    TypeDef(TypeDef),
    MethodDef(MethodDef),
}

impl TypeOrMethodDef {
    /// The coded value this owner is stored as in the generic-parameter
    /// table's owner column.
    pub open spec fn encode_spec(self) -> int {
        match self {
            TypeOrMethodDef::TypeDef(type_def) => (type_def.row.index + 1) * 2,
            TypeOrMethodDef::MethodDef(method) => (method.row.index + 1) * 2 + 1,
        }
    }

    pub fn encode(&self) -> (r: u32)
        requires
            self.encode_spec() <= u32::MAX,
        ensures
            r == self.encode_spec(),
    {
        match self {
            TypeOrMethodDef::TypeDef(type_def) => ((type_def.row.index as u32) + 1) * 2,
            TypeOrMethodDef::MethodDef(method) => ((method.row.index as u32) + 1) * 2 + 1,
        }
    }
}

} // verus!
