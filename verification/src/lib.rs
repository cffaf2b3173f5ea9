pub mod row;
pub mod file;
pub mod codes;
pub mod parsed;
pub mod type_reader;

pub use row::{Row, TableIndex, TABLE_COUNT};
pub use file::{File, TableData, ColKind};
pub use codes::{TypeFlags, MethodFlags, FieldFlags, TypeCategory, MethodCategory, ElementType,
    TypeDefOrRef, MemberRefParent, AttributeType, HasConstant, HasAttribute, TypeOrMethodDef,
    Decode};
pub use type_reader::{TypeReader, TypeRow, TypeEntry, NamespaceEntry};
pub mod text;
pub mod blob;
pub mod registry;
pub mod naming;
pub mod type_limits;
pub mod com_class;
pub mod constant;
pub mod function;
pub mod type_tree;
pub mod closure;
pub use naming::TypeName;
pub use type_limits::{TypeLimits, NamespaceTypes, TypeLimit};
pub use com_class::ComClass;
pub use constant::Constant;
pub use function::Function;
pub use type_tree::{TypeTree, TypeNamespaces, TypeDefinition};
