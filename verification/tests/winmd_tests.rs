use winmd::{File, TableData, TableIndex, TypeReader, TypeRow, TypeLimits, NamespaceTypes,
    TypeLimit, TypeTree, TypeDefinition, TypeName, Row};
use winmd::parsed::type_def::TypeDef;
use winmd::codes::{TypeCategory, MethodCategory, ElementType};
use winmd::closure::type_dependencies;

struct Heap {
    bytes: Vec<u8>,
}

impl Heap {
    fn new() -> Heap {
        // offset zero holds the empty string
        Heap { bytes: vec![0u8] }
    }

    fn add(&mut self, s: &str) -> u32 {
        let off = self.bytes.len() as u32;
        self.bytes.extend_from_slice(s.as_bytes());
        self.bytes.push(0);
        off
    }
}

fn push_u32(bytes: &mut Vec<u8>, v: u32) {
    bytes.push((v & 0xFF) as u8);
    bytes.push(((v >> 8) & 0xFF) as u8);
    bytes.push(((v >> 16) & 0xFF) as u8);
    bytes.push(((v >> 24) & 0xFF) as u8);
}

const COL_COUNTS: [usize; 12] = [3, 3, 3, 4, 2, 3, 6, 3, 6, 3, 1, 1];

/// Builds a metadata image from a string heap, a blob heap, and per-table
/// rows of 4-byte cells.
fn build_file(strings: Vec<u8>, blobs: Vec<u8>, rows: [&[Vec<u32>]; 12]) -> File {
    let mut bytes = strings.clone();
    let blob_base = bytes.len();
    bytes.extend_from_slice(&blobs);
    let mut tables: Vec<TableData> = Vec::new();
    let mut datas: Vec<usize> = Vec::new();
    for t in 0..12 {
        datas.push(bytes.len());
        for row in rows[t] {
            assert_eq!(row.len(), COL_COUNTS[t]);
            for v in row {
                push_u32(&mut bytes, *v);
            }
        }
    }
    for t in 0..12 {
        let ncols = COL_COUNTS[t];
        tables.push(TableData {
            data: datas[t],
            row_count: rows[t].len(),
            row_size: ncols * 4,
            columns: (0..ncols).map(|c| (c * 4, 4usize)).collect(),
        });
    }
    File::new(bytes, 0, blob_base, 0, tables).expect("fixture image must be well formed")
}

/// Two namespaces of directly requested types plus a third namespace reached
/// only through a dependency.
fn windows_fixture() -> TypeReader {
    let mut h = Heap::new();
    let s_module = h.add("<Module>");
    let s_wf = h.add("Windows.Foundation");
    let s_uri = h.add("Uri");
    let s_istr = h.add("IStringable");
    let s_ui = h.add("Windows.UI");
    let s_colors = h.add("Colors");
    let s_icolors = h.add("IColorsStatics");
    let s_wfc = h.add("Windows.Foundation.Collections");
    let s_ivv = h.add("IVectorView`1");
    let s_pset = h.add("PropertySet");
    let s_system = h.add("System");
    let s_object = h.add("Object");

    let type_refs = [
        vec![0, s_object, s_system],
        vec![0, s_ivv, s_wfc],
    ];
    // extends codes: TypeRef row 0 -> (0+1)*4+1 = 5
    let type_defs = [
        vec![0, s_module, 0, 0, 1, 1],
        vec![0, s_uri, s_wf, 5, 1, 1],
        vec![0x20, s_istr, s_wf, 0, 1, 1],
        vec![0, s_colors, s_ui, 5, 1, 1],
        vec![0x20, s_icolors, s_ui, 0, 1, 1],
        vec![0x20, s_ivv, s_wfc, 0, 1, 1],
        vec![0, s_pset, s_wfc, 5, 1, 1],
    ];
    // Uri (row 1, one-based 2) implements IStringable (TypeDef row 2 ->
    // (2+1)*4 = 12) and IVectorView`1 (TypeRef row 1 -> (1+1)*4+1 = 9)
    let iface_impls = [vec![2, 12], vec![2, 9]];
    let file = build_file(
        h.bytes,
        Vec::new(),
        [
            &[], &[], &[], &[], &iface_impls, &[], &[], &[], &type_defs, &type_refs, &[], &[],
        ],
    );
    TypeReader::new(vec![file])
}

/// One enum with a constant-carrying field, one special method, and a module
/// reference with text outside ASCII.
fn enum_fixture() -> TypeReader {
    let mut h = Heap::new();
    let s_module = h.add("<Module>");
    let s_wf = h.add("Windows.Foundation");
    let s_async = h.add("AsyncStatus");
    let s_value = h.add("value__");
    let s_get = h.add("get_Current");
    let s_system = h.add("System");
    let s_enum = h.add("Enum");
    let s_cafe = h.add("Café");

    let mut blobs: Vec<u8> = Vec::new();
    let b_field_sig = blobs.len() as u32;
    blobs.extend_from_slice(&[0x02, 0x06, 0x08]);
    let b_value = blobs.len() as u32;
    blobs.extend_from_slice(&[0x04, 0x2A, 0, 0, 0]);
    let b_method_sig = blobs.len() as u32;
    blobs.extend_from_slice(&[0x03, 0x20, 0x00, 0x08]);

    let constants = [vec![0x08, 4, b_value]];
    let fields = [vec![0, s_value, b_field_sig]];
    let methods = [vec![0, 0, 0x800, s_get, b_method_sig, 1]];
    let type_defs = [
        vec![0, s_module, 0, 0, 1, 1],
        vec![0, s_async, s_wf, 5, 1, 1],
    ];
    let type_refs = [vec![0, s_enum, s_system]];
    let module_refs = [vec![s_cafe]];
    let file = build_file(
        h.bytes,
        blobs,
        [
            &constants, &[], &fields, &[], &[], &[], &methods, &[], &type_defs, &type_refs, &[],
            &module_refs,
        ],
    );
    TypeReader::new(vec![file])
}

fn child<'a>(t: &'a TypeTree, name: &str) -> &'a TypeTree {
    &t.namespaces.0.iter().find(|(n, _)| n == name).expect(name).1
}

fn has_type(t: &TypeTree, name: &str, reader: &TypeReader) -> bool {
    t.types.iter().any(|td| match &td.row {
        TypeRow::TypeDef(d) => d.name(reader).1 == name,
        _ => false,
    })
}

#[test]
fn test_dependency_inclusion() {
    let reader = windows_fixture();
    let mut limits = TypeLimits::new();
    limits
        .insert(&reader, NamespaceTypes {
            namespace: "windows.foundation".to_owned(),
            limit: TypeLimit::All,
        })
        .unwrap();
    limits
        .insert(&reader, NamespaceTypes {
            namespace: "windows.ui".to_owned(),
            limit: TypeLimit::All,
        })
        .unwrap();

    // Since Windows.Foundation depends on Windows.Foundation.Collections and
    // Windows.UI doesn't have dependencies, we should only see those namespaces.
    let root = TypeTree::from_limits(&reader, &limits).unwrap();

    // There is one root namespace.
    assert!(root.namespaces.0.len() == 1);
    let windows = child(&root, "Windows");

    // The Windows namespace will only contain Foundation and UI.
    assert!(windows.namespaces.0.len() == 2);
    let foundation = child(windows, "Foundation");
    let ui = child(windows, "UI");

    // The UI namespace will not contain any further namespaces.
    assert!(ui.namespaces.0.is_empty());

    // The Foundation namespace will contain the Collections namespace.
    assert!(foundation.namespaces.0.len() == 1);
    let collections = child(foundation, "Collections");

    // The Collections namespace will not contain any further namespaces.
    assert!(collections.namespaces.0.is_empty());

    // The root never has any types.
    assert!(root.types.is_empty());

    // The Windows namespace has no types.
    assert!(windows.types.is_empty());

    // The UI namespace has all of its types.
    assert!(has_type(ui, "Colors", &reader));
    assert!(has_type(ui, "IColorsStatics", &reader));

    // The Foundation namespace has all of its types.
    assert!(has_type(foundation, "Uri", &reader));
    assert!(has_type(foundation, "IStringable", &reader));

    // The Collections namespace only has the needed types.
    assert!(has_type(collections, "IVectorView`1", &reader));
    assert!(has_type(collections, "PropertySet", &reader) == false);
}

#[test]
fn test_no_duplicate_placement() {
    // IStringable is requested directly and reached again as a dependency of
    // Uri; it must be filed exactly once.
    let reader = windows_fixture();
    let mut limits = TypeLimits::new();
    limits
        .insert(&reader, NamespaceTypes {
            namespace: "Windows.Foundation".to_owned(),
            limit: TypeLimit::All,
        })
        .unwrap();
    let root = TypeTree::from_limits(&reader, &limits).unwrap();
    let foundation = child(child(&root, "Windows"), "Foundation");
    let count = foundation
        .types
        .iter()
        .filter(|td| match &td.row {
            TypeRow::TypeDef(d) => d.name(&reader).1 == "IStringable",
            _ => false,
        })
        .count();
    assert_eq!(count, 1);
}

#[test]
fn test_dependencies_of_uri() {
    let reader = windows_fixture();
    let uri = reader.expect_type_def(&"Windows.Foundation".to_owned(), &"Uri".to_owned());
    let deps = type_dependencies(&reader, uri).unwrap();
    // the base type System.Object is not in the registry and is skipped;
    // both implemented interfaces resolve
    let names: Vec<String> = deps.iter().map(|d| d.name(&reader).1).collect();
    assert_eq!(names, vec!["IStringable".to_owned(), "IVectorView`1".to_owned()]);
}

#[test]
fn test_equal_range_span() {
    let reader = windows_fixture();
    // both interface rows carry Uri's one-based index in the sorted class column
    let rows = reader.equal_range(0, TableIndex::InterfaceImpl, 0, 2);
    assert_eq!(rows.len(), 2);
    assert_eq!(rows[0].index, 0);
    assert_eq!(rows[1].index, 1);
    // a value no row holds yields the empty span
    let none = reader.equal_range(0, TableIndex::InterfaceImpl, 0, 5);
    assert_eq!(none.len(), 0);
}

#[test]
fn test_string_round_trip() {
    let reader = windows_fixture();
    let uri = reader.expect_type_def(&"Windows.Foundation".to_owned(), &"Uri".to_owned());
    let (namespace, name) = uri.name(&reader);
    assert_eq!(namespace, "Windows.Foundation");
    assert_eq!(name, "Uri");
}

#[test]
fn test_string_beyond_ascii() {
    let reader = enum_fixture();
    let module_ref = winmd::parsed::module_ref::ModuleRef {
        row: Row::new(0, TableIndex::ModuleRef, 0),
    };
    assert_eq!(module_ref.name(&reader), "Café");
}

#[test]
fn test_blob_round_trip() {
    let reader = enum_fixture();
    let async_status = reader.expect_type_def(
        &"Windows.Foundation".to_owned(),
        &"AsyncStatus".to_owned(),
    );
    let fields = async_status.fields(&reader);
    assert_eq!(fields.len(), 1);
    let sig = fields[0].sig(&reader);
    // the documented one-byte length prefix encodes a two-byte payload
    assert_eq!(sig.size, 2);
    let bytes = &reader.files[sig.file_index].bytes;
    assert_eq!(bytes[sig.offset], 0x06);
    assert_eq!(bytes[sig.offset + 1], 0x08);
}

#[test]
fn test_limits_case_normalization() {
    let reader = windows_fixture();
    let mut limits = TypeLimits::new();
    let r = limits.insert(&reader, NamespaceTypes {
        namespace: "wInDoWs.Ui".to_owned(),
        limit: TypeLimit::All,
    });
    assert!(r.is_ok());
    assert_eq!(limits.namespaces()[0].namespace, "Windows.UI");
}

#[test]
fn test_limits_unknown_namespace() {
    let reader = windows_fixture();
    let mut limits = TypeLimits::new();
    let r = limits.insert(&reader, NamespaceTypes {
        namespace: "No.Such.Namespace".to_owned(),
        limit: TypeLimit::All,
    });
    assert_eq!(r.unwrap_err(), "No.Such.Namespace");
    assert!(limits.namespaces().is_empty());
}

#[test]
fn test_tree_namespace_splitting() {
    let mut tree = TypeTree::new();
    let def = TypeDefinition {
        name: TypeName { namespace: "A.B.C".to_owned(), name: "T1".to_owned() },
        row: TypeRow::TypeDef(TypeDef { row: Row::new(0, TableIndex::TypeDef, 0) }),
    };
    tree.insert(&"A.B.C".to_owned(), def);
    assert_eq!(tree.namespaces.0.len(), 1);
    let a = child(&tree, "A");
    assert_eq!(a.namespaces.0.len(), 1);
    let b = child(a, "B");
    assert_eq!(b.namespaces.0.len(), 1);
    let c = child(b, "C");
    assert_eq!(c.types.len(), 1);
    // a second insertion under the same path reuses the nodes
    let def2 = TypeDefinition {
        name: TypeName { namespace: "A.B.C".to_owned(), name: "T2".to_owned() },
        row: TypeRow::TypeDef(TypeDef { row: Row::new(1, TableIndex::TypeDef, 0) }),
    };
    tree.insert(&"A.B.C".to_owned(), def2);
    assert_eq!(tree.namespaces.0.len(), 1);
    let a2 = child(&tree, "A");
    assert_eq!(a2.namespaces.0.len(), 1);
    let b2 = child(a2, "B");
    assert_eq!(b2.namespaces.0.len(), 1);
    assert_eq!(child(b2, "C").types.len(), 2);
}

#[test]
fn test_tree_remove_and_reexport() {
    let mut tree = TypeTree::new();
    let def = TypeDefinition {
        name: TypeName { namespace: "A.B".to_owned(), name: "T".to_owned() },
        row: TypeRow::TypeDef(TypeDef { row: Row::new(0, TableIndex::TypeDef, 0) }),
    };
    tree.insert(&"A.B".to_owned(), def);
    tree.remove(&"A.B".to_owned());
    let a = child(&tree, "A");
    assert!(a.namespaces.0.is_empty());
    tree.reexport();
    assert!(child(&tree, "Windows").include_foundation);
}

#[test]
fn test_underlying_type() {
    let reader = enum_fixture();
    let async_status = reader.expect_type_def(
        &"Windows.Foundation".to_owned(),
        &"AsyncStatus".to_owned(),
    );
    assert_eq!(async_status.underlying_type(&reader), Some(ElementType::I32));
}

#[test]
fn test_type_categories() {
    let reader = windows_fixture();
    let uri = reader.expect_type_def(&"Windows.Foundation".to_owned(), &"Uri".to_owned());
    assert_eq!(uri.category(&reader), TypeCategory::Class);
    let istr = reader.expect_type_def(
        &"Windows.Foundation".to_owned(),
        &"IStringable".to_owned(),
    );
    assert_eq!(istr.category(&reader), TypeCategory::Interface);
    let enum_reader = enum_fixture();
    let async_status = enum_reader.expect_type_def(
        &"Windows.Foundation".to_owned(),
        &"AsyncStatus".to_owned(),
    );
    assert_eq!(async_status.category(&enum_reader), TypeCategory::Enum);
}

#[test]
fn test_method_category_and_parent() {
    let reader = enum_fixture();
    let async_status = reader.expect_type_def(
        &"Windows.Foundation".to_owned(),
        &"AsyncStatus".to_owned(),
    );
    let methods = async_status.methods(&reader);
    assert_eq!(methods.len(), 1);
    assert_eq!(methods[0].name(&reader), "get_Current");
    assert_eq!(methods[0].category(&reader), MethodCategory::Get);
    assert_eq!(methods[0].parent(&reader).row, async_status.row);
}

#[test]
fn test_find_type_and_miss() {
    let reader = windows_fixture();
    assert!(reader
        .find_type(&"Windows.Foundation".to_owned(), &"Uri".to_owned())
        .is_some());
    assert!(reader
        .find_type(&"Windows.Foundation".to_owned(), &"Missing".to_owned())
        .is_none());
    assert!(reader
        .find_type(&"No.Such".to_owned(), &"Uri".to_owned())
        .is_none());
    // the synthetic module placeholder is never indexed
    assert!(reader.find_type(&"".to_owned(), &"<Module>".to_owned()).is_none());
}

#[test]
fn test_field_constant() {
    let reader = enum_fixture();
    let async_status = reader.expect_type_def(
        &"Windows.Foundation".to_owned(),
        &"AsyncStatus".to_owned(),
    );
    let fields = async_status.fields(&reader);
    let constants = fields[0].constants(&reader);
    assert_eq!(constants.len(), 1);
    assert_eq!(constants[0].value_type(&reader), Some(ElementType::I32));
    let value = constants[0].value(&reader);
    assert_eq!(value.size, 4);
    assert_eq!(reader.files[0].bytes[value.offset], 0x2A);
}

#[test]
fn test_malformed_image_refused() {
    // a string column pointing past the heap is rejected at load
    let mut h = Heap::new();
    let s_module = h.add("<Module>");
    let type_defs = [vec![0, s_module, 9999, 0, 1, 1]];
    let mut bytes = h.bytes.clone();
    let data = bytes.len();
    for v in &type_defs[0] {
        push_u32(&mut bytes, *v);
    }
    let mut tables: Vec<TableData> = Vec::new();
    for t in 0..12 {
        let ncols = COL_COUNTS[t];
        tables.push(TableData {
            data: if t == 8 { data } else { 0 },
            row_count: if t == 8 { 1 } else { 0 },
            row_size: ncols * 4,
            columns: (0..ncols).map(|c| (c * 4, 4usize)).collect(),
        });
    }
    assert!(File::new(bytes, 0, 0, 0, tables).is_none());
}

#[test]
fn test_limits_are_a_sorted_set() {
    let reader = windows_fixture();
    let mut limits = TypeLimits::new();
    limits
        .insert(&reader, NamespaceTypes {
            namespace: "windows.ui".to_owned(),
            limit: TypeLimit::All,
        })
        .unwrap();
    limits
        .insert(&reader, NamespaceTypes {
            namespace: "windows.foundation".to_owned(),
            limit: TypeLimit::All,
        })
        .unwrap();
    // an equal entry changes nothing
    limits
        .insert(&reader, NamespaceTypes {
            namespace: "Windows.UI".to_owned(),
            limit: TypeLimit::All,
        })
        .unwrap();
    assert_eq!(limits.namespaces().len(), 2);
    // entries come back ordered by namespace
    assert_eq!(limits.namespaces()[0].namespace, "Windows.Foundation");
    assert_eq!(limits.namespaces()[1].namespace, "Windows.UI");
}

#[test]
fn test_named_subset_limit() {
    let reader = windows_fixture();
    let mut limits = TypeLimits::new();
    limits
        .insert(&reader, NamespaceTypes {
            namespace: "Windows.Foundation".to_owned(),
            limit: TypeLimit::Only(vec!["Uri".to_owned(), "NoSuchType".to_owned()]),
        })
        .unwrap();
    let root = TypeTree::from_limits(&reader, &limits).unwrap();
    let windows = child(&root, "Windows");
    let foundation = child(windows, "Foundation");
    // the named type and its dependencies, nothing else
    assert!(has_type(foundation, "Uri", &reader));
    assert!(has_type(foundation, "IStringable", &reader));
    let collections = child(foundation, "Collections");
    assert!(has_type(collections, "IVectorView`1", &reader));
    // the unrequested sibling namespace is absent
    assert!(windows.namespaces.0.iter().all(|(n, _)| n != "UI"));
    assert!(!has_type(foundation, "PropertySet", &reader));
}

/// One class whose field is a generic instantiation and whose method returns
/// another class, so the closure must follow signature types.
fn signature_fixture() -> TypeReader {
    let mut h = Heap::new();
    let s_module = h.add("<Module>");
    let s_wf = h.add("Windows.Foundation");
    let s_alpha = h.add("Alpha");
    let s_beta = h.add("Beta");
    let s_gamma = h.add("Gamma");
    let s_wt = h.add("Windows.Test");
    let s_m = h.add("M");
    let s_fld = h.add("fld");
    let s_system = h.add("System");
    let s_object = h.add("Object");

    let mut blobs: Vec<u8> = Vec::new();
    // field: Gamma<Beta> — a generic instantiation with one argument
    let b_field_sig = blobs.len() as u32;
    blobs.extend_from_slice(&[0x07, 0x06, 0x15, 0x12, 0x09, 0x01, 0x12, 0x05]);
    // method: no parameters, returns Beta
    let b_method_sig = blobs.len() as u32;
    blobs.extend_from_slice(&[0x04, 0x20, 0x00, 0x12, 0x05]);

    let type_refs = [
        vec![0, s_beta, s_wt],
        vec![0, s_gamma, s_wt],
        vec![0, s_object, s_system],
    ];
    // extends System.Object through TypeRef row 2: (2+1)*4+1 = 13
    let type_defs = [
        vec![0, s_module, 0, 0, 1, 1],
        vec![0, s_beta, s_wt, 13, 1, 1],
        vec![0, s_gamma, s_wt, 13, 1, 1],
        vec![0, s_alpha, s_wf, 13, 1, 1],
    ];
    let fields = [vec![0, s_fld, b_field_sig]];
    let methods = [vec![0, 0, 0, s_m, b_method_sig, 1]];
    let file = build_file(
        h.bytes,
        blobs,
        [
            &[], &[], &fields, &[], &[], &[], &methods, &[], &type_defs, &type_refs, &[], &[],
        ],
    );
    TypeReader::new(vec![file])
}

#[test]
fn test_signature_dependencies() {
    let reader = signature_fixture();
    let alpha = reader.expect_type_def(&"Windows.Foundation".to_owned(), &"Alpha".to_owned());
    let deps = winmd::closure::type_dependencies(&reader, alpha).unwrap();
    let names: Vec<String> = deps.iter().map(|d| d.name(&reader).1).collect();
    // the field pulls in the instantiation's own type and its argument, the
    // method its return type; the unresolved System.Object base is skipped
    assert_eq!(
        names,
        vec!["Gamma".to_owned(), "Beta".to_owned(), "Beta".to_owned()],
    );
}

#[test]
fn test_closure_follows_signatures() {
    let reader = signature_fixture();
    let mut limits = TypeLimits::new();
    limits
        .insert(&reader, NamespaceTypes {
            namespace: "Windows.Foundation".to_owned(),
            limit: TypeLimit::Only(vec!["Alpha".to_owned()]),
        })
        .unwrap();
    let root = TypeTree::from_limits(&reader, &limits).unwrap();
    let windows = child(&root, "Windows");
    let foundation = child(windows, "Foundation");
    assert!(has_type(foundation, "Alpha", &reader));
    let test_ns = child(windows, "Test");
    assert!(has_type(test_ns, "Beta", &reader));
    assert!(has_type(test_ns, "Gamma", &reader));
    // each dependency is filed exactly once though Beta is reached twice
    assert_eq!(test_ns.types.len(), 2);
}
