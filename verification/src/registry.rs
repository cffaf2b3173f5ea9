use vstd::prelude::*;
use crate::row::{Row, TableIndex};
use crate::file::File;
use crate::type_reader::{TypeReader, TypeRow, TypeEntry, NamespaceEntry, entries_wf,
    entries_has_ns, entries_ns_index, entry_has_name, entry_name_index, find_type_in,
    ns_entry_wf, lemma_ns_index_unique, lemma_name_index_unique, type_row_ok, files_wf};
use crate::file::{rows_of, text_cell_chars};
use crate::codes::TypeCategory;
use crate::parsed::type_def::{TypeDef, typedef_category};

verus! {

/// Every stored row is a type definition the registry indexes, filed under
/// exactly its own namespace and name columns.
pub open spec fn entries_content_ok(files: Seq<File>, entries: Seq<NamespaceEntry>) -> bool {
    forall|i: int, k: int|
        0 <= i < entries.len() && 0 <= k < entries[i].types@.len() ==> ({
            let te = #[trigger] entries[i].types@[k];
            match te.row {
                TypeRow::TypeDef(d) => {
                    &&& typedef_key(files[d.row.file_index as int], d.row.index as int).0
                        == entries[i].namespace@
                    &&& typedef_key(files[d.row.file_index as int], d.row.index as int).1
                        == te.name@
                    &&& row_is_indexed(
                        files[d.row.file_index as int],
                        d.row.file_index as int,
                        d.row.index as int,
                    )
                },
                _ => false,
            }
        })
}

/// What an insertion must bring so the registry's content stays sound: a
/// type definition carries exactly its own columns as the key and is
/// indexed; any other row kind may only restate a pair that is already
/// taken, which makes the insertion a no-op.
pub open spec fn insert_content_ok(
    files: Seq<File>,
    ns: Seq<char>,
    nm: Seq<char>,
    row: TypeRow,
    entries: Seq<NamespaceEntry>,
) -> bool {
    match row {
        TypeRow::TypeDef(d) => {
            &&& typedef_key(files[d.row.file_index as int], d.row.index as int).0 == ns
            &&& typedef_key(files[d.row.file_index as int], d.row.index as int).1 == nm
            &&& row_is_indexed(
                files[d.row.file_index as int],
                d.row.file_index as int,
                d.row.index as int,
            )
        },
        _ => find_type_in(entries, ns, nm) is Some,
    }
}

/// Puts a row into the registry under a namespace and name, unless the pair
/// is already taken: the first insertion wins. Every other pair is untouched.
#[verifier::loop_isolation(false)]
pub(crate) fn registry_insert(
    Ghost(files): Ghost<Seq<File>>,
    types: &mut Vec<NamespaceEntry>,
    namespace: String,
    name: String,
    row: TypeRow,
)
    requires
        entries_wf(files, old(types)@),
        type_row_ok(files, row),
    ensures
        entries_wf(files, final(types)@),
        find_type_in(final(types)@, namespace@, name@) is Some,
        forall|ns2: Seq<char>, nm2: Seq<char>|
            !(ns2 == namespace@ && nm2 == name@) ==> #[trigger] find_type_in(
                final(types)@,
                ns2,
                nm2,
            ) == find_type_in(old(types)@, ns2, nm2),
        find_type_in(old(types)@, namespace@, name@) is Some ==> final(types)@ == old(types)@,
        entries_content_ok(files, old(types)@) && insert_content_ok(
            files,
            namespace@,
            name@,
            row,
            old(types)@,
        ) ==> entries_content_ok(files, final(types)@),
{
    let ghost old_types = types@;
    let n = types.len();
    let mut i: usize = 0;
    while i < n
        invariant
            entries_wf(files, types@),
            types@ == old_types,
            n == types@.len(),
            0 <= i <= n,
            forall|j: int| 0 <= j < i ==> (#[trigger] types@[j]).namespace@ != namespace@,
        decreases n - i,
    {
        if types[i].namespace == namespace {
            proof {
                lemma_ns_index_unique(files, types@, i as int, namespace@);
            }
            let mut e = types.remove(i);
            let m = e.types.len();
            let mut k: usize = 0;
            while k < m
                invariant
                    m == e.types@.len(),
                    0 <= k <= m,
                    forall|b: int| 0 <= b < k ==> (#[trigger] e.types@[b]).name@ != name@,
                    types@ == old_types.remove(i as int),
                    e == old_types[i as int],
                decreases m - k,
            {
                if e.types[k].name == name {
                    proof {
                        assert(ns_entry_wf(files, e));
                        lemma_name_index_unique(files, e, k as int, name@);
                    }
                    types.insert(i, e);
                    proof {
                        assert(types@ =~= old_types);
                        lemma_ns_index_unique(files, types@, i as int, namespace@);
                    }
                    return ;
                }
                k += 1;
            }
            // the name is new in this namespace
            e.types.push(TypeEntry { name, row });
            let ghost e2 = e;
            types.insert(i, e);
            proof {
                assert(types@ =~= old_types.update(i as int, e2));
                assert(ns_entry_wf(files, old_types[i as int]));
                assert forall|a: int, b: int|
                    0 <= a < b < e2.types@.len() implies e2.types@[a].name@
                    != e2.types@[b].name@ by {
                    if b == e2.types@.len() - 1 {
                        assert(e2.types@[a] == old_types[i as int].types@[a]);
                    }
                };
                assert(ns_entry_wf(files, e2));
                assert forall|j: int|
                    0 <= j < types@.len() implies ns_entry_wf(
                    files,
                    #[trigger] types@[j],
                ) by {
                    if j != i {
                        assert(types@[j] == old_types[j]);
                        assert(ns_entry_wf(files, old_types[j]));
                    }
                };
                assert(entries_wf(files, types@));
                lemma_ns_index_unique(files, types@, i as int, namespace@);
                lemma_name_index_unique(files, e2, e2.types@.len() - 1, name@);
                assert(find_type_in(types@, namespace@, name@) is Some);
                assert forall|ns2: Seq<char>, nm2: Seq<char>|
                    !(ns2 == namespace@ && nm2 == name@) implies #[trigger] find_type_in(
                    types@,
                    ns2,
                    nm2,
                ) == find_type_in(old_types, ns2, nm2) by {
                    if entries_has_ns(old_types, ns2) {
                        let w = entries_ns_index(old_types, ns2);
                        assert(old_types[w].namespace@ == ns2);
                        assert(types@[w].namespace@ == ns2);
                        lemma_ns_index_unique(files, types@, w, ns2);
                        lemma_ns_index_unique(files, old_types, w, ns2);
                        if w == i {
                            // same namespace, different name
                            if entry_has_name(old_types[w], nm2) {
                                let b = entry_name_index(old_types[w], nm2);
                                assert(e2.types@[b].name@ == nm2);
                                lemma_name_index_unique(files, e2, b, nm2);
                                lemma_name_index_unique(files, old_types[w], b, nm2);
                            } else {
                                if entry_has_name(e2, nm2) {
                                    let b = entry_name_index(e2, nm2);
                                    assert(e2.types@[b].name@ == nm2);
                                    assert(b < e2.types@.len() - 1 || nm2 == name@);
                                    assert(old_types[w].types@[b].name@ == nm2);
                                }
                            }
                        } else {
                            assert(types@[w] == old_types[w]);
                        }
                    } else {
                        if entries_has_ns(types@, ns2) {
                            let w = entries_ns_index(types@, ns2);
                            assert(types@[w].namespace@ == ns2);
                            assert(old_types[w].namespace@ == ns2);
                        }
                    }
                };
            }
            return ;
        }
        i += 1;
    }
    // the namespace is new
    let mut members: Vec<TypeEntry> = Vec::new();
    members.push(TypeEntry { name, row });
    let ghost entry_types = members@;
    types.push(NamespaceEntry { namespace, types: members });
    proof {
        let ghost new_entry = types@[old_types.len() as int];
        assert(types@ =~= old_types.push(new_entry));
        assert forall|j: int|
            0 <= j < types@.len() implies ns_entry_wf(files, #[trigger] types@[j]) by {
            if j < old_types.len() {
                assert(types@[j] == old_types[j]);
                assert(ns_entry_wf(files, old_types[j]));
            }
        };
        assert forall|a: int, b: int|
            0 <= a < b < types@.len() implies types@[a].namespace@ != types@[b].namespace@ by {
            if b < old_types.len() {
                assert(old_types[a].namespace@ != old_types[b].namespace@);
            } else {
                assert(types@[a].namespace@ != namespace@);
            }
        };
        assert(entries_wf(files, types@));
        lemma_ns_index_unique(files, types@, old_types.len() as int, namespace@);
        lemma_name_index_unique(files, new_entry, 0, name@);
        assert(find_type_in(types@, namespace@, name@) is Some);
        assert forall|ns2: Seq<char>, nm2: Seq<char>|
            !(ns2 == namespace@ && nm2 == name@) implies #[trigger] find_type_in(types@, ns2, nm2)
            == find_type_in(old_types, ns2, nm2) by {
            if entries_has_ns(old_types, ns2) {
                let w = entries_ns_index(old_types, ns2);
                assert(old_types[w].namespace@ == ns2);
                assert(types@[w].namespace@ == ns2);
                lemma_ns_index_unique(files, types@, w, ns2);
                lemma_ns_index_unique(files, old_types, w, ns2);
                assert(types@[w] == old_types[w]);
            } else {
                if entries_has_ns(types@, ns2) {
                    let w = entries_ns_index(types@, ns2);
                    assert(types@[w].namespace@ == ns2);
                    if w < old_types.len() {
                        assert(old_types[w].namespace@ == ns2);
                    } else {
                        assert(ns2 == namespace@);
                        assert(entry_has_name(new_entry, nm2) ==> nm2 == name@);
                    }
                }
            }
        };
    }
}

/// Deletes the row registered under a namespace and name, if any. Every
/// other pair is untouched.
#[verifier::loop_isolation(false)]
pub(crate) fn registry_remove(
    Ghost(files): Ghost<Seq<File>>,
    types: &mut Vec<NamespaceEntry>,
    namespace: &String,
    name: &String,
)
    requires
        entries_wf(files, old(types)@),
    ensures
        entries_wf(files, final(types)@),
        final(types)@.len() == old(types)@.len(),
        entries_content_ok(files, old(types)@) ==> entries_content_ok(files, final(types)@),
        find_type_in(final(types)@, namespace@, name@) is None,
        forall|ns2: Seq<char>, nm2: Seq<char>|
            !(ns2 == namespace@ && nm2 == name@) ==> #[trigger] find_type_in(
                final(types)@,
                ns2,
                nm2,
            ) == find_type_in(old(types)@, ns2, nm2),
{
    let ghost old_types = types@;
    let n = types.len();
    let mut i: usize = 0;
    while i < n
        invariant
            entries_wf(files, types@),
            types@ == old_types,
            n == types@.len(),
            0 <= i <= n,
            forall|j: int| 0 <= j < i ==> (#[trigger] types@[j]).namespace@ != namespace@,
        decreases n - i,
    {
        if types[i].namespace == *namespace {
            proof {
                lemma_ns_index_unique(files, types@, i as int, namespace@);
            }
            let mut e = types.remove(i);
            let m = e.types.len();
            let mut k: usize = 0;
            while k < m
                invariant
                    m == e.types@.len(),
                    0 <= k <= m,
                    forall|b: int| 0 <= b < k ==> (#[trigger] e.types@[b]).name@ != name@,
                    types@ == old_types.remove(i as int),
                    e == old_types[i as int],
                decreases m - k,
            {
                if e.types[k].name == *name {
                    proof {
                        assert(ns_entry_wf(files, e));
                    }
                    let ghost e_old = e;
                    e.types.remove(k);
                    let ghost e2 = e;
                    types.insert(i, e);
                    proof {
                        assert(e2.types@ =~= e_old.types@.remove(k as int));
                        assert(types@ =~= old_types.update(i as int, e2));
                        assert forall|a: int, b: int|
                            0 <= a < b < e2.types@.len() implies e2.types@[a].name@
                            != e2.types@[b].name@ by {
                            let a0 = if a < k { a } else { a + 1 };
                            let b0 = if b < k { b } else { b + 1 };
                            assert(e2.types@[a] == e_old.types@[a0]);
                            assert(e2.types@[b] == e_old.types@[b0]);
                        };
                        assert forall|b: int|
                            0 <= b < e2.types@.len() implies type_row_ok(
                            files,
                            (#[trigger] e2.types@[b]).row,
                        ) by {
                            let b0 = if b < k { b } else { b + 1 };
                            assert(e2.types@[b] == e_old.types@[b0]);
                        };
                        assert(ns_entry_wf(files, e2));
                        assert forall|j: int|
                            0 <= j < types@.len() implies ns_entry_wf(
                            files,
                            #[trigger] types@[j],
                        ) by {
                            if j != i {
                                assert(types@[j] == old_types[j]);
                                assert(ns_entry_wf(files, old_types[j]));
                            }
                        };
                        assert(entries_wf(files, types@));
                        lemma_ns_index_unique(files, types@, i as int, namespace@);
                        if entry_has_name(e2, name@) {
                            let b = entry_name_index(e2, name@);
                            let b0 = if b < k { b } else { b + 1 };
                            assert(e2.types@[b] == e_old.types@[b0]);
                            assert(e_old.types@[b0].name@ != e_old.types@[k as int].name@);
                        }
                        assert(find_type_in(types@, namespace@, name@) is None);
                        assert forall|ns2: Seq<char>, nm2: Seq<char>|
                            !(ns2 == namespace@ && nm2 == name@) implies #[trigger] find_type_in(
                            types@,
                            ns2,
                            nm2,
                        ) == find_type_in(old_types, ns2, nm2) by {
                            if entries_has_ns(old_types, ns2) {
                                let w = entries_ns_index(old_types, ns2);
                                assert(old_types[w].namespace@ == ns2);
                                assert(types@[w].namespace@ == ns2);
                                lemma_ns_index_unique(files, types@, w, ns2);
                                lemma_ns_index_unique(files, old_types, w, ns2);
                                if w == i {
                                    if entry_has_name(e2, nm2) {
                                        let b = entry_name_index(e2, nm2);
                                        let b0 = if b < k { b } else { b + 1 };
                                        assert(e2.types@[b] == e_old.types@[b0]);
                                        lemma_name_index_unique(files, e2, b, nm2);
                                        lemma_name_index_unique(files, e_old, b0, nm2);
                                    } else {
                                        if entry_has_name(e_old, nm2) {
                                            let b0 = entry_name_index(e_old, nm2);
                                            assert(e_old.types@[b0].name@ == nm2);
                                            assert(b0 != k);
                                            let b = if b0 < k { b0 } else { b0 - 1 };
                                            assert(e2.types@[b] == e_old.types@[b0]);
                                        }
                                    }
                                } else {
                                    assert(types@[w] == old_types[w]);
                                }
                            } else {
                                if entries_has_ns(types@, ns2) {
                                    let w = entries_ns_index(types@, ns2);
                                    assert(types@[w].namespace@ == ns2);
                                    assert(old_types[w].namespace@ == ns2);
                                }
                            }
                        };
                    }
                    return ;
                }
                k += 1;
            }
            types.insert(i, e);
            proof {
                assert(types@ =~= old_types);
                lemma_ns_index_unique(files, types@, i as int, namespace@);
                if entry_has_name(old_types[i as int], name@) {
                    let b = entry_name_index(old_types[i as int], name@);
                    assert(old_types[i as int].types@[b].name@ != name@);
                }
            }
            return ;
        }
        i += 1;
    }
    proof {
        if entries_has_ns(types@, namespace@) {
            let w = entries_ns_index(types@, namespace@);
            assert(types@[w].namespace@ == namespace@);
        }
    }
}

/// The namespace and name columns of type definition `i` of a file.
pub open spec fn typedef_key(f: File, i: int) -> (Seq<char>, Seq<char>) {
    (
        text_cell_chars(f, TableIndex::TypeDef, i, 2),
        text_cell_chars(f, TableIndex::TypeDef, i, 1),
    )
}

/// The registry indexes type definition `i` of a file: it is not the
/// synthetic module placeholder, and its category is one the registry keeps.
pub open spec fn row_is_indexed(f: File, fidx: int, i: int) -> bool {
    &&& !(typedef_key(f, i).0 =~= Seq::<char>::empty() && typedef_key(f, i).1 == "<Module>"@)
    &&& match typedef_category(f, fidx, i) {
        TypeCategory::Interface => true,
        TypeCategory::Enum => true,
        TypeCategory::Delegate => true,
        TypeCategory::Struct => true,
        TypeCategory::Class => true,
        _ => false,
    }
}

/// The namespace/name pairs that are force-removed after the build as known
/// duplicates in the input files.
pub open spec fn removed_key(ns: Seq<char>, nm: Seq<char>) -> bool {
    ||| (ns == "Windows.Foundation"@ && nm == "HResult"@)
    ||| (ns == "Windows.Win32"@ && nm == "IUnknown"@)
    ||| (ns == "Windows.Win32"@ && nm == "CFunctionDiscoveryNotificationWrapper"@)
}

/// Every indexed type definition lexicographically before `(fi, i)` resolves
/// in the registry.
pub open spec fn built_upto(
    files: Seq<File>,
    entries: Seq<NamespaceEntry>,
    fi: int,
    i: int,
) -> bool {
    forall|f2: int, i2: int|
        0 <= f2 < files.len() && 0 <= i2 < rows_of(files[f2], TableIndex::TypeDef) && (f2 < fi || (
        f2 == fi && i2 < i)) && #[trigger] row_is_indexed(files[f2], f2, i2) ==> find_type_in(
            entries,
            typedef_key(files[f2], i2).0,
            typedef_key(files[f2], i2).1,
        ) is Some

}

/// A registry that resolves a pair keeps resolving it when the registry only
/// grows.
proof fn lemma_built_upto_mono(
    files: Seq<File>,
    old_e: Seq<NamespaceEntry>,
    new_e: Seq<NamespaceEntry>,
    fi: int,
    i: int,
)
    requires
        built_upto(files, old_e, fi, i),
        forall|ns2: Seq<char>, nm2: Seq<char>|
            find_type_in(old_e, ns2, nm2) is Some ==> #[trigger] find_type_in(
                new_e,
                ns2,
                nm2,
            ) is Some,
    ensures
        built_upto(files, new_e, fi, i),
{
}

impl TypeReader {
    /// Builds a reader over the given files: a single pass over every type
    /// definition of every file, skipping the synthetic module placeholder,
    /// indexing each type the registry keeps under its namespace and name
    /// with the first insertion winning, and force-removing the known-bad
    /// duplicate entries at the end.
    #[verifier::loop_isolation(false)]
    pub fn new(files: Vec<File>) -> (r: TypeReader)
        requires
            files_wf(files@),
        ensures
            r.wf(),
            r.files@ == files@,
            forall|fi: int, i: int|
                0 <= fi < files@.len() && 0 <= i < rows_of(files@[fi], TableIndex::TypeDef)
                    && #[trigger] row_is_indexed(files@[fi], fi, i) && !removed_key(
                    typedef_key(files@[fi], i).0,
                    typedef_key(files@[fi], i).1,
                ) ==> find_type_in(
                    r.types@,
                    typedef_key(files@[fi], i).0,
                    typedef_key(files@[fi], i).1,
                ) is Some,
            entries_content_ok(files@, r.types@),
            find_type_in(r.types@, "Windows.Foundation"@, "HResult"@) is None,
            find_type_in(r.types@, "Windows.Win32"@, "IUnknown"@) is None,
            find_type_in(
                r.types@,
                "Windows.Win32"@,
                "CFunctionDiscoveryNotificationWrapper"@,
            ) is None,
            files@.len() == 0 ==> r.types@.len() == 0,
    {
        let mut reader = TypeReader { files, types: Vec::new() };
        let ghost fseq = reader.files@;
        let mut types: Vec<NamespaceEntry> = Vec::new();
        let nf = reader.files.len();
        let mut fi: usize = 0;
        while fi < nf
            invariant
                entries_wf(fseq, types@),
                entries_content_ok(fseq, types@),
                0 <= fi <= nf,
                built_upto(fseq, types@, fi as int, 0),
                fseq.len() == 0 ==> types@.len() == 0,
            decreases nf - fi,
        {
            let rc = reader.row_count(fi, TableIndex::TypeDef);
            let mut i: usize = 0;
            while i < rc
                invariant
                    entries_wf(fseq, types@),
                    entries_content_ok(fseq, types@),
                    0 <= i <= rc,
                    built_upto(fseq, types@, fi as int, i as int),
                decreases rc - i,
            {
                let row = Row::new(i, TableIndex::TypeDef, fi);
                let def = TypeDef { row };
                let (namespace, name) = def.name(&reader);
                let module_name: String = "<Module>".to_owned();
                let ghost key = typedef_key(fseq[fi as int], i as int);
                if namespace.as_str().is_empty() && name == module_name {
                    proof {
                        assert(key.0 =~= Seq::<char>::empty());
                        assert(!row_is_indexed(fseq[fi as int], fi as int, i as int));
                    }
                } else {
                    let ghost pre = types@;
                    let cat = def.category(&reader);
                    match cat {
                        TypeCategory::Interface | TypeCategory::Enum | TypeCategory::Delegate
                            | TypeCategory::Struct => {
                            proof {
                                if key.0 =~= Seq::<char>::empty() {
                                    assert(namespace@.len() == 0);
                                }
                                assert(row_is_indexed(fseq[fi as int], fi as int, i as int));
                                assert(insert_content_ok(
                                    fseq,
                                    namespace@,
                                    name@,
                                    TypeRow::TypeDef(def),
                                    types@,
                                ));
                            }
                            registry_insert(
                                Ghost(fseq),
                                &mut types,
                                namespace,
                                name,
                                TypeRow::TypeDef(def),
                            );
                            proof {
                                lemma_built_upto_mono(fseq, pre, types@, fi as int, i as int);
                            }
                        },
                        TypeCategory::Class => {
                            proof {
                                if key.0 =~= Seq::<char>::empty() {
                                    assert(namespace@.len() == 0);
                                }
                                assert(row_is_indexed(fseq[fi as int], fi as int, i as int));
                                assert(insert_content_ok(
                                    fseq,
                                    namespace@,
                                    name@,
                                    TypeRow::TypeDef(def),
                                    types@,
                                ));
                            }
                            registry_insert(
                                Ghost(fseq),
                                &mut types,
                                namespace.clone(),
                                name.clone(),
                                TypeRow::TypeDef(def),
                            );
                            proof {
                                lemma_built_upto_mono(fseq, pre, types@, fi as int, i as int);
                            }
                            if !def.is_winrt(&reader) {
                                let members = def.fields(&reader);
                                let mut k: usize = 0;
                                while k < members.len()
                                    invariant
                                        entries_wf(fseq, types@),
                                        entries_content_ok(fseq, types@),
                                        0 <= k <= members@.len(),
                                        built_upto(fseq, types@, fi as int, i as int),
                                        find_type_in(types@, key.0, key.1) is Some,
                                    decreases members@.len() - k,
                                {
                                    let ghost pre2 = types@;
                                    registry_insert(
                                        Ghost(fseq),
                                        &mut types,
                                        namespace.clone(),
                                        name.clone(),
                                        TypeRow::Field(members[k]),
                                    );
                                    proof {
                                        lemma_built_upto_mono(
                                            fseq,
                                            pre2,
                                            types@,
                                            fi as int,
                                            i as int,
                                        );
                                    }
                                    k += 1;
                                }
                                let methods = def.methods(&reader);
                                let mut k2: usize = 0;
                                while k2 < methods.len()
                                    invariant
                                        entries_wf(fseq, types@),
                                        entries_content_ok(fseq, types@),
                                        0 <= k2 <= methods@.len(),
                                        built_upto(fseq, types@, fi as int, i as int),
                                        find_type_in(types@, key.0, key.1) is Some,
                                    decreases methods@.len() - k2,
                                {
                                    let ghost pre2 = types@;
                                    registry_insert(
                                        Ghost(fseq),
                                        &mut types,
                                        namespace.clone(),
                                        name.clone(),
                                        TypeRow::MethodDef(methods[k2]),
                                    );
                                    proof {
                                        lemma_built_upto_mono(
                                            fseq,
                                            pre2,
                                            types@,
                                            fi as int,
                                            i as int,
                                        );
                                    }
                                    k2 += 1;
                                }
                            }
                        },
                        _ => {
                            proof {
                                assert(!row_is_indexed(fseq[fi as int], fi as int, i as int));
                            }
                        },
                    }
                }
                i += 1;
                proof {
                    assert(built_upto(fseq, types@, fi as int, i as int));
                }
            }
            fi += 1;
            proof {
                assert forall|f2: int, i2: int|
                    0 <= f2 < fseq.len() && 0 <= i2 < rows_of(fseq[f2], TableIndex::TypeDef) && (
                f2 < fi || (f2 == fi && i2 < 0)) && #[trigger] row_is_indexed(
                    fseq[f2],
                    f2,
                    i2,
                ) implies find_type_in(
                    types@,
                    typedef_key(fseq[f2], i2).0,
                    typedef_key(fseq[f2], i2).1,
                ) is Some by {
                    assert(f2 < fi - 1 || (f2 == fi - 1 && i2 < rows_of(
                        fseq[f2],
                        TableIndex::TypeDef,
                    )));
                };
            }
        }
        let ghost before_removal = types@;
        registry_remove(
            Ghost(fseq),
            &mut types,
            &"Windows.Foundation".to_owned(),
            &"HResult".to_owned(),
        );
        registry_remove(
            Ghost(fseq),
            &mut types,
            &"Windows.Win32".to_owned(),
            &"IUnknown".to_owned(),
        );
        registry_remove(
            Ghost(fseq),
            &mut types,
            &"Windows.Win32".to_owned(),
            &"CFunctionDiscoveryNotificationWrapper".to_owned(),
        );
        proof {
            reveal_strlit("Windows.Foundation");
            reveal_strlit("Windows.Win32");
            reveal_strlit("HResult");
            reveal_strlit("IUnknown");
            reveal_strlit("CFunctionDiscoveryNotificationWrapper");
            assert("Windows.Foundation"@.len() == 18);
            assert("Windows.Win32"@.len() == 13);
            assert("HResult"@.len() == 7);
            assert("IUnknown"@.len() == 8);
            assert("CFunctionDiscoveryNotificationWrapper"@.len() == 37);
            assert("Windows.Foundation"@ != "Windows.Win32"@);
            assert("HResult"@ != "IUnknown"@);
            assert("IUnknown"@ != "CFunctionDiscoveryNotificationWrapper"@);
            assert forall|fi2: int, i2: int|
                0 <= fi2 < fseq.len() && 0 <= i2 < rows_of(fseq[fi2], TableIndex::TypeDef)
                    && #[trigger] row_is_indexed(fseq[fi2], fi2, i2) && !removed_key(
                    typedef_key(fseq[fi2], i2).0,
                    typedef_key(fseq[fi2], i2).1,
                ) implies find_type_in(
                    types@,
                    typedef_key(fseq[fi2], i2).0,
                    typedef_key(fseq[fi2], i2).1,
                ) is Some by {
                assert(find_type_in(
                    before_removal,
                    typedef_key(fseq[fi2], i2).0,
                    typedef_key(fseq[fi2], i2).1,
                ) is Some);
            };
        }
        reader.types = types;
        reader
    }
}

} // verus!
