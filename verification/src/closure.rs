use vstd::prelude::*;
use crate::row::{Row, TableIndex};
use crate::file::{File, file_wf, cell_wf, cell_value, text_cell_chars, rows_of, blob_parse,
    list_first, list_last};
use crate::blob::{Blob, read_unsigned_spec, skip_modifiers_spec};
use crate::codes::{Decode, TypeDefOrRef};
use crate::type_reader::{TypeReader, TypeRow, find_type_in, files_wf, row_valid,
    lemma_adjacent_sorted};
use crate::parsed::type_def::TypeDef;
use crate::parsed::type_ref::TypeRef;
use crate::parsed::method_def::MethodDef;
use crate::naming::TypeName;
use crate::type_limits::{TypeLimits, TypeLimit};
use crate::type_reader::{entries_has_ns, entries_ns_index, entry_has_name, entry_name_index,
    ns_entry_wf, type_row_ok, lemma_ns_index_unique, lemma_name_index_unique};
use crate::type_tree::{TypeTree, TypeDefinition, spec_split, is_prefix_of};
use vstd::seq_lib::group_seq_properties;
use vstd::set_lib::{set_int_range, lemma_int_range, lemma_len_subset};

verus! {

/// The registry row a type reference resolves to, when it names a type
/// definition; `None` otherwise.
pub open spec fn resolve_ref_spec(reader: TypeReader, f: File, tri: int) -> Option<Row> {
    match find_type_in(
        reader.types@,
        text_cell_chars(f, TableIndex::TypeRef, tri, 2),
        text_cell_chars(f, TableIndex::TypeRef, tri, 1),
    ) {
        Option::Some(TypeRow::TypeDef(d)) => Option::Some(d.row),
        _ => Option::None,
    }
}

/// The dependency a compressed type token pulls in: the named type
/// definition, or `None` when it points elsewhere or resolves to none.
pub open spec fn resolve_token_spec(reader: TypeReader, f: File, fidx: int, token: int) -> Option<
    Row,
> {
    let tag = token % 4;
    let idx = token / 4;
    if idx == 0 {
        Option::None
    } else if tag == 0 && idx - 1 < rows_of(f, TableIndex::TypeDef) {
        Option::Some(
            Row { index: (idx - 1) as usize, table_index: TableIndex::TypeDef, file_index: fidx as usize },
        )
    } else if tag == 1 && idx - 1 < rows_of(f, TableIndex::TypeRef) {
        resolve_ref_spec(reader, f, idx - 1)
    } else {
        Option::None
    }
}

/// Whether a signature element code is a self-contained leaf: a primitive,
/// the string or object types, or the native integer types.
pub open spec fn leaf_element_code(code: int) -> bool {
    ||| code == 0x01
    ||| (0x02 <= code && code <= 0x0E)
    ||| code == 0x18
    ||| code == 0x19
    ||| code == 0x1C
}

/// All compressed type tokens one type signature names, read from `off`:
/// past custom modifiers and pointer, reference, array or pinned marks, a
/// leaf names none, a class or value type names itself, a generic variable
/// names none, and a generic instantiation names its own type followed by
/// everything its argument types name. `None` marks unreadable bytes.
pub open spec fn type_tokens_spec(bytes: Seq<u8>, off: int, end: int) -> Option<(Seq<int>, int)>
    decreases end - off, 0int, 0int,
{
    match skip_modifiers_spec(bytes, off, end) {
        Option::None => Option::None,
        Option::Some(o0) => match read_unsigned_spec(bytes, o0, end) {
            Option::None => Option::None,
            Option::Some(v) => {
                let code = v.0;
                let o1 = v.1;
                if leaf_element_code(code) {
                    Option::Some((Seq::empty(), o1))
                } else if code == 0x0F || code == 0x10 || code == 0x1D || code == 0x45 {
                    if off < o1 <= end {
                        type_tokens_spec(bytes, o1, end)
                    } else {
                        Option::None
                    }
                } else if code == 0x11 || code == 0x12 {
                    match read_unsigned_spec(bytes, o1, end) {
                        Option::Some(t) => Option::Some((seq![t.0], t.1)),
                        Option::None => Option::None,
                    }
                } else if code == 0x13 || code == 0x1E {
                    match read_unsigned_spec(bytes, o1, end) {
                        Option::Some(ix) => Option::Some((Seq::empty(), ix.1)),
                        Option::None => Option::None,
                    }
                } else if code == 0x15 {
                    match read_unsigned_spec(bytes, o1, end) {
                        Option::None => Option::None,
                        Option::Some(k) => match read_unsigned_spec(bytes, k.1, end) {
                            Option::None => Option::None,
                            Option::Some(t) => match read_unsigned_spec(bytes, t.1, end) {
                                Option::None => Option::None,
                                Option::Some(n) => if off < n.1 <= end {
                                    match type_args_spec(bytes, n.1, end, n.0) {
                                        Option::None => Option::None,
                                        Option::Some(a) => Option::Some((seq![t.0] + a.0, a.1)),
                                    }
                                } else {
                                    Option::None
                                },
                            },
                        },
                    }
                } else {
                    Option::None
                }
            },
        },
    }
}

/// The tokens of `n` type signatures in sequence, as a generic
/// instantiation's argument list or a method's parameter list holds them.
pub open spec fn type_args_spec(bytes: Seq<u8>, off: int, end: int, n: int) -> Option<
    (Seq<int>, int),
>
    decreases end - off, 1int, n,
{
    if n <= 0 {
        Option::Some((Seq::empty(), off))
    } else {
        match type_tokens_spec(bytes, off, end) {
            Option::None => Option::None,
            Option::Some(h) => if off < h.1 <= end {
                match type_args_spec(bytes, h.1, end, n - 1) {
                    Option::None => Option::None,
                    Option::Some(r) => Option::Some((h.0 + r.0, r.1)),
                }
            } else {
                Option::None
            },
        }
    }
}

/// Reading one type signature always advances, and never past the end.
proof fn lemma_type_tokens_advances(bytes: Seq<u8>, off: int, end: int)
    ensures
        type_tokens_spec(bytes, off, end) matches Option::Some(tk) ==> off < tk.1 <= end,
    decreases end - off, 0int, 0int,
{
    lemma_skip_modifiers_ge(bytes, off, end);
    match skip_modifiers_spec(bytes, off, end) {
        Option::None => {},
        Option::Some(o0) => match read_unsigned_spec(bytes, o0, end) {
            Option::None => {},
            Option::Some(v) => {
                let code = v.0;
                let o1 = v.1;
                if code == 0x0F || code == 0x10 || code == 0x1D || code == 0x45 {
                    if off < o1 <= end {
                        lemma_type_tokens_advances(bytes, o1, end);
                    }
                } else if code == 0x15 {
                    match read_unsigned_spec(bytes, o1, end) {
                        Option::None => {},
                        Option::Some(k) => match read_unsigned_spec(bytes, k.1, end) {
                            Option::None => {},
                            Option::Some(t) => match read_unsigned_spec(bytes, t.1, end) {
                                Option::None => {},
                                Option::Some(n) => {
                                    if off < n.1 <= end {
                                        lemma_type_args_bounds(bytes, n.1, end, n.0);
                                    }
                                },
                            },
                        },
                    }
                }
            },
        },
    }
}

/// Reading an argument list never moves backward, nor past the end.
proof fn lemma_type_args_bounds(bytes: Seq<u8>, off: int, end: int, n: int)
    requires
        off <= end,
    ensures
        type_args_spec(bytes, off, end, n) matches Option::Some(a) ==> off <= a.1 <= end,
    decreases end - off, 1int, n,
{
    if n > 0 {
        lemma_type_tokens_advances(bytes, off, end);
        match type_tokens_spec(bytes, off, end) {
            Option::None => {},
            Option::Some(h) => {
                if off < h.1 <= end {
                    lemma_type_args_bounds(bytes, h.1, end, n - 1);
                }
            },
        }
    }
}

/// The dependencies a run of type tokens pulls in: each token that names a
/// registry type definition, in order.
pub open spec fn tokens_to_deps(reader: TypeReader, f: File, fidx: int, toks: Seq<int>) -> Seq<
    Row,
>
    decreases toks.len(),
{
    if toks.len() == 0 {
        Seq::empty()
    } else {
        tokens_to_deps(reader, f, fidx, toks.drop_last()) + (match resolve_token_spec(
            reader,
            f,
            fidx,
            toks.last(),
        ) {
            Option::Some(r) => seq![r],
            Option::None => Seq::empty(),
        })
    }
}

/// The dependencies one interface-implementation row pulls in: a type
/// definition directly, through a resolving reference, or everything a
/// type-specification blob's signature names; `None` marks an unreadable
/// blob.
pub open spec fn iface_deps_spec(reader: TypeReader, f: File, fidx: int, k: int) -> Option<
    Seq<Row>,
> {
    match TypeDefOrRef::decode_spec(cell_value(f, TableIndex::InterfaceImpl, k, 1), fidx, f) {
        Option::Some(TypeDefOrRef::TypeDef(td)) => Option::Some(seq![td.row]),
        Option::Some(TypeDefOrRef::TypeRef(tr)) => Option::Some(
            match resolve_ref_spec(reader, f, tr.row.index as int) {
                Option::Some(r) => seq![r],
                Option::None => Seq::empty(),
            },
        ),
        Option::Some(TypeDefOrRef::TypeSpec(ts)) => {
            match blob_parse(f.bytes@, f.blobs + cell_value(f, TableIndex::TypeSpec, ts.row.index as int, 0)) {
                Option::Some(sn) => match type_tokens_spec(f.bytes@, sn.0, sn.0 + sn.1) {
                    Option::Some(tk) => Option::Some(tokens_to_deps(reader, f, fidx, tk.0)),
                    Option::None => Option::None,
                },
                Option::None => Option::None,
            }
        },
        Option::None => Option::Some(Seq::empty()),
    }
}

/// The dependencies one field row pulls in through its signature blob:
/// everything the field's type signature names.
pub open spec fn field_deps_spec(reader: TypeReader, f: File, fidx: int, k: int) -> Option<
    Seq<Row>,
> {
    match blob_parse(f.bytes@, f.blobs + cell_value(f, TableIndex::Field, k, 2)) {
        Option::Some(sn) => {
            let end = sn.0 + sn.1;
            match read_unsigned_spec(f.bytes@, sn.0, end) {
                Option::Some(conv) => match type_tokens_spec(f.bytes@, conv.1, end) {
                    Option::Some(tk) => Option::Some(tokens_to_deps(reader, f, fidx, tk.0)),
                    Option::None => Option::None,
                },
                Option::None => Option::None,
            }
        },
        Option::None => Option::None,
    }
}

/// The dependencies one method row pulls in through its signature blob:
/// everything the return type and every parameter type name. A generic
/// method's parameter count follows its generic parameter count.
pub open spec fn method_deps_spec(reader: TypeReader, f: File, fidx: int, m: int) -> Option<
    Seq<Row>,
> {
    match blob_parse(f.bytes@, f.blobs + cell_value(f, TableIndex::MethodDef, m, 4)) {
        Option::Some(sn) => {
            let end = sn.0 + sn.1;
            match read_unsigned_spec(f.bytes@, sn.0, end) {
                Option::None => Option::None,
                Option::Some(conv) => {
                    let generic = (conv.0 / 16) % 2 == 1;
                    if generic {
                        match read_unsigned_spec(f.bytes@, conv.1, end) {
                            Option::None => Option::None,
                            Option::Some(g) => method_tail_deps_spec(reader, f, fidx, g.1, end),
                        }
                    } else {
                        method_tail_deps_spec(reader, f, fidx, conv.1, end)
                    }
                },
            }
        },
        Option::None => Option::None,
    }
}

/// The dependencies of a method signature past its calling convention: the
/// parameter count, the return type, then that many parameter types.
pub open spec fn method_tail_deps_spec(
    reader: TypeReader,
    f: File,
    fidx: int,
    off: int,
    end: int,
) -> Option<Seq<Row>> {
    match read_unsigned_spec(f.bytes@, off, end) {
        Option::None => Option::None,
        Option::Some(pn) => match type_tokens_spec(f.bytes@, pn.1, end) {
            Option::None => Option::None,
            Option::Some(rt) => match type_args_spec(f.bytes@, rt.1, end, pn.0) {
                Option::None => Option::None,
                Option::Some(ps) => Option::Some(tokens_to_deps(reader, f, fidx, rt.0 + ps.0)),
            },
        },
    }
}

/// The dependencies the interface rows at or after `k` pull in for the type
/// definition `class`; `None` marks an unreadable blob.
pub open spec fn ifaces_deps_from(
    reader: TypeReader,
    f: File,
    fidx: int,
    class: int,
    k: int,
) -> Option<Seq<Row>>
    decreases rows_of(f, TableIndex::InterfaceImpl) - k,
{
    if k < 0 || k >= rows_of(f, TableIndex::InterfaceImpl) {
        Option::Some(Seq::empty())
    } else {
        match ifaces_deps_from(reader, f, fidx, class, k + 1) {
            Option::None => Option::None,
            Option::Some(rest) => {
                if cell_value(f, TableIndex::InterfaceImpl, k, 0) == class + 1 {
                    match iface_deps_spec(reader, f, fidx, k) {
                        Option::None => Option::None,
                        Option::Some(c) => Option::Some(c + rest),
                    }
                } else {
                    Option::Some(rest)
                }
            },
        }
    }
}

/// The dependencies the field rows of `[k, last)` pull in; `None` marks an
/// unreadable signature.
pub open spec fn fields_deps_from(
    reader: TypeReader,
    f: File,
    fidx: int,
    k: int,
    last: int,
) -> Option<Seq<Row>>
    decreases last - k,
{
    if k < 0 || k >= last {
        Option::Some(Seq::empty())
    } else {
        match fields_deps_from(reader, f, fidx, k + 1, last) {
            Option::None => Option::None,
            Option::Some(rest) => match field_deps_spec(reader, f, fidx, k) {
                Option::None => Option::None,
                Option::Some(c) => Option::Some(c + rest),
            },
        }
    }
}

/// The dependencies the method rows of `[k, last)` pull in; `None` marks an
/// unreadable signature.
pub open spec fn methods_deps_from(
    reader: TypeReader,
    f: File,
    fidx: int,
    k: int,
    last: int,
) -> Option<Seq<Row>>
    decreases last - k,
{
    if k < 0 || k >= last {
        Option::Some(Seq::empty())
    } else {
        match methods_deps_from(reader, f, fidx, k + 1, last) {
            Option::None => Option::None,
            Option::Some(rest) => match method_deps_spec(reader, f, fidx, k) {
                Option::None => Option::None,
                Option::Some(c) => Option::Some(c + rest),
            },
        }
    }
}

/// The dependency a type's base pulls in, if it names a type definition the
/// registry knows.
pub open spec fn base_dep_spec(reader: TypeReader, f: File, fidx: int, i: int) -> Option<Row> {
    match TypeDefOrRef::decode_spec(cell_value(f, TableIndex::TypeDef, i, 3), fidx, f) {
        Option::Some(TypeDefOrRef::TypeDef(td)) => Option::Some(td.row),
        Option::Some(TypeDefOrRef::TypeRef(tr)) => resolve_ref_spec(reader, f, tr.row.index as int),
        _ => Option::None,
    }
}

/// Everything a type definition requires before it can be filed: its base
/// type, its implemented interfaces, and every type its field and method
/// signatures name, each resolved against the registry; `None` marks an
/// unreadable blob.
#[verifier::opaque]
pub open spec fn deps_spec(reader: TypeReader, fidx: int, i: int) -> Option<Seq<Row>> {
    let f = reader.files@[fidx];
    match ifaces_deps_from(reader, f, fidx, i, 0) {
        Option::None => Option::None,
        Option::Some(ifs) => match fields_deps_from(
            reader,
            f,
            fidx,
            list_first(f, TableIndex::TypeDef, i, 4),
            list_last(f, TableIndex::TypeDef, i, 4, TableIndex::Field),
        ) {
            Option::None => Option::None,
            Option::Some(flds) => match methods_deps_from(
                reader,
                f,
                fidx,
                list_first(f, TableIndex::TypeDef, i, 5),
                list_last(f, TableIndex::TypeDef, i, 5, TableIndex::MethodDef),
            ) {
                Option::None => Option::None,
                Option::Some(mths) => match base_dep_spec(reader, f, fidx, i) {
                    Option::Some(b) => Option::Some(seq![b] + ifs + flds + mths),
                    Option::None => Option::Some(ifs + flds + mths),
                },
            },
        },
    }
}

/// Why a closure build stops: a blob whose bytes cannot be read as the
/// format demands. Malformed input is fatal, not recoverable.
#[derive(Copy, Clone, PartialEq, Eq, Structural, Debug)]
pub enum ClosureError {
    UnreadableBlob,
}

/// Resolves a type reference against the registry; the named type
/// definition, or `None` when the registry maps the pair elsewhere or not at
/// all.
fn resolve_ref(reader: &TypeReader, tr: TypeRef) -> (r: Option<TypeDef>)
    requires
        reader.wf(),
        tr.wf(*reader),
    ensures
        ({
            let found = resolve_ref_spec(*reader, reader.file_of(tr.row), tr.row.index as int);
            match r {
                Option::Some(d) => found == Option::Some(d.row) && d.row.table_index
                    == TableIndex::TypeDef && row_valid(reader.files@, d.row),
                Option::None => found is None,
            }
        }),
{
    let (namespace, name) = tr.name(reader);
    match reader.find_type(&namespace, &name) {
        Option::Some(TypeRow::TypeDef(d)) => {
            proof {
                let e = reader.types@[crate::type_reader::entries_ns_index(
                    reader.types@,
                    namespace@,
                )];
                assert(ns_entry_wf(reader.files@, e));
                assert(type_row_ok(
                    reader.files@,
                    e.types@[entry_name_index(e, name@)].row,
                ));
            }
            Option::Some(d)
        },
        _ => Option::None,
    }
}

/// Resolves a compressed type token against the registry.
fn resolve_token(reader: &TypeReader, file_index: usize, token: u32) -> (r: Option<TypeDef>)
    requires
        reader.wf(),
        file_index < reader.files@.len(),
    ensures
        ({
            let found = resolve_token_spec(
                *reader,
                reader.files@[file_index as int],
                file_index as int,
                token as int,
            );
            match r {
                Option::Some(d) => found == Option::Some(d.row) && d.row.table_index
                    == TableIndex::TypeDef && row_valid(reader.files@, d.row),
                Option::None => found is None,
            }
        }),
{
    let tag = token % 4;
    let idx = (token / 4) as usize;
    if idx == 0 {
        Option::None
    } else if tag == 0 {
        if idx - 1 < reader.row_count(file_index, TableIndex::TypeDef) {
            Option::Some(
                TypeDef {
                    row: Row { index: idx - 1, table_index: TableIndex::TypeDef, file_index },
                },
            )
        } else {
            Option::None
        }
    } else if tag == 1 {
        if idx - 1 < reader.row_count(file_index, TableIndex::TypeRef) {
            let tr = TypeRef {
                row: Row { index: idx - 1, table_index: TableIndex::TypeRef, file_index },
            };
            resolve_ref(reader, tr)
        } else {
            Option::None
        }
    } else {
        Option::None
    }
}

/// Skipping modifiers never moves backward.
proof fn lemma_skip_modifiers_ge(bytes: Seq<u8>, off: int, end: int)
    ensures
        skip_modifiers_spec(bytes, off, end) matches Option::Some(o) ==> o >= off,
    decreases end - off,
{
    match read_unsigned_spec(bytes, off, end) {
        Option::None => {},
        Option::Some(v) => {
            if v.0 == 31 || v.0 == 32 {
                match read_unsigned_spec(bytes, v.1, end) {
                    Option::None => {},
                    Option::Some(w) => {
                        if off < w.1 <= end {
                            lemma_skip_modifiers_ge(bytes, w.1, end);
                        }
                    },
                }
            }
        },
    }
}

/// Reads every type token of one type signature, appending the tokens,
/// mirroring [`type_tokens_spec`].
#[verifier::rlimit(100)]
#[verifier::spinoff_prover]
fn collect_type_tokens(reader: &TypeReader, blob: &mut Blob, out: &mut Vec<u32>) -> (r: Result<
    (),
    ClosureError,
>)
    requires
        old(blob).wf(*reader),
    ensures
        final(blob).wf(*reader),
        final(blob).file_index == old(blob).file_index,
        final(blob).end_spec() == old(blob).end_spec(),
        final(out)@.len() >= old(out)@.len(),
        forall|a: int| 0 <= a < old(out)@.len() ==> #[trigger] final(out)@[a] == old(out)@[a],
        ({
            let found = type_tokens_spec(
                old(blob).bytes_spec(*reader),
                old(blob).offset as int,
                old(blob).end_spec(),
            );
            match r {
                Result::Ok(_) => found matches Option::Some(tk) && final(blob).offset == tk.1
                    && final(out)@.len() == old(out)@.len() + tk.0.len() && Seq::new(
                    tk.0.len(),
                    |i: int| final(out)@[old(out)@.len() + i] as int,
                ) == tk.0,
                Result::Err(_) => found is None,
            }
        }),
    decreases old(blob).size, 0int, 0int,
{
    let ghost off0 = blob.offset as int;
    let ghost bytes = blob.bytes_spec(*reader);
    let ghost end = blob.end_spec();
    if !blob.read_modifiers(reader) {
        return Result::Err(ClosureError::UnreadableBlob);
    }
    match blob.read_unsigned(reader) {
        Option::None => Result::Err(ClosureError::UnreadableBlob),
        Option::Some(code) => {
            if code == 0x01 || (0x02 <= code && code <= 0x0E) || code == 0x18 || code == 0x19
                || code == 0x1C {
                proof {
                    assert(Seq::new(0, |i: int| out@[out@.len() + i] as int)
                        =~= Seq::<int>::empty());
                }
                Result::Ok(())
            } else if code == 0x0F || code == 0x10 || code == 0x1D || code == 0x45 {
                proof {
                    lemma_skip_modifiers_ge(bytes, off0, end);
                    assert(off0 < blob.offset as int <= blob.end_spec());
                }
                collect_type_tokens(reader, blob, out)
            } else if code == 0x11 || code == 0x12 {
                match blob.read_unsigned(reader) {
                    Option::Some(t) => {
                        out.push(t);
                        proof {
                            let tk = type_tokens_spec(bytes, off0, end).unwrap();
                            assert(Seq::new(
                                tk.0.len(),
                                |i: int| out@[out@.len() - 1 + i] as int,
                            ) =~= tk.0);
                        }
                        Result::Ok(())
                    },
                    Option::None => Result::Err(ClosureError::UnreadableBlob),
                }
            } else if code == 0x13 || code == 0x1E {
                match blob.read_unsigned(reader) {
                    Option::Some(_) => {
                        proof {
                            assert(Seq::new(0, |i: int| out@[out@.len() + i] as int)
                                =~= Seq::<int>::empty());
                        }
                        Result::Ok(())
                    },
                    Option::None => Result::Err(ClosureError::UnreadableBlob),
                }
            } else if code == 0x15 {
                match blob.read_unsigned(reader) {
                    Option::None => Result::Err(ClosureError::UnreadableBlob),
                    Option::Some(_) => {
                        match blob.read_unsigned(reader) {
                            Option::None => Result::Err(ClosureError::UnreadableBlob),
                            Option::Some(t) => {
                                out.push(t);
                                match blob.read_unsigned(reader) {
                                    Option::None => Result::Err(
                                        ClosureError::UnreadableBlob,
                                    ),
                                    Option::Some(n) => {
                                        let ghost mid = out@;
                                        proof {
                                            lemma_skip_modifiers_ge(bytes, off0, end);
                                            assert(off0 < blob.offset as int
                                                <= blob.end_spec());
                                        }
                                        match collect_type_args(reader, blob, out, n) {
                                            Result::Err(e) => Result::Err(e),
                                            Result::Ok(_) => {
                                                proof {
                                                    let tk = type_tokens_spec(
                                                        bytes,
                                                        off0,
                                                        end,
                                                    ).unwrap();
                                                    assert(Seq::new(
                                                        tk.0.len(),
                                                        |i: int| out@[old(out)@.len()
                                                            + i] as int,
                                                    ) =~= tk.0);
                                                }
                                                Result::Ok(())
                                            },
                                        }
                                    },
                                }
                            },
                        }
                    },
                }
            } else {
                Result::Err(ClosureError::UnreadableBlob)
            }
        },
    }
}

/// Reads `n` type signatures in sequence, appending their tokens, mirroring
/// [`type_args_spec`].
#[verifier::rlimit(100)]
#[verifier::spinoff_prover]
fn collect_type_args(reader: &TypeReader, blob: &mut Blob, out: &mut Vec<u32>, n: u32) -> (r:
    Result<(), ClosureError>)
    requires
        old(blob).wf(*reader),
    ensures
        final(blob).wf(*reader),
        final(blob).file_index == old(blob).file_index,
        final(blob).end_spec() == old(blob).end_spec(),
        final(out)@.len() >= old(out)@.len(),
        forall|a: int| 0 <= a < old(out)@.len() ==> #[trigger] final(out)@[a] == old(out)@[a],
        ({
            let found = type_args_spec(
                old(blob).bytes_spec(*reader),
                old(blob).offset as int,
                old(blob).end_spec(),
                n as int,
            );
            match r {
                Result::Ok(_) => found matches Option::Some(a) && final(blob).offset == a.1
                    && final(out)@.len() == old(out)@.len() + a.0.len() && Seq::new(
                    a.0.len(),
                    |i: int| final(out)@[old(out)@.len() + i] as int,
                ) == a.0,
                Result::Err(_) => found is None,
            }
        }),
    decreases old(blob).size, 1int, n as int,
{
    let ghost bytes = blob.bytes_spec(*reader);
    let ghost end = blob.end_spec();
    let ghost off0 = blob.offset as int;
    if n == 0 {
        proof {
            assert(Seq::new(0, |i: int| out@[out@.len() + i] as int) =~= Seq::<int>::empty());
        }
        return Result::Ok(());
    }
    match collect_type_tokens(reader, blob, out) {
        Result::Err(e) => Result::Err(e),
        Result::Ok(_) => {
            let ghost mid = out@;
            proof {
                lemma_type_tokens_advances(bytes, off0, end);
            }
            match collect_type_args(reader, blob, out, n - 1) {
                Result::Err(e) => Result::Err(e),
                Result::Ok(_) => {
                    proof {
                        let a = type_args_spec(bytes, off0, end, n as int).unwrap();
                        assert(Seq::new(
                            a.0.len(),
                            |i: int| out@[old(out)@.len() + i] as int,
                        ) =~= a.0);
                    }
                    Result::Ok(())
                },
            }
        },
    }
}

/// Resolves a run of collected tokens, appending every one that names a
/// registry type definition, mirroring [`tokens_to_deps`].
#[verifier::loop_isolation(false)]
fn push_token_deps(
    reader: &TypeReader,
    file_index: usize,
    toks: &Vec<u32>,
    out: &mut Vec<TypeDef>,
)
    requires
        reader.wf(),
        file_index < reader.files@.len(),
        forall|a: int|
            0 <= a < old(out)@.len() ==> (#[trigger] old(out)@[a]).row.table_index
                == TableIndex::TypeDef && row_valid(reader.files@, old(out)@[a].row),
    ensures
        final(out)@.len() >= old(out)@.len(),
        forall|a: int| 0 <= a < old(out)@.len() ==> #[trigger] final(out)@[a] == old(out)@[a],
        forall|a: int|
            0 <= a < final(out)@.len() ==> (#[trigger] final(out)@[a]).row.table_index
                == TableIndex::TypeDef && row_valid(reader.files@, final(out)@[a].row),
        ({
            let tseq = Seq::new(toks@.len(), |i: int| toks@[i] as int);
            Seq::new(
                (final(out)@.len() - old(out)@.len()) as nat,
                |a: int| final(out)@[old(out)@.len() + a].row,
            ) == tokens_to_deps(
                *reader,
                reader.files@[file_index as int],
                file_index as int,
                tseq,
            )
        }),
{
    let ghost f = reader.files@[file_index as int];
    let ghost tseq = Seq::new(toks@.len(), |i: int| toks@[i] as int);
    let ghost base_len = out@.len() as int;
    let mut k: usize = 0;
    proof {
        assert(tseq.take(0) =~= Seq::<int>::empty());
        assert(Seq::new(0, |a: int| out@[base_len + a].row) =~= tokens_to_deps(
            *reader,
            f,
            file_index as int,
            tseq.take(0),
        ));
    }
    while k < toks.len()
        invariant
            0 <= k <= toks@.len(),
            out@.len() >= base_len,
            forall|a: int| 0 <= a < base_len ==> #[trigger] out@[a] == old(out)@[a],
            forall|a: int|
                0 <= a < out@.len() ==> (#[trigger] out@[a]).row.table_index
                    == TableIndex::TypeDef && row_valid(reader.files@, out@[a].row),
            Seq::new((out@.len() - base_len) as nat, |a: int| out@[base_len + a].row)
                == tokens_to_deps(*reader, f, file_index as int, tseq.take(k as int)),
        decreases toks@.len() - k,
    {
        let ghost pre = out@;
        match resolve_token(reader, file_index, toks[k]) {
            Option::Some(d) => {
                out.push(d);
            },
            Option::None => {},
        }
        k += 1;
        proof {
            assert(tseq.take(k as int).drop_last() =~= tseq.take(k - 1));
            assert(tseq.take(k as int).last() == tseq[k - 1]);
            assert(Seq::new((out@.len() - base_len) as nat, |a: int| out@[base_len + a].row)
                =~= tokens_to_deps(*reader, f, file_index as int, tseq.take(k as int)));
        }
    }
    proof {
        assert(tseq.take(toks@.len() as int) =~= tseq);
    }
}

/// Collects the dependencies one interface row pulls in, appending them,
/// mirroring [`iface_deps_spec`].
#[verifier::rlimit(100)]
#[verifier::spinoff_prover]
fn collect_iface_deps(
    reader: &TypeReader,
    ii: crate::parsed::interface_impl::InterfaceImpl,
    out: &mut Vec<TypeDef>,
) -> (r: Result<(), ClosureError>)
    requires
        reader.wf(),
        ii.wf(*reader),
        forall|a: int|
            0 <= a < old(out)@.len() ==> (#[trigger] old(out)@[a]).row.table_index
                == TableIndex::TypeDef && row_valid(reader.files@, old(out)@[a].row),
    ensures
        final(out)@.len() >= old(out)@.len(),
        forall|a: int| 0 <= a < old(out)@.len() ==> #[trigger] final(out)@[a] == old(out)@[a],
        forall|a: int|
            0 <= a < final(out)@.len() ==> (#[trigger] final(out)@[a]).row.table_index
                == TableIndex::TypeDef && row_valid(reader.files@, final(out)@[a].row),
        ({
            let found = iface_deps_spec(
                *reader,
                reader.file_of(ii.row),
                ii.row.file_index as int,
                ii.row.index as int,
            );
            match r {
                Result::Ok(_) => found == Option::Some(
                    Seq::new(
                        (final(out)@.len() - old(out)@.len()) as nat,
                        |a: int| final(out)@[old(out)@.len() + a].row,
                    ),
                ),
                Result::Err(_) => found is None,
            }
        }),
{
    let ghost f = reader.files@[ii.row.file_index as int];
    match ii.interface(reader) {
        Option::Some(TypeDefOrRef::TypeDef(td)) => {
            out.push(td);
            proof {
                assert(Seq::new(1, |a: int| out@[old(out)@.len() + a].row) =~= seq![td.row]);
            }
            Result::Ok(())
        },
        Option::Some(TypeDefOrRef::TypeRef(tr)) => {
            match resolve_ref(reader, tr) {
                Option::Some(d) => {
                    out.push(d);
                    proof {
                        assert(Seq::new(1, |a: int| out@[old(out)@.len() + a].row)
                            =~= seq![d.row]);
                    }
                },
                Option::None => {
                    proof {
                        assert(Seq::new(0, |a: int| out@[old(out)@.len() + a].row)
                            =~= Seq::<Row>::empty());
                    }
                },
            }
            Result::Ok(())
        },
        Option::Some(TypeDefOrRef::TypeSpec(ts)) => {
            proof {
                assert(ts.wf(*reader));
            }
            let mut blob = ts.sig(reader);
            let mut toks: Vec<u32> = Vec::new();
            match collect_type_tokens(reader, &mut blob, &mut toks) {
                Result::Err(e) => Result::Err(e),
                Result::Ok(_) => {
                    push_token_deps(reader, ts.row.file_index, &toks, out);
                    proof {
                        let sn = blob_parse(
                            f.bytes@,
                            f.blobs + cell_value(
                                f,
                                TableIndex::TypeSpec,
                                ts.row.index as int,
                                0,
                            ),
                        ).unwrap();
                        let tk = type_tokens_spec(f.bytes@, sn.0, sn.0 + sn.1).unwrap();
                        let tseq = Seq::new(toks@.len(), |i: int| toks@[i] as int);
                        assert(tseq =~= tk.0);
                        assert(reader.files@[ts.row.file_index as int] == f);
                    }
                    Result::Ok(())
                },
            }
        },
        Option::None => {
            proof {
                assert(Seq::new(0, |a: int| out@[old(out)@.len() + a].row)
                    =~= Seq::<Row>::empty());
            }
            Result::Ok(())
        },
    }
}

/// Collects the dependencies of a type definition's fields, appending them,
/// mirroring [`fields_deps_from`] over the type's field range.
#[verifier::rlimit(100)]
#[verifier::spinoff_prover]
#[verifier::loop_isolation(false)]
fn collect_field_deps(reader: &TypeReader, def: TypeDef, out: &mut Vec<TypeDef>) -> (r: Result<
    (),
    ClosureError,
>)
    requires
        reader.wf(),
        def.wf(*reader),
        forall|a: int|
            0 <= a < old(out)@.len() ==> (#[trigger] old(out)@[a]).row.table_index
                == TableIndex::TypeDef && row_valid(reader.files@, old(out)@[a].row),
    ensures
        final(out)@.len() >= old(out)@.len(),
        forall|a: int| 0 <= a < old(out)@.len() ==> #[trigger] final(out)@[a] == old(out)@[a],
        forall|a: int|
            0 <= a < final(out)@.len() ==> (#[trigger] final(out)@[a]).row.table_index
                == TableIndex::TypeDef && row_valid(reader.files@, final(out)@[a].row),
        ({
            let f = reader.file_of(def.row);
            let fidx = def.row.file_index as int;
            let class = def.row.index as int;
            let ffirst = list_first(f, TableIndex::TypeDef, class, 4);
            let flast = list_last(f, TableIndex::TypeDef, class, 4, TableIndex::Field);
            match r {
                Result::Ok(_) => fields_deps_from(*reader, f, fidx, ffirst, flast)
                    == Option::Some(
                    Seq::new(
                        (final(out)@.len() - old(out)@.len()) as nat,
                        |a: int| final(out)@[old(out)@.len() + a].row,
                    ),
                ),
                Result::Err(_) => fields_deps_from(*reader, f, fidx, ffirst, flast) is None,
            }
        }),
{
    let ghost f = reader.files@[def.row.file_index as int];
    let ghost fidx = def.row.file_index as int;
    let ghost class = def.row.index as int;
    let ghost mid_len = out@.len() as int;
    let ghost out_mid = out@;
    let ghost ffirst = list_first(f, TableIndex::TypeDef, class, 4);
    let ghost flast = list_last(f, TableIndex::TypeDef, class, 4, TableIndex::Field);
    proof {
        assert(file_wf(f));
    }
    let flds = def.fields(reader);
    let mut kf: usize = 0;
    while kf < flds.len()
        invariant
            0 <= kf <= flds@.len(),
            out@.len() >= mid_len,
            forall|a: int| 0 <= a < mid_len ==> #[trigger] out@[a] == out_mid[a],
            forall|a: int|
                0 <= a < out@.len() ==> (#[trigger] out@[a]).row.table_index
                    == TableIndex::TypeDef && row_valid(reader.files@, out@[a].row),
            ({
                let cur = ffirst + kf;
                match fields_deps_from(*reader, f, fidx, cur, flast) {
                    Option::Some(rest) => fields_deps_from(*reader, f, fidx, ffirst, flast)
                        == Option::Some(
                        Seq::new((out@.len() - mid_len) as nat, |a: int| out@[mid_len + a].row)
                            + rest,
                    ),
                    Option::None => fields_deps_from(*reader, f, fidx, ffirst, flast) is None,
                }
            }),
        decreases flds@.len() - kf,
    {
        let fd = flds[kf];
        let ghost cur = ffirst + kf;
        let ghost pre = out@;
        proof {
            assert(cell_wf(f, TableIndex::TypeDef, class, 4));
            assert(crate::file::table_wf(f, TableIndex::Field));
            assert(fd.row.index as int == cur);
            assert(0 <= cur < flast);
        }
        let mut blob = fd.sig(reader);
        match blob.read_unsigned(reader) {
            Option::None => {
                proof {
                    assert(fields_deps_from(*reader, f, fidx, cur, flast) is None);
                }
                return Result::Err(ClosureError::UnreadableBlob);
            },
            Option::Some(_) => {},
        }
        let mut toks: Vec<u32> = Vec::new();
        match collect_type_tokens(reader, &mut blob, &mut toks) {
            Result::Err(e) => {
                proof {
                    assert(fields_deps_from(*reader, f, fidx, cur, flast) is None);
                }
                return Result::Err(e);
            },
            Result::Ok(_) => {},
        }
        push_token_deps(reader, def.row.file_index, &toks, out);
        kf += 1;
        proof {
            let sn = blob_parse(
                f.bytes@,
                f.blobs + cell_value(f, TableIndex::Field, cur, 2),
            ).unwrap();
            let conv = read_unsigned_spec(f.bytes@, sn.0, sn.0 + sn.1).unwrap();
            let tk = type_tokens_spec(f.bytes@, conv.1, sn.0 + sn.1).unwrap();
            let tseq = Seq::new(toks@.len(), |i: int| toks@[i] as int);
            assert(tseq =~= tk.0);
            let c = tokens_to_deps(*reader, f, fidx, tk.0);
            assert(field_deps_spec(*reader, f, fidx, cur) == Option::Some(c));
            let next = ffirst + kf;
            match fields_deps_from(*reader, f, fidx, next, flast) {
                Option::Some(rest) => {
                    assert(fields_deps_from(*reader, f, fidx, cur, flast) == Option::Some(
                        c + rest,
                    ));
                    assert(Seq::new((pre.len() - mid_len) as nat, |a: int| pre[mid_len + a].row)
                        + (c + rest) =~= Seq::new(
                        (out@.len() - mid_len) as nat,
                        |a: int| out@[mid_len + a].row,
                    ) + rest);
                },
                Option::None => {
                    assert(fields_deps_from(*reader, f, fidx, cur, flast) is None);
                },
            }
        }
    }
    proof {
        assert(fields_deps_from(*reader, f, fidx, flast, flast) == Option::Some(
            Seq::<Row>::empty(),
        ));
        let fprefix = Seq::new((out@.len() - mid_len) as nat, |a: int| out@[mid_len + a].row);
        assert(fprefix + Seq::<Row>::empty() =~= fprefix);
        assert(fields_deps_from(*reader, f, fidx, ffirst, flast) == Option::Some(fprefix));
    }
    Result::Ok(())
}

/// Collects the dependencies of every interface row of a type definition,
/// appending them, mirroring [`ifaces_deps_from`] over the whole table.
#[verifier::rlimit(100)]
#[verifier::spinoff_prover]
#[verifier::loop_isolation(false)]
fn collect_all_iface_deps(reader: &TypeReader, def: TypeDef, out: &mut Vec<TypeDef>) -> (r:
    Result<(), ClosureError>)
    requires
        reader.wf(),
        def.wf(*reader),
        forall|a: int|
            0 <= a < old(out)@.len() ==> (#[trigger] old(out)@[a]).row.table_index
                == TableIndex::TypeDef && row_valid(reader.files@, old(out)@[a].row),
    ensures
        final(out)@.len() >= old(out)@.len(),
        forall|a: int| 0 <= a < old(out)@.len() ==> #[trigger] final(out)@[a] == old(out)@[a],
        forall|a: int|
            0 <= a < final(out)@.len() ==> (#[trigger] final(out)@[a]).row.table_index
                == TableIndex::TypeDef && row_valid(reader.files@, final(out)@[a].row),
        ({
            let f = reader.file_of(def.row);
            let fidx = def.row.file_index as int;
            let class = def.row.index as int;
            match r {
                Result::Ok(_) => ifaces_deps_from(*reader, f, fidx, class, 0) == Option::Some(
                    Seq::new(
                        (final(out)@.len() - old(out)@.len()) as nat,
                        |a: int| final(out)@[old(out)@.len() + a].row,
                    ),
                ),
                Result::Err(_) => ifaces_deps_from(*reader, f, fidx, class, 0) is None,
            }
        }),
{
    let ghost f = reader.files@[def.row.file_index as int];
    let ghost fidx = def.row.file_index as int;
    let ghost class = def.row.index as int;
    let ghost base_len = out@.len() as int;
    let ghost out_base = out@;
    proof {
        assert(file_wf(f));
        assert forall|b: int|
            0 <= b && b + 1 < rows_of(f, TableIndex::InterfaceImpl) implies #[trigger] cell_value(
            f,
            TableIndex::InterfaceImpl,
            b,
            0,
        ) <= cell_value(f, TableIndex::InterfaceImpl, b + 1, 0) by {
            assert(cell_wf(f, TableIndex::InterfaceImpl, b, 0));
        };
        lemma_adjacent_sorted(f, TableIndex::InterfaceImpl, 0);
    }
    let ifaces = def.interfaces(reader);
    let mut k: usize = 0;
    proof {
        let first = if ifaces@.len() > 0 {
            ifaces@[0].row.index as int
        } else {
            rows_of(f, TableIndex::InterfaceImpl)
        };
        assert forall|b: int|
            0 <= b < first && b < rows_of(f, TableIndex::InterfaceImpl) implies cell_value(
            f,
            TableIndex::InterfaceImpl,
            b,
            0,
        ) != class + 1 by {
            if cell_value(f, TableIndex::InterfaceImpl, b, 0) == class + 1 {
                let a = choose|a: int|
                    0 <= a < ifaces@.len() && (#[trigger] ifaces@[a]).row.index == b;
                assert(ifaces@[a].row.index == ifaces@[0].row.index + a);
            }
        };
        lemma_ifaces_skip(*reader, f, fidx, class, 0, first);
    }
    while k < ifaces.len()
        invariant
            0 <= k <= ifaces@.len(),
            out@.len() >= base_len,
            forall|a: int| 0 <= a < base_len ==> #[trigger] out@[a] == out_base[a],
            forall|a: int|
                0 <= a < out@.len() ==> (#[trigger] out@[a]).row.table_index
                    == TableIndex::TypeDef && row_valid(reader.files@, out@[a].row),
            ({
                let cur = if k < ifaces@.len() {
                    ifaces@[k as int].row.index as int
                } else {
                    rows_of(f, TableIndex::InterfaceImpl)
                };
                match ifaces_deps_from(*reader, f, fidx, class, cur) {
                    Option::Some(rest) => ifaces_deps_from(*reader, f, fidx, class, 0)
                        == Option::Some(
                        Seq::new((out@.len() - base_len) as nat, |a: int| out@[base_len + a].row)
                            + rest,
                    ),
                    Option::None => ifaces_deps_from(*reader, f, fidx, class, 0) is None,
                }
            }),
        decreases ifaces@.len() - k,
    {
        let ii = ifaces[k];
        let ghost cur = ii.row.index as int;
        let ghost pre = out@;
        match collect_iface_deps(reader, ii, out) {
            Result::Ok(_) => {},
            Result::Err(e) => {
                proof {
                    assert(ifaces_deps_from(*reader, f, fidx, class, cur) is None);
                    reveal(deps_spec);
                }
                return Result::Err(e);
            },
        }
        k += 1;
        proof {
            let next = if k < ifaces@.len() {
                ifaces@[k as int].row.index as int
            } else {
                rows_of(f, TableIndex::InterfaceImpl)
            };
            assert forall|b: int|
                cur + 1 <= b < next && b < rows_of(f, TableIndex::InterfaceImpl) implies
                cell_value(f, TableIndex::InterfaceImpl, b, 0) != class + 1 by {
                if cell_value(f, TableIndex::InterfaceImpl, b, 0) == class + 1 {
                    let a = choose|a: int|
                        0 <= a < ifaces@.len() && (#[trigger] ifaces@[a]).row.index == b;
                    assert(ifaces@[a].row.index == ifaces@[0].row.index + a);
                    assert(ifaces@[k - 1].row.index == ifaces@[0].row.index + k - 1);
                }
            };
            assert(cur + 1 <= next) by {
                if k < ifaces@.len() {
                    assert(ifaces@[k as int].row.index == ifaces@[0].row.index + k);
                    assert(ifaces@[k - 1].row.index == ifaces@[0].row.index + k - 1);
                }
            };
            lemma_ifaces_skip(*reader, f, fidx, class, cur + 1, next);
            let c = iface_deps_spec(*reader, f, fidx, cur).unwrap();
            match ifaces_deps_from(*reader, f, fidx, class, next) {
                Option::Some(rest) => {
                    assert(ifaces_deps_from(*reader, f, fidx, class, cur) == Option::Some(
                        c + rest,
                    ));
                    assert(Seq::new((pre.len() - base_len) as nat, |a: int| pre[base_len + a].row)
                        + (c + rest) =~= Seq::new(
                        (out@.len() - base_len) as nat,
                        |a: int| out@[base_len + a].row,
                    ) + rest);
                },
                Option::None => {
                    assert(ifaces_deps_from(*reader, f, fidx, class, cur) is None);
                },
            }
        }
    }
    proof {
        assert(ifaces_deps_from(*reader, f, fidx, class, rows_of(f, TableIndex::InterfaceImpl))
            == Option::Some(Seq::<Row>::empty()));
        let prefix = Seq::new((out@.len() - base_len) as nat, |a: int| out@[base_len + a].row);
        assert(prefix + Seq::<Row>::empty() =~= prefix);
        assert(ifaces_deps_from(*reader, f, fidx, class, 0) == Option::Some(prefix));
    }
    Result::Ok(())
}

/// Collects the dependencies one method's signature pulls in, appending
/// them, mirroring [`method_deps_spec`].
#[verifier::rlimit(100)]
#[verifier::spinoff_prover]
fn collect_one_method(reader: &TypeReader, md: MethodDef, out: &mut Vec<TypeDef>) -> (r: Result<
    (),
    ClosureError,
>)
    requires
        reader.wf(),
        md.wf(*reader),
        forall|a: int|
            0 <= a < old(out)@.len() ==> (#[trigger] old(out)@[a]).row.table_index
                == TableIndex::TypeDef && row_valid(reader.files@, old(out)@[a].row),
    ensures
        final(out)@.len() >= old(out)@.len(),
        forall|a: int| 0 <= a < old(out)@.len() ==> #[trigger] final(out)@[a] == old(out)@[a],
        forall|a: int|
            0 <= a < final(out)@.len() ==> (#[trigger] final(out)@[a]).row.table_index
                == TableIndex::TypeDef && row_valid(reader.files@, final(out)@[a].row),
        ({
            let f = reader.file_of(md.row);
            let fidx = md.row.file_index as int;
            let m = md.row.index as int;
            match r {
                Result::Ok(_) => method_deps_spec(*reader, f, fidx, m) == Option::Some(
                    Seq::new(
                        (final(out)@.len() - old(out)@.len()) as nat,
                        |a: int| final(out)@[old(out)@.len() + a].row,
                    ),
                ),
                Result::Err(_) => method_deps_spec(*reader, f, fidx, m) is None,
            }
        }),
{
    let ghost f = reader.files@[md.row.file_index as int];
    let ghost fidx = md.row.file_index as int;
    let ghost m = md.row.index as int;
    let mut blob = md.sig(reader);
    let conv = match blob.read_unsigned(reader) {
        Option::None => {
            return Result::Err(ClosureError::UnreadableBlob);
        },
        Option::Some(c) => c,
    };
    if (conv / 16) % 2 == 1 {
        match blob.read_unsigned(reader) {
            Option::None => {
                return Result::Err(ClosureError::UnreadableBlob);
            },
            Option::Some(_) => {},
        }
    }
    let pcount = match blob.read_unsigned(reader) {
        Option::None => {
            return Result::Err(ClosureError::UnreadableBlob);
        },
        Option::Some(p) => p,
    };
    let mut toks: Vec<u32> = Vec::new();
    match collect_type_tokens(reader, &mut blob, &mut toks) {
        Result::Err(e) => {
            return Result::Err(e);
        },
        Result::Ok(_) => {},
    }
    match collect_type_args(reader, &mut blob, &mut toks, pcount) {
        Result::Err(e) => {
            return Result::Err(e);
        },
        Result::Ok(_) => {},
    }
    push_token_deps(reader, md.row.file_index, &toks, out);
    proof {
        let sn = blob_parse(
            f.bytes@,
            f.blobs + cell_value(f, TableIndex::MethodDef, m, 4),
        ).unwrap();
        let end = sn.0 + sn.1;
        let convs = read_unsigned_spec(f.bytes@, sn.0, end).unwrap();
        let tail_off = if (convs.0 / 16) % 2 == 1 {
            read_unsigned_spec(f.bytes@, convs.1, end).unwrap().1
        } else {
            convs.1
        };
        let pn = read_unsigned_spec(f.bytes@, tail_off, end).unwrap();
        let rt = type_tokens_spec(f.bytes@, pn.1, end).unwrap();
        let ps = type_args_spec(f.bytes@, rt.1, end, pn.0).unwrap();
        let tseq = Seq::new(toks@.len(), |i: int| toks@[i] as int);
        assert(tseq =~= rt.0 + ps.0);
        assert(method_deps_spec(*reader, f, fidx, m) == Option::Some(
            tokens_to_deps(*reader, f, fidx, rt.0 + ps.0),
        ));
    }
    Result::Ok(())
}

/// Collects the dependencies of a type definition's method signatures,
/// appending them, mirroring [`methods_deps_from`] over the type's method
/// range.
#[verifier::rlimit(100)]
#[verifier::spinoff_prover]
#[verifier::loop_isolation(false)]
fn collect_method_deps(reader: &TypeReader, def: TypeDef, out: &mut Vec<TypeDef>) -> (r: Result<
    (),
    ClosureError,
>)
    requires
        reader.wf(),
        def.wf(*reader),
        forall|a: int|
            0 <= a < old(out)@.len() ==> (#[trigger] old(out)@[a]).row.table_index
                == TableIndex::TypeDef && row_valid(reader.files@, old(out)@[a].row),
    ensures
        final(out)@.len() >= old(out)@.len(),
        forall|a: int| 0 <= a < old(out)@.len() ==> #[trigger] final(out)@[a] == old(out)@[a],
        forall|a: int|
            0 <= a < final(out)@.len() ==> (#[trigger] final(out)@[a]).row.table_index
                == TableIndex::TypeDef && row_valid(reader.files@, final(out)@[a].row),
        ({
            let f = reader.file_of(def.row);
            let fidx = def.row.file_index as int;
            let class = def.row.index as int;
            let mfirst = list_first(f, TableIndex::TypeDef, class, 5);
            let mlast = list_last(f, TableIndex::TypeDef, class, 5, TableIndex::MethodDef);
            match r {
                Result::Ok(_) => methods_deps_from(*reader, f, fidx, mfirst, mlast)
                    == Option::Some(
                    Seq::new(
                        (final(out)@.len() - old(out)@.len()) as nat,
                        |a: int| final(out)@[old(out)@.len() + a].row,
                    ),
                ),
                Result::Err(_) => methods_deps_from(*reader, f, fidx, mfirst, mlast) is None,
            }
        }),
{
    let ghost f = reader.files@[def.row.file_index as int];
    let ghost fidx = def.row.file_index as int;
    let ghost class = def.row.index as int;
    let ghost mid_len = out@.len() as int;
    let ghost out_mid = out@;
    let ghost mfirst = list_first(f, TableIndex::TypeDef, class, 5);
    let ghost mlast = list_last(f, TableIndex::TypeDef, class, 5, TableIndex::MethodDef);
    proof {
        assert(file_wf(f));
    }
    let mths = def.methods(reader);
    let mut km: usize = 0;
    while km < mths.len()
        invariant
            0 <= km <= mths@.len(),
            out@.len() >= mid_len,
            forall|a: int| 0 <= a < mid_len ==> #[trigger] out@[a] == out_mid[a],
            forall|a: int|
                0 <= a < out@.len() ==> (#[trigger] out@[a]).row.table_index
                    == TableIndex::TypeDef && row_valid(reader.files@, out@[a].row),
            ({
                let cur = mfirst + km;
                match methods_deps_from(*reader, f, fidx, cur, mlast) {
                    Option::Some(rest) => methods_deps_from(*reader, f, fidx, mfirst, mlast)
                        == Option::Some(
                        Seq::new((out@.len() - mid_len) as nat, |a: int| out@[mid_len + a].row)
                            + rest,
                    ),
                    Option::None => methods_deps_from(*reader, f, fidx, mfirst, mlast) is None,
                }
            }),
        decreases mths@.len() - km,
    {
        let md = mths[km];
        let ghost cur = mfirst + km;
        let ghost pre = out@;
        proof {
            assert(cell_wf(f, TableIndex::TypeDef, class, 5));
            assert(crate::file::table_wf(f, TableIndex::MethodDef));
            assert(md.row.index as int == cur);
            assert(0 <= cur < mlast);
        }
        match collect_one_method(reader, md, out) {
            Result::Ok(_) => {},
            Result::Err(e) => {
                proof {
                    assert(methods_deps_from(*reader, f, fidx, cur, mlast) is None);
                }
                return Result::Err(e);
            },
        }
        km += 1;
        proof {
            let c = method_deps_spec(*reader, f, fidx, cur).unwrap();
            let next = mfirst + km;
            match methods_deps_from(*reader, f, fidx, next, mlast) {
                Option::Some(rest) => {
                    assert(methods_deps_from(*reader, f, fidx, cur, mlast) == Option::Some(
                        c + rest,
                    ));
                    assert(Seq::new((pre.len() - mid_len) as nat, |a: int| pre[mid_len + a].row)
                        + (c + rest) =~= Seq::new(
                        (out@.len() - mid_len) as nat,
                        |a: int| out@[mid_len + a].row,
                    ) + rest);
                },
                Option::None => {
                    assert(methods_deps_from(*reader, f, fidx, cur, mlast) is None);
                },
            }
        }
    }
    proof {
        assert(methods_deps_from(*reader, f, fidx, mlast, mlast) == Option::Some(
            Seq::<Row>::empty(),
        ));
        let mprefix = Seq::new((out@.len() - mid_len) as nat, |a: int| out@[mid_len + a].row);
        assert(mprefix + Seq::<Row>::empty() =~= mprefix);
        assert(methods_deps_from(*reader, f, fidx, mfirst, mlast) == Option::Some(mprefix));
    }
    Result::Ok(())
}

/// Everything a type definition requires before it can be filed: its base
/// type, its implemented interfaces, and every type its field and method
/// signatures name, resolved against the registry.
#[verifier::rlimit(100)]
#[verifier::spinoff_prover]
#[verifier::loop_isolation(false)]
pub fn type_dependencies(reader: &TypeReader, def: TypeDef) -> (r: Result<
    Vec<TypeDef>,
    ClosureError,
>)
    requires
        reader.wf(),
        def.wf(*reader),
    ensures
        ({
            let found = deps_spec(*reader, def.row.file_index as int, def.row.index as int);
            match r {
                Result::Ok(ds) => found == Option::Some(
                    Seq::new(ds@.len(), |a: int| ds@[a].row),
                ) && forall|a: int|
                    0 <= a < ds@.len() ==> (#[trigger] ds@[a]).row.table_index
                        == TableIndex::TypeDef && row_valid(reader.files@, ds@[a].row),
                Result::Err(_) => found is None,
            }
        }),
{
    let ghost f = reader.files@[def.row.file_index as int];
    let ghost fidx = def.row.file_index as int;
    let ghost class = def.row.index as int;
    let mut out: Vec<TypeDef> = Vec::new();
    proof {
        assert(file_wf(f));
        assert forall|b: int|
            0 <= b && b + 1 < rows_of(f, TableIndex::InterfaceImpl) implies #[trigger] cell_value(
            f,
            TableIndex::InterfaceImpl,
            b,
            0,
        ) <= cell_value(f, TableIndex::InterfaceImpl, b + 1, 0) by {
            assert(cell_wf(f, TableIndex::InterfaceImpl, b, 0));
        };
        lemma_adjacent_sorted(f, TableIndex::InterfaceImpl, 0);
    }
    match def.extends(reader) {
        Option::Some(TypeDefOrRef::TypeDef(td)) => {
            out.push(td);
        },
        Option::Some(TypeDefOrRef::TypeRef(tr)) => {
            match resolve_ref(reader, tr) {
                Option::Some(d) => {
                    out.push(d);
                },
                Option::None => {},
            }
        },
        _ => {},
    }
    let ghost base = base_dep_spec(*reader, f, fidx, class);
    let ghost base_len = out@.len() as int;
    proof {
        match base {
            Option::Some(b) => {
                assert(base_len == 1 && out@[0].row == b);
            },
            Option::None => {
                assert(base_len == 0);
            },
        }
    }
    match collect_all_iface_deps(reader, def, &mut out) {
        Result::Ok(_) => {},
        Result::Err(e) => {
            proof {
                reveal(deps_spec);
            }
            return Result::Err(e);
        },
    }
    let ghost if_len = out@.len() as int;
    let ghost ifs = Seq::new((if_len - base_len) as nat, |a: int| out@[base_len + a].row);
    match collect_field_deps(reader, def, &mut out) {
        Result::Ok(_) => {},
        Result::Err(e) => {
            proof {
                reveal(deps_spec);
            }
            return Result::Err(e);
        },
    }
    let ghost fl_len = out@.len() as int;
    let ghost flds = Seq::new((fl_len - if_len) as nat, |a: int| out@[if_len + a].row);
    match collect_method_deps(reader, def, &mut out) {
        Result::Ok(_) => {},
        Result::Err(e) => {
            proof {
                reveal(deps_spec);
            }
            return Result::Err(e);
        },
    }
    proof {
        reveal(deps_spec);
        let mths = Seq::new((out@.len() - fl_len) as nat, |a: int| out@[fl_len + a].row);
        let full = Seq::new(out@.len(), |a: int| out@[a].row);
        match base {
            Option::Some(b) => {
                assert(full =~= seq![b] + ifs + flds + mths);
            },
            Option::None => {
                assert(full =~= ifs + flds + mths);
            },
        }
    }
    Result::Ok(out)
}

/// Rows that do not belong to `class` contribute nothing.
proof fn lemma_ifaces_skip(reader: TypeReader, f: File, fidx: int, class: int, a: int, c: int)
    requires
        0 <= a <= c,
        forall|b: int|
            a <= b < c && b < rows_of(f, TableIndex::InterfaceImpl) ==> cell_value(
                f,
                TableIndex::InterfaceImpl,
                b,
                0,
            ) != class + 1,
    ensures
        ifaces_deps_from(reader, f, fidx, class, a) == ifaces_deps_from(reader, f, fidx, class, c),
    decreases c - a,
{
    if a < c {
        lemma_ifaces_skip(reader, f, fidx, class, a + 1, c);
    }
}




/// The rows of the closure's visited accounting.
pub struct RowSet {
    pub rows: Vec<Row>,
}

impl RowSet {
    /// No row is accounted twice, and every accounted row exists.
    pub open spec fn wf(self, files: Seq<File>) -> bool {
        &&& self.rows@.no_duplicates()
        &&& forall|j: int| 0 <= j < self.rows@.len() ==> row_valid(files, #[trigger] self.rows@[j])
    }

    /// An empty accounting.
    pub fn new() -> (r: RowSet)
        ensures
            r.rows@.len() == 0,
    {
        RowSet { rows: Vec::new() }
    }

    /// Accounts a row once: a row already seen changes nothing and reports
    /// `false`.
    #[verifier::loop_isolation(false)]
    pub fn insert(&mut self, Ghost(files): Ghost<Seq<File>>, row: Row) -> (r: bool)
        requires
            old(self).wf(files),
            row_valid(files, row),
        ensures
            final(self).wf(files),
            r == !old(self).rows@.contains(row),
            r ==> final(self).rows@ == old(self).rows@.push(row),
            !r ==> *final(self) == *old(self),
    {
        let n = self.rows.len();
        let mut j: usize = 0;
        while j < n
            invariant
                0 <= j <= n,
                forall|b: int| 0 <= b < j ==> self.rows@[b] != row,
            decreases n - j,
        {
            if self.rows[j] == row {
                return false;
            }
            j += 1;
        }
        self.rows.push(row);
        proof {
            assert(old(self).rows@.push(row).drop_last() =~= old(self).rows@);
        }
        true
    }
}

/// How many type-definition rows a row sequence holds.
pub open spec fn td_count(rows: Seq<Row>) -> int
    decreases rows.len(),
{
    if rows.len() == 0 {
        0
    } else {
        (if rows[0].table_index == TableIndex::TypeDef {
            1int
        } else {
            0int
        }) + td_count(rows.drop_first())
    }
}

/// How many type-definition rows the first `n` files hold together.
pub open spec fn td_prefix_total(files: Seq<File>, n: int) -> int
    decreases n,
{
    if n <= 0 {
        0
    } else {
        td_prefix_total(files, n - 1) + rows_of(files[n - 1], TableIndex::TypeDef)
    }
}

/// How many type-definition rows all files hold together.
pub open spec fn td_total(files: Seq<File>) -> int {
    td_prefix_total(files, files.len() as int)
}

/// A type-definition row's place in a single global numbering.
pub open spec fn global_index(files: Seq<File>, row: Row) -> int {
    td_prefix_total(files, row.file_index as int) + row.index
}

proof fn lemma_td_count_nonneg(rows: Seq<Row>)
    ensures
        td_count(rows) >= 0,
    decreases rows.len(),
{
    if rows.len() > 0 {
        lemma_td_count_nonneg(rows.drop_first());
    }
}

proof fn lemma_td_count_push(rows: Seq<Row>, row: Row)
    ensures
        td_count(rows.push(row)) == td_count(rows) + (if row.table_index == TableIndex::TypeDef {
            1int
        } else {
            0int
        }),
    decreases rows.len(),
{
    if rows.len() == 0 {
        assert(rows.push(row)[0] == row);
        assert(rows.push(row).drop_first() =~= Seq::<Row>::empty());
        assert(td_count(Seq::<Row>::empty()) == 0);
        assert(td_count(rows.push(row)) == (if row.table_index == TableIndex::TypeDef {
            1int
        } else {
            0int
        }) + td_count(rows.push(row).drop_first()));
    } else {
        assert(rows.push(row)[0] == rows[0]);
        assert(rows.push(row).drop_first() =~= rows.drop_first().push(row));
        lemma_td_count_push(rows.drop_first(), row);
        assert(td_count(rows.push(row)) == (if rows[0].table_index == TableIndex::TypeDef {
            1int
        } else {
            0int
        }) + td_count(rows.push(row).drop_first()));
        assert(td_count(rows) == (if rows[0].table_index == TableIndex::TypeDef {
            1int
        } else {
            0int
        }) + td_count(rows.drop_first()));
    }
}

proof fn lemma_td_count_prefix(a: Seq<Row>, b: Seq<Row>)
    requires
        a.len() <= b.len(),
        forall|j: int| 0 <= j < a.len() ==> a[j] == b[j],
    ensures
        td_count(a) <= td_count(b),
    decreases b.len() - a.len(),
{
    if a.len() < b.len() {
        let b2 = b.drop_last();
        lemma_td_count_prefix(a, b2);
        assert(b2.push(b.last()) =~= b);
        lemma_td_count_push(b2, b.last());
    } else {
        assert(a =~= b);
    }
}

proof fn lemma_prefix_total_mono(files: Seq<File>, a: int, b: int)
    requires
        0 <= a <= b,
    ensures
        td_prefix_total(files, a) <= td_prefix_total(files, b),
    decreases b - a,
{
    if a < b {
        lemma_prefix_total_mono(files, a, b - 1);
    }
}

proof fn lemma_global_index_bounds(files: Seq<File>, row: Row)
    requires
        row_valid(files, row),
        row.table_index == TableIndex::TypeDef,
    ensures
        0 <= global_index(files, row) < td_total(files),
{
    lemma_prefix_total_mono(files, 0, row.file_index as int);
    assert(td_prefix_total(files, row.file_index + 1 as int) == td_prefix_total(
        files,
        row.file_index as int,
    ) + rows_of(files[row.file_index as int], TableIndex::TypeDef));
    lemma_prefix_total_mono(files, row.file_index + 1 as int, files.len() as int);
}

proof fn lemma_global_index_injective(files: Seq<File>, r1: Row, r2: Row)
    requires
        row_valid(files, r1),
        row_valid(files, r2),
        r1.table_index == TableIndex::TypeDef,
        r2.table_index == TableIndex::TypeDef,
        r1 != r2,
    ensures
        global_index(files, r1) != global_index(files, r2),
{
    if r1.file_index == r2.file_index {
    } else {
        if r1.file_index < r2.file_index {
            assert(td_prefix_total(files, r1.file_index + 1 as int) == td_prefix_total(
                files,
                r1.file_index as int,
            ) + rows_of(files[r1.file_index as int], TableIndex::TypeDef));
            lemma_prefix_total_mono(files, r1.file_index + 1 as int, r2.file_index as int);
        } else {
            assert(td_prefix_total(files, r2.file_index + 1 as int) == td_prefix_total(
                files,
                r2.file_index as int,
            ) + rows_of(files[r2.file_index as int], TableIndex::TypeDef));
            lemma_prefix_total_mono(files, r2.file_index + 1 as int, r1.file_index as int);
        }
    }
}

/// The global numbers of the type-definition rows of a sequence, in order.
spec fn global_seq(files: Seq<File>, rows: Seq<Row>) -> Seq<int>
    decreases rows.len(),
{
    if rows.len() == 0 {
        Seq::empty()
    } else {
        (if rows[0].table_index == TableIndex::TypeDef {
            seq![global_index(files, rows[0])]
        } else {
            Seq::empty()
        }) + global_seq(files, rows.drop_first())
    }
}

proof fn lemma_global_seq_len(files: Seq<File>, rows: Seq<Row>)
    ensures
        global_seq(files, rows).len() == td_count(rows),
    decreases rows.len(),
{
    if rows.len() > 0 {
        lemma_global_seq_len(files, rows.drop_first());
    }
}

proof fn lemma_global_seq_member(files: Seq<File>, rows: Seq<Row>, x: int)
    requires
        global_seq(files, rows).contains(x),
    ensures
        exists|j: int|
            0 <= j < rows.len() && (#[trigger] rows[j]).table_index == TableIndex::TypeDef
                && global_index(files, rows[j]) == x,
    decreases rows.len(),
{
    if rows.len() > 0 {
        let g = global_seq(files, rows);
        let head: Seq<int> = if rows[0].table_index == TableIndex::TypeDef {
            seq![global_index(files, rows[0])]
        } else {
            Seq::empty()
        };
        if rows[0].table_index == TableIndex::TypeDef && x == global_index(files, rows[0]) {
            assert(rows[0] == rows[0]);
        } else {
            assert(global_seq(files, rows.drop_first()).contains(x)) by {
                let w = choose|w: int| 0 <= w < g.len() && g[w] == x;
                assert(g[w] == (head + global_seq(files, rows.drop_first()))[w]);
                if w < head.len() {
                    assert(false);
                } else {
                    assert(global_seq(files, rows.drop_first())[w - head.len()] == x);
                }
            };
            lemma_global_seq_member(files, rows.drop_first(), x);
            let j = choose|j: int|
                0 <= j < rows.drop_first().len() && (#[trigger] rows.drop_first()[
                    j
                ]).table_index == TableIndex::TypeDef && global_index(
                    files,
                    rows.drop_first()[j],
                ) == x;
            assert(rows[j + 1] == rows.drop_first()[j]);
        }
    }
}

proof fn lemma_global_seq_nodup(files: Seq<File>, rows: Seq<Row>)
    requires
        rows.no_duplicates(),
        forall|j: int| 0 <= j < rows.len() ==> row_valid(files, #[trigger] rows[j]),
    ensures
        global_seq(files, rows).no_duplicates(),
        forall|w: int|
            0 <= w < global_seq(files, rows).len() ==> 0 <= #[trigger] global_seq(files, rows)[w]
                < td_total(files),
    decreases rows.len(),
{
    broadcast use group_seq_properties;

    if rows.len() > 0 {
        let rest = rows.drop_first();
        lemma_global_seq_nodup(files, rest);
        let g = global_seq(files, rows);
        if rows[0].table_index == TableIndex::TypeDef {
            lemma_global_index_bounds(files, rows[0]);
            assert(!global_seq(files, rest).contains(global_index(files, rows[0]))) by {
                if global_seq(files, rest).contains(global_index(files, rows[0])) {
                    lemma_global_seq_member(files, rest, global_index(files, rows[0]));
                    let j = choose|j: int|
                        0 <= j < rest.len() && (#[trigger] rest[j]).table_index
                            == TableIndex::TypeDef && global_index(files, rest[j])
                            == global_index(files, rows[0]);
                    assert(rows[j + 1] == rest[j]);
                    if rest[j] != rows[0] {
                        lemma_global_index_injective(files, rows[0], rest[j]);
                    }
                }
            };
            assert forall|a: int, b: int| 0 <= a < b < g.len() implies g[a] != g[b] by {
                if a == 0 {
                    assert(g[b] == global_seq(files, rest)[b - 1]);
                } else {
                    assert(g[a] == global_seq(files, rest)[a - 1]);
                    assert(g[b] == global_seq(files, rest)[b - 1]);
                }
            };
            assert forall|w: int| 0 <= w < g.len() implies 0 <= #[trigger] g[w] < td_total(
                files,
            ) by {
                if w > 0 {
                    assert(g[w] == global_seq(files, rest)[w - 1]);
                }
            };
        } else {
            assert(g =~= global_seq(files, rest));
        }
    }
}

/// Distinct, existing rows cannot outnumber the files' type definitions.
pub proof fn lemma_td_count_bound(files: Seq<File>, rows: Seq<Row>)
    requires
        rows.no_duplicates(),
        forall|j: int| 0 <= j < rows.len() ==> row_valid(files, #[trigger] rows[j]),
    ensures
        td_count(rows) <= td_total(files),
{
    let g = global_seq(files, rows);
    lemma_prefix_total_mono(files, 0, files.len() as int);
    lemma_global_seq_len(files, rows);
    lemma_global_seq_nodup(files, rows);
    g.unique_seq_to_set();
    assert(g.to_set().subset_of(set_int_range(0, td_total(files)))) by {
        assert forall|x: int| g.to_set().contains(x) implies set_int_range(
            0,
            td_total(files),
        ).contains(x) by {
            let w = choose|w: int| 0 <= w < g.len() && g[w] == x;
            assert(0 <= g[w] < td_total(files));
        };
    };
    lemma_int_range(0, td_total(files));
    lemma_len_subset(g.to_set(), set_int_range(0, td_total(files)));
}

/// The namespace path a type-definition row is filed under: its own
/// namespace column, split at each dot.
pub open spec fn row_path(reader: TypeReader, row: Row) -> Seq<Seq<char>> {
    spec_split(
        text_cell_chars(
            reader.files@[row.file_index as int],
            TableIndex::TypeDef,
            row.index as int,
            2,
        ),
    )
}

/// The row's definition stands in the tree under the row's own namespace.
pub open spec fn placed(reader: TypeReader, tree: TypeTree, row: Row) -> bool {
    tree.contains_row(row_path(reader, row), row)
}

/// Every accounted type-definition row, except those still being worked on,
/// has readable dependencies, all of them accounted, and stands in the tree.
pub open spec fn closure_ok_except(
    reader: TypeReader,
    rows: Seq<Row>,
    tree: TypeTree,
    pending: Set<Row>,
) -> bool {
    forall|j: int|
        0 <= j < rows.len() && (#[trigger] rows[j]).table_index == TableIndex::TypeDef
            && !pending.contains(rows[j]) ==> {
            let ds = deps_spec(reader, rows[j].file_index as int, rows[j].index as int);
            &&& ds is Some
            &&& forall|d: int| 0 <= d < ds.unwrap().len() ==> rows.contains(#[trigger] ds.unwrap()[d])
            &&& placed(reader, tree, rows[j])
        }
}

/// The tree holds nothing beyond the accounting: every filed row is
/// accounted and stands under its own namespace path, and every node lies
/// along some accounted row's path.
pub open spec fn tree_only(reader: TypeReader, rows: Seq<Row>, tree: TypeTree) -> bool {
    &&& forall|q: Seq<Seq<char>>, rw: Row|
        #[trigger] tree.contains_row(q, rw) ==> rows.contains(rw) && q == row_path(reader, rw)
    &&& forall|q: Seq<Seq<char>>|
        (#[trigger] tree.node_at(q)) is Some ==> q.len() == 0 || exists|j: int|
            0 <= j < rows.len() && is_prefix_of(q, row_path(reader, #[trigger] rows[j]))
}

/// An insertion files nothing but the new definition at its path.
proof fn lemma_insert_rev_contains(
    oldt: TypeTree,
    newt: TypeTree,
    p: Seq<Seq<char>>,
    t: TypeDefinition,
)
    requires
        newt.node_at(p) is Some,
        newt.node_at(p).unwrap().types@ == oldt.types_at(p).push(t),
        forall|q: Seq<Seq<char>>|
            !is_prefix_of(q, p) ==> #[trigger] newt.node_at(q) == oldt.node_at(q),
        forall|q: Seq<Seq<char>>|
            is_prefix_of(q, p) && q.len() < p.len() && oldt.node_at(q) is Some ==> (
            #[trigger] newt.node_at(q)) is Some && newt.node_at(q).unwrap().types@ == oldt.node_at(
                q,
            ).unwrap().types@,
        forall|q: Seq<Seq<char>>|
            is_prefix_of(q, p) && q.len() < p.len() && oldt.node_at(q) is None ==> (
            #[trigger] newt.node_at(q)).unwrap().types@.len() == 0,
    ensures
        forall|q: Seq<Seq<char>>, rw: Row|
            #[trigger] newt.contains_row(q, rw) ==> oldt.contains_row(q, rw) || (q == p && rw
                == t.row.spec_row()),
        forall|q: Seq<Seq<char>>|
            (#[trigger] newt.node_at(q)) is Some ==> oldt.node_at(q) is Some || is_prefix_of(q, p),
{
    assert forall|q: Seq<Seq<char>>, rw: Row|
        #[trigger] newt.contains_row(q, rw) implies oldt.contains_row(q, rw) || (q == p && rw
        == t.row.spec_row()) by {
        let i = choose|i: int|
            0 <= i < newt.types_at(q).len() && (#[trigger] newt.types_at(q)[i]).row.spec_row()
                == rw;
        if is_prefix_of(q, p) {
            if q.len() < p.len() {
                if oldt.node_at(q) is Some {
                    assert(oldt.types_at(q)[i] == newt.types_at(q)[i]);
                }
            } else {
                assert(q =~= p);
                if i < newt.types_at(q).len() - 1 {
                    assert(oldt.types_at(p)[i] == newt.types_at(p)[i]);
                    assert(oldt.types_at(p).len() > 0);
                    assert(oldt.node_at(p) is Some);
                } else {
                    assert(newt.types_at(p)[i] == t);
                }
            }
        }
    };
}

/// Whatever a tree already files survives an insertion.
proof fn lemma_insert_keeps_contains(
    oldt: TypeTree,
    newt: TypeTree,
    p: Seq<Seq<char>>,
    t: TypeDefinition,
)
    requires
        newt.node_at(p) is Some,
        newt.node_at(p).unwrap().types@ == oldt.types_at(p).push(t),
        forall|q: Seq<Seq<char>>|
            !is_prefix_of(q, p) ==> #[trigger] newt.node_at(q) == oldt.node_at(q),
        forall|q: Seq<Seq<char>>|
            is_prefix_of(q, p) && q.len() < p.len() && oldt.node_at(q) is Some ==> (
            #[trigger] newt.node_at(q)) is Some && newt.node_at(q).unwrap().types@ == oldt.node_at(
                q,
            ).unwrap().types@,
    ensures
        forall|q: Seq<Seq<char>>, rw: Row|
            oldt.contains_row(q, rw) ==> #[trigger] newt.contains_row(q, rw),
{
    assert forall|q: Seq<Seq<char>>, rw: Row|
        oldt.contains_row(q, rw) implies #[trigger] newt.contains_row(q, rw) by {
        let i = choose|i: int|
            0 <= i < oldt.types_at(q).len() && (#[trigger] oldt.types_at(q)[i]).row.spec_row()
                == rw;
        if is_prefix_of(q, p) {
            if q.len() < p.len() {
                assert(oldt.node_at(q) is Some);
                assert(newt.types_at(q)[i] == oldt.types_at(q)[i]);
            } else {
                assert(q =~= p);
                assert(newt.types_at(q)[i] == oldt.types_at(q)[i]);
            }
        } else {
            assert(newt.types_at(q)[i] == oldt.types_at(q)[i]);
        }
    };
}

/// A tree bounded by an accounting stays bounded when the accounting grows
/// at the end.
proof fn lemma_tree_only_grow(
    reader: TypeReader,
    rows1: Seq<Row>,
    rows2: Seq<Row>,
    tree: TypeTree,
)
    requires
        tree_only(reader, rows1, tree),
        rows1.len() <= rows2.len(),
        forall|j: int| 0 <= j < rows1.len() ==> #[trigger] rows2[j] == rows1[j],
    ensures
        tree_only(reader, rows2, tree),
{
    assert forall|q: Seq<Seq<char>>, rw: Row|
        #[trigger] tree.contains_row(q, rw) implies rows2.contains(rw) && q == row_path(
        reader,
        rw,
    ) by {
        let w = choose|w: int| 0 <= w < rows1.len() && rows1[w] == rw;
        assert(rows2[w] == rw);
    };
    assert forall|q: Seq<Seq<char>>|
        (#[trigger] tree.node_at(q)) is Some implies q.len() == 0 || exists|j: int|
        0 <= j < rows2.len() && is_prefix_of(q, row_path(reader, #[trigger] rows2[j])) by {
        if q.len() > 0 {
            let j = choose|j: int|
                0 <= j < rows1.len() && is_prefix_of(q, row_path(reader, #[trigger] rows1[j]));
            assert(rows2[j] == rows1[j]);
            assert(is_prefix_of(q, row_path(reader, rows2[j])));
        }
    };
}

/// The row is one the limits directly request: a member of an `All`
/// namespace's registry entry, or a named member of an `Only` one.
pub open spec fn requested_row(reader: TypeReader, limits: TypeLimits, r: Row) -> bool {
    exists|l: int|
        0 <= l < limits.namespaces@.len() && {
            let ns = (#[trigger] limits.namespaces@[l]).namespace@;
            &&& entries_has_ns(reader.types@, ns)
            &&& {
                let e = reader.types@[entries_ns_index(reader.types@, ns)];
                match limits.namespaces@[l].limit {
                    TypeLimit::All => exists|k: int|
                        0 <= k < e.types@.len() && (#[trigger] e.types@[k]).row.spec_row() == r,
                    TypeLimit::Only(names) => exists|x: int|
                        0 <= x < names@.len() && entry_has_name(e, (#[trigger] names@[x])@)
                            && e.types@[entry_name_index(e, names@[x]@)].row.spec_row() == r,
                }
            }
        }
}

/// A row is justified by the accounting: it appears in some accounted type
/// definition's dependency list.
pub open spec fn dep_of_accounted(reader: TypeReader, rows: Seq<Row>, r: Row) -> bool {
    exists|j2: int|
        0 <= j2 < rows.len() && (#[trigger] rows[j2]).table_index == TableIndex::TypeDef
            && deps_spec(reader, rows[j2].file_index as int, rows[j2].index as int) is Some
            && deps_spec(
            reader,
            rows[j2].file_index as int,
            rows[j2].index as int,
        ).unwrap().contains(r)
}

/// The accounting holds nothing unasked-for: every accounted row is either a
/// requested root or a dependency of an accounted type definition.
pub open spec fn accounted_bounded(reader: TypeReader, rows: Seq<Row>, roots: Set<Row>) -> bool {
    forall|j: int|
        0 <= j < rows.len() ==> roots.contains(#[trigger] rows[j]) || dep_of_accounted(
            reader,
            rows,
            rows[j],
        )
}

/// A justified new row keeps the accounting bounded.
proof fn lemma_bounded_push(reader: TypeReader, rows: Seq<Row>, roots: Set<Row>, row: Row)
    requires
        accounted_bounded(reader, rows, roots),
        roots.contains(row) || dep_of_accounted(reader, rows, row),
    ensures
        accounted_bounded(reader, rows.push(row), roots),
{
    let rows2 = rows.push(row);
    assert forall|j: int|
        0 <= j < rows2.len() implies roots.contains(#[trigger] rows2[j]) || dep_of_accounted(
        reader,
        rows2,
        rows2[j],
    ) by {
        if j < rows.len() {
            assert(rows2[j] == rows[j]);
            if !roots.contains(rows[j]) {
                let j2 = choose|j2: int|
                    0 <= j2 < rows.len() && (#[trigger] rows[j2]).table_index
                        == TableIndex::TypeDef && deps_spec(
                        reader,
                        rows[j2].file_index as int,
                        rows[j2].index as int,
                    ) is Some && deps_spec(
                        reader,
                        rows[j2].file_index as int,
                        rows[j2].index as int,
                    ).unwrap().contains(rows[j]);
                assert(rows2[j2] == rows[j2]);
            }
        } else {
            assert(rows2[j] == row);
            if !roots.contains(row) {
                let j2 = choose|j2: int|
                    0 <= j2 < rows.len() && (#[trigger] rows[j2]).table_index
                        == TableIndex::TypeDef && deps_spec(
                        reader,
                        rows[j2].file_index as int,
                        rows[j2].index as int,
                    ) is Some && deps_spec(
                        reader,
                        rows[j2].file_index as int,
                        rows[j2].index as int,
                    ).unwrap().contains(row);
                assert(rows2[j2] == rows[j2]);
            }
        }
    };
}

/// Accounting one more row, and marking it as in progress, preserves the
/// closure property.
proof fn lemma_closure_push(
    reader: TypeReader,
    rows: Seq<Row>,
    tree: TypeTree,
    pending: Set<Row>,
    row: Row,
)
    requires
        closure_ok_except(reader, rows, tree, pending),
    ensures
        closure_ok_except(reader, rows.push(row), tree, pending.insert(row)),
{
    let rows2 = rows.push(row);
    let pend2 = pending.insert(row);
    assert forall|j: int|
        0 <= j < rows2.len() && (#[trigger] rows2[j]).table_index == TableIndex::TypeDef
            && !pend2.contains(rows2[j]) implies {
        let ds = deps_spec(reader, rows2[j].file_index as int, rows2[j].index as int);
        &&& ds is Some
        &&& forall|d: int| 0 <= d < ds.unwrap().len() ==> rows2.contains(#[trigger] ds.unwrap()[d])
        &&& placed(reader, tree, rows2[j])
    } by {
        assert(j < rows.len());
        assert(rows2[j] == rows[j]);
        let ds = deps_spec(reader, rows[j].file_index as int, rows[j].index as int);
        assert forall|d: int| 0 <= d < ds.unwrap().len() implies rows2.contains(
            #[trigger] ds.unwrap()[d],
        ) by {
            let w = choose|w: int| 0 <= w < rows.len() && rows[w] == ds.unwrap()[d];
            assert(rows2[w] == ds.unwrap()[d]);
        };
    };
}

/// A tree that keeps everything it filed keeps the closure property.
proof fn lemma_closure_tree_grow(
    reader: TypeReader,
    rows: Seq<Row>,
    tree1: TypeTree,
    tree2: TypeTree,
    pending: Set<Row>,
)
    requires
        closure_ok_except(reader, rows, tree1, pending),
        forall|q: Seq<Seq<char>>, rw: Row|
            tree1.contains_row(q, rw) ==> #[trigger] tree2.contains_row(q, rw),
    ensures
        closure_ok_except(reader, rows, tree2, pending),
{
}

/// Once a worked-on row has its dependencies accounted and stands in the
/// tree, it need not be excepted any more.
proof fn lemma_closure_finish(
    reader: TypeReader,
    rows: Seq<Row>,
    tree: TypeTree,
    pending: Set<Row>,
    row: Row,
)
    requires
        closure_ok_except(reader, rows, tree, pending.insert(row)),
        row.table_index == type_def_table(),
        deps_spec(reader, row.file_index as int, row.index as int) is Some,
        forall|d: int|
            0 <= d < deps_spec(reader, row.file_index as int, row.index as int).unwrap().len()
                ==> rows.contains(
                #[trigger] deps_spec(
                    reader,
                    row.file_index as int,
                    row.index as int,
                ).unwrap()[d],
            ),
        placed(reader, tree, row),
    ensures
        closure_ok_except(reader, rows, tree, pending),
{
}

/// A row of another kind than a type definition never needs work.
proof fn lemma_closure_drop_other(
    reader: TypeReader,
    rows: Seq<Row>,
    tree: TypeTree,
    pending: Set<Row>,
    row: Row,
)
    requires
        closure_ok_except(reader, rows, tree, pending.insert(row)),
        row.table_index != type_def_table(),
    ensures
        closure_ok_except(reader, rows, tree, pending),
{
}

/// The type-definition table's tag, for the closure lemmas.
pub open spec fn type_def_table() -> TableIndex {
    TableIndex::TypeDef
}

/// Resolves and files a row exactly once: a row already accounted changes
/// nothing; a new type definition has its dependencies filed first and is
/// then filed under its own namespace. An unreadable blob stops the build.
#[verifier::rlimit(100)]
#[verifier::spinoff_prover]
#[verifier::loop_isolation(false)]
pub fn insert_if(
    reader: &TypeReader,
    set: &mut RowSet,
    tree: &mut TypeTree,
    trow: TypeRow,
    Ghost(pending): Ghost<Set<Row>>,
    Ghost(roots): Ghost<Set<Row>>,
) -> (r: Result<(), ClosureError>)
    requires
        reader.wf(),
        type_row_ok(reader.files@, trow),
        old(set).wf(reader.files@),
        old(tree).tree_wf(),
        closure_ok_except(*reader, old(set).rows@, *old(tree), pending),
        tree_only(*reader, old(set).rows@, *old(tree)),
        accounted_bounded(*reader, old(set).rows@, roots),
        roots.contains(trow.spec_row()) || dep_of_accounted(
            *reader,
            old(set).rows@,
            trow.spec_row(),
        ),
    ensures
        final(set).wf(reader.files@),
        final(tree).tree_wf(),
        tree_only(*reader, final(set).rows@, *final(tree)),
        accounted_bounded(*reader, final(set).rows@, roots),
        final(set).rows@.len() >= old(set).rows@.len(),
        forall|j: int|
            0 <= j < old(set).rows@.len() ==> #[trigger] final(set).rows@[j] == old(set).rows@[j],
        forall|q: Seq<Seq<char>>, rw: Row|
            old(tree).contains_row(q, rw) ==> #[trigger] final(tree).contains_row(q, rw),
        r is Ok ==> final(set).rows@.contains(trow.spec_row()),
        r is Ok ==> closure_ok_except(*reader, final(set).rows@, *final(tree), pending),
        old(set).rows@.contains(trow.spec_row()) ==> r is Ok && *final(set) == *old(set)
            && *final(tree) == *old(tree),
        r is Err ==> exists|fi: int, i: int|
            0 <= fi < reader.files@.len() && 0 <= i < rows_of(reader.files@[fi], TableIndex::TypeDef)
                && #[trigger] deps_spec(*reader, fi, i) is None,
    decreases td_total(reader.files@) - td_count(set.rows@),
{
    let row = trow.row();
    let is_new = set.insert(Ghost(reader.files@), row);
    if !is_new {
        return Result::Ok(());
    }
    let ghost set0 = set.rows@;
    let ghost pend2 = pending.insert(row);
    proof {
        lemma_td_count_push(old(set).rows@, row);
        lemma_closure_push(*reader, old(set).rows@, *tree, pending, row);
        lemma_tree_only_grow(*reader, old(set).rows@, set.rows@, *tree);
        lemma_bounded_push(*reader, old(set).rows@, roots, row);
    }
    match trow {
        TypeRow::TypeDef(def) => {
            let ds = match type_dependencies(reader, def) {
                Result::Ok(v) => v,
                Result::Err(e) => {
                    proof {
                        assert(deps_spec(
                            *reader,
                            def.row.file_index as int,
                            def.row.index as int,
                        ) is None);
                    }
                    return Result::Err(e);
                },
            };
            let mut a: usize = 0;
            while a < ds.len()
                invariant
                    set.wf(reader.files@),
                    tree.tree_wf(),
                    closure_ok_except(*reader, set.rows@, *tree, pend2),
                    tree_only(*reader, set.rows@, *tree),
                    accounted_bounded(*reader, set.rows@, roots),
                    0 <= a <= ds@.len(),
                    set.rows@.len() >= set0.len(),
                    forall|j: int| 0 <= j < set0.len() ==> #[trigger] set.rows@[j] == set0[j],
                    forall|b: int| 0 <= b < a ==> set.rows@.contains((#[trigger] ds@[b]).row),
                    forall|q: Seq<Seq<char>>, rw: Row|
                        old(tree).contains_row(q, rw) ==> #[trigger] tree.contains_row(q, rw),
                decreases ds@.len() - a,
            {
                let ghost set_pre = set.rows@;
                proof {
                    lemma_td_count_prefix(set0, set.rows@);
                    lemma_td_count_bound(reader.files@, set.rows@);
                    lemma_td_count_push(old(set).rows@, row);
                }
                proof {
                    assert(dep_of_accounted(*reader, set.rows@, ds@[a as int].row)) by {
                        let j2 = set0.len() - 1;
                        assert(set.rows@[j2] == row);
                        assert(deps_spec(
                            *reader,
                            row.file_index as int,
                            row.index as int,
                        ).unwrap()[a as int] == ds@[a as int].row);
                    };
                }
                match insert_if(
                    reader,
                    set,
                    tree,
                    TypeRow::TypeDef(ds[a]),
                    Ghost(pend2),
                    Ghost(roots),
                ) {
                    Result::Ok(_) => {},
                    Result::Err(e) => {
                        return Result::Err(e);
                    },
                }
                a += 1;
                proof {
                    assert forall|b: int|
                        0 <= b < a implies set.rows@.contains((#[trigger] ds@[b]).row) by {
                        if b < a - 1 {
                            let w = choose|w: int|
                                0 <= w < set_pre.len() && set_pre[w] == ds@[b].row;
                            assert(set.rows@[w] == ds@[b].row);
                        }
                    };
                }
            }
            let (namespace, name) = def.name(reader);
            let t = TypeDefinition {
                name: TypeName { namespace: namespace.clone(), name },
                row: trow,
            };
            let ghost tree_before = *tree;
            let ghost p = spec_split(namespace@);
            tree.insert(&namespace, t);
            proof {
                lemma_insert_keeps_contains(tree_before, *tree, p, t);
                lemma_insert_rev_contains(tree_before, *tree, p, t);
                lemma_closure_tree_grow(*reader, set.rows@, tree_before, *tree, pend2);
                assert(row_path(*reader, row) == p);
                assert(set.rows@[set0.len() - 1] == row);
                assert(tree_only(*reader, set.rows@, *tree)) by {
                    assert forall|q: Seq<Seq<char>>, rw: Row|
                        #[trigger] tree.contains_row(q, rw) implies set.rows@.contains(rw) && q
                        == row_path(*reader, rw) by {
                        if !tree_before.contains_row(q, rw) {
                            assert(q == p && rw == t.row.spec_row());
                            assert(set.rows@.contains(row));
                        }
                    };
                    assert forall|q: Seq<Seq<char>>|
                        (#[trigger] tree.node_at(q)) is Some implies q.len() == 0 || exists|j: int|
                        0 <= j < set.rows@.len() && is_prefix_of(
                            q,
                            row_path(*reader, #[trigger] set.rows@[j]),
                        ) by {
                        if q.len() > 0 {
                            if tree_before.node_at(q) is Some {
                            } else {
                                assert(is_prefix_of(q, p));
                                assert(is_prefix_of(
                                    q,
                                    row_path(*reader, set.rows@[set0.len() - 1]),
                                ));
                            }
                        }
                    };
                };
                assert(placed(*reader, *tree, row)) by {
                    assert(row_path(*reader, row) == p);
                    let types = tree.node_at(p).unwrap().types@;
                    assert(types[types.len() - 1] == t);
                    assert(tree.types_at(p)[types.len() - 1].row.spec_row() == row);
                };
                let ghost dsspec = deps_spec(*reader, row.file_index as int, row.index as int);
                assert forall|d: int|
                    0 <= d < dsspec.unwrap().len() implies set.rows@.contains(
                    #[trigger] dsspec.unwrap()[d],
                ) by {
                    assert(dsspec.unwrap()[d] == ds@[d].row);
                };
                lemma_closure_finish(*reader, set.rows@, *tree, pending, row);
                assert(set.rows@.contains(trow.spec_row())) by {
                    assert(set.rows@[set0.len() - 1] == row);
                };
            }
            Result::Ok(())
        },
        TypeRow::MethodDef(_) => {
            proof {
                lemma_closure_drop_other(*reader, set.rows@, *tree, pending, row);
                assert(set.rows@.contains(trow.spec_row())) by {
                    assert(set.rows@[set0.len() - 1] == row);
                };
            }
            Result::Ok(())
        },
        TypeRow::Field(_) => {
            proof {
                lemma_closure_drop_other(*reader, set.rows@, *tree, pending, row);
                assert(set.rows@.contains(trow.spec_row())) by {
                    assert(set.rows@[set0.len() - 1] == row);
                };
            }
            Result::Ok(())
        },
    }
}

/// The names a limit asks for; empty for a limit that asks for the whole
/// namespace.
pub open spec fn limit_names_of(l: TypeLimit) -> Seq<String> {
    match l {
        TypeLimit::All => Seq::empty(),
        TypeLimit::Only(names) => names@,
    }
}

/// The limit asks for a named subset.
pub open spec fn limit_is_only(l: TypeLimit) -> bool {
    l is Only
}

/// Every requested name of a named-subset limit that the registry knows
/// under the namespace is in the accounting.
pub open spec fn only_limit_done(
    reader: TypeReader,
    rows: Seq<Row>,
    ns: Seq<char>,
    names: Seq<String>,
    upto: int,
) -> bool {
    entries_has_ns(reader.types@, ns) ==> {
        let e = reader.types@[entries_ns_index(reader.types@, ns)];
        forall|x: int|
            0 <= x < upto && entry_has_name(e, (#[trigger] names[x])@) ==> rows.contains(
                e.types@[entry_name_index(e, names[x]@)].row.spec_row(),
            )
    }
}

impl TypeTree {
    /// Builds the dependency-closed tree the limits ask for: for every
    /// namespace limited to all of its types, every row the registry reports
    /// under it is filed together with its transitive dependencies, each row
    /// exactly once. Some accounting of visited rows exists under which the
    /// result is closed and complete.
    #[verifier::rlimit(100)]
    #[verifier::spinoff_prover]
    #[verifier::loop_isolation(false)]
    pub fn from_limits(reader: &TypeReader, limits: &TypeLimits) -> (r: Result<
        TypeTree,
        ClosureError,
    >)
        requires
            reader.wf(),
        ensures
            ({
                match r {
                    Result::Ok(tree) => tree.tree_wf() && exists|visited: Seq<Row>|
                        {
                            &&& #[trigger] visited.no_duplicates()
                            &&& closure_ok_except(*reader, visited, tree, Set::empty())
                            &&& tree_only(*reader, visited, tree)
                            &&& accounted_bounded(
                                *reader,
                                visited,
                                Set::new(|r2: Row| requested_row(*reader, *limits, r2)),
                            )
                            &&& forall|l: int|
                                0 <= l < limits.namespaces@.len() && (
                                #[trigger] limits.namespaces@[l]).limit is All
                                    && entries_has_ns(
                                    reader.types@,
                                    limits.namespaces@[l].namespace@,
                                ) ==> {
                                    let e = reader.types@[entries_ns_index(
                                        reader.types@,
                                        limits.namespaces@[l].namespace@,
                                    )];
                                    forall|k: int|
                                        0 <= k < e.types@.len() ==> visited.contains(
                                            (#[trigger] e.types@[k]).row.spec_row(),
                                        )
                                }
                            &&& forall|l: int|
                                0 <= l < limits.namespaces@.len() && limit_is_only(
                                    (#[trigger] limits.namespaces@[l]).limit,
                                ) ==> only_limit_done(
                                    *reader,
                                    visited,
                                    limits.namespaces@[l].namespace@,
                                    limit_names_of(limits.namespaces@[l].limit),
                                    limit_names_of(limits.namespaces@[l].limit).len() as int,
                                )
                        },
                    Result::Err(_) => exists|fi: int, i: int|
                        0 <= fi < reader.files@.len() && 0 <= i < rows_of(
                            reader.files@[fi],
                            TableIndex::TypeDef,
                        ) && #[trigger] deps_spec(*reader, fi, i) is None,
                }
            }),
    {
        let mut tree = TypeTree::new();
        let mut set = RowSet::new();
        proof {
            assert forall|q: Seq<Seq<char>>|
                (#[trigger] tree.node_at(q)) is Some implies q.len() == 0 by {
                if q.len() > 0 {
                    if tree.has_child(q[0]) {
                        let j = tree.child_index(q[0]);
                        assert(false);
                    }
                    assert(tree.child(q[0]) is None);
                }
            };
            assert forall|q: Seq<Seq<char>>, rw: Row|
                !(#[trigger] tree.contains_row(q, rw)) by {
                assert(tree.types_at(q).len() == 0);
            };
            assert(tree_only(*reader, set.rows@, tree));
        }
        let ghost roots = Set::new(|r2: Row| requested_row(*reader, *limits, r2));
        let n = limits.namespaces.len();
        let mut l: usize = 0;
        while l < n
            invariant
                set.wf(reader.files@),
                tree.tree_wf(),
                closure_ok_except(*reader, set.rows@, tree, Set::empty()),
                tree_only(*reader, set.rows@, tree),
                accounted_bounded(*reader, set.rows@, roots),
                0 <= l <= n,
                forall|l2: int|
                    0 <= l2 < l && (#[trigger] limits.namespaces@[l2]).limit is All
                        && entries_has_ns(reader.types@, limits.namespaces@[l2].namespace@)
                        ==> {
                        let e = reader.types@[entries_ns_index(
                            reader.types@,
                            limits.namespaces@[l2].namespace@,
                        )];
                        forall|k: int|
                            0 <= k < e.types@.len() ==> set.rows@.contains(
                                (#[trigger] e.types@[k]).row.spec_row(),
                            )
                    },
                forall|l2: int|
                    0 <= l2 < l && limit_is_only((#[trigger] limits.namespaces@[l2]).limit)
                        ==> only_limit_done(
                        *reader,
                        set.rows@,
                        limits.namespaces@[l2].namespace@,
                        limit_names_of(limits.namespaces@[l2].limit),
                        limit_names_of(limits.namespaces@[l2].limit).len() as int,
                    ),
            decreases n - l,
        {
            let ghost set_l = set.rows@;
            match &limits.namespaces[l].limit {
                TypeLimit::All => {
                    let ns = &limits.namespaces[l].namespace;
                    let m = reader.types.len();
                    let mut i: usize = 0;
                    let mut found_at: usize = m;
                    while i < m
                        invariant
                            0 <= i <= m,
                            found_at <= m,
                            found_at == m ==> forall|b: int|
                                0 <= b < i ==> (#[trigger] reader.types@[b]).namespace@ != ns@,
                            found_at < m ==> found_at < i && reader.types@[
                                found_at as int
                            ].namespace@ == ns@,
                        decreases m - i + (if found_at < m { 0int } else { 1int }),
                    {
                        if found_at == m && reader.types[i].namespace == *ns {
                            found_at = i;
                        }
                        i += 1;
                    }
                    if found_at < m {
                        proof {
                            lemma_ns_index_unique(
                                reader.files@,
                                reader.types@,
                                found_at as int,
                                ns@,
                            );
                        }
                        let e = &reader.types[found_at];
                        let mk = e.types.len();
                        let mut k: usize = 0;
                        while k < mk
                            invariant
                                set.wf(reader.files@),
                                tree.tree_wf(),
                                closure_ok_except(*reader, set.rows@, tree, Set::empty()),
                                tree_only(*reader, set.rows@, tree),
                                accounted_bounded(*reader, set.rows@, roots),
                                0 <= k <= mk,
                                *e == reader.types@[found_at as int],
                                found_at < reader.types@.len(),
                                forall|b: int|
                                    0 <= b < k ==> set.rows@.contains(
                                        (#[trigger] e.types@[b]).row.spec_row(),
                                    ),
                                forall|j: int|
                                    0 <= j < set_l.len() ==> #[trigger] set.rows@[j] == set_l[j],
                                set.rows@.len() >= set_l.len(),
                            decreases mk - k,
                        {
                            let ghost set_pre = set.rows@;
                            proof {
                                assert(crate::type_reader::ns_entry_wf(
                                    reader.files@,
                                    reader.types@[found_at as int],
                                ));
                                assert(type_row_ok(reader.files@, e.types@[k as int].row));
                                assert(requested_row(
                                    *reader,
                                    *limits,
                                    e.types@[k as int].row.spec_row(),
                                )) by {
                                    assert(limits.namespaces@[l as int].namespace@ == ns@);
                                    assert(e.types@[k as int].row.spec_row()
                                        == e.types@[k as int].row.spec_row());
                                };
                                assert(roots.contains(e.types@[k as int].row.spec_row()));
                            }
                            match insert_if(
                                reader,
                                &mut set,
                                &mut tree,
                                e.types[k].row,
                                Ghost(Set::empty()),
                                Ghost(roots),
                            ) {
                                Result::Ok(_) => {},
                                Result::Err(e2) => {
                                    return Result::Err(e2);
                                },
                            }
                            k += 1;
                            proof {
                                assert forall|b: int|
                                    0 <= b < k implies set.rows@.contains(
                                    (#[trigger] e.types@[b]).row.spec_row(),
                                ) by {
                                    if b < k - 1 {
                                        let w = choose|w: int|
                                            0 <= w < set_pre.len() && set_pre[w] == e.types@[
                                                b
                                            ].row.spec_row();
                                        assert(set.rows@[w] == e.types@[b].row.spec_row());
                                    }
                                };
                            }
                        }
                    }
                    proof {
                        let nsv = limits.namespaces@[l as int].namespace@;
                        if entries_has_ns(reader.types@, nsv) {
                            let w = choose|w: int|
                                0 <= w < reader.types@.len() && (#[trigger] reader.types@[
                                    w
                                ]).namespace@ == nsv;
                            assert(ns@ == nsv);
                            assert(0 <= w < reader.types@.len() && reader.types@[
                                w
                            ].namespace@ == nsv);
                            if found_at == m {
                                assert(forall|b: int|
                                    0 <= b < m ==> (#[trigger] reader.types@[b]).namespace@
                                        != ns@);
                                assert(reader.types@[w].namespace@ != ns@);
                                assert(false);
                            }
                            assert(found_at < m);
                            lemma_ns_index_unique(
                                reader.files@,
                                reader.types@,
                                found_at as int,
                                nsv,
                            );
                            assert forall|k2: int|
                                0 <= k2 < reader.types@[entries_ns_index(
                                    reader.types@,
                                    nsv,
                                )].types@.len() implies set.rows@.contains(
                                (#[trigger] reader.types@[entries_ns_index(
                                    reader.types@,
                                    nsv,
                                )].types@[k2]).row.spec_row(),
                            ) by {
                                assert(entries_ns_index(reader.types@, nsv) == found_at as int);
                            };
                        }
                    }
                },
                TypeLimit::Only(names) => {
                    let ns = &limits.namespaces[l].namespace;
                    let m = reader.types.len();
                    let mut i: usize = 0;
                    let mut found_at: usize = m;
                    while i < m
                        invariant
                            0 <= i <= m,
                            found_at <= m,
                            found_at == m ==> forall|b: int|
                                0 <= b < i ==> (#[trigger] reader.types@[b]).namespace@ != ns@,
                            found_at < m ==> found_at < i && reader.types@[
                                found_at as int
                            ].namespace@ == ns@,
                        decreases m - i + (if found_at < m { 0int } else { 1int }),
                    {
                        if found_at == m && reader.types[i].namespace == *ns {
                            found_at = i;
                        }
                        i += 1;
                    }
                    if found_at < m {
                        proof {
                            lemma_ns_index_unique(
                                reader.files@,
                                reader.types@,
                                found_at as int,
                                ns@,
                            );
                        }
                        let nn = names.len();
                        let mut x: usize = 0;
                        while x < nn
                            invariant
                                set.wf(reader.files@),
                                tree.tree_wf(),
                                closure_ok_except(*reader, set.rows@, tree, Set::empty()),
                                tree_only(*reader, set.rows@, tree),
                                accounted_bounded(*reader, set.rows@, roots),
                                0 <= x <= nn,
                                found_at < reader.types@.len(),
                                entries_has_ns(reader.types@, ns@),
                                entries_ns_index(reader.types@, ns@) == found_at as int,
                                forall|j: int|
                                    0 <= j < set_l.len() ==> #[trigger] set.rows@[j] == set_l[j],
                                set.rows@.len() >= set_l.len(),
                                forall|x2: int|
                                    0 <= x2 < x && entry_has_name(
                                        reader.types@[found_at as int],
                                        (#[trigger] names@[x2])@,
                                    ) ==> set.rows@.contains(
                                        reader.types@[found_at as int].types@[entry_name_index(
                                            reader.types@[found_at as int],
                                            names@[x2]@,
                                        )].row.spec_row(),
                                    ),
                            decreases nn - x,
                        {
                            let target = &names[x];
                            let e = &reader.types[found_at];
                            let mk = e.types.len();
                            let mut k: usize = 0;
                            let mut hit: usize = mk;
                            while k < mk
                                invariant
                                    0 <= k <= mk,
                                    hit <= mk,
                                    hit == mk ==> forall|b: int|
                                        0 <= b < k ==> (#[trigger] e.types@[b]).name@
                                            != target@,
                                    hit < mk ==> e.types@[hit as int].name@ == target@,
                                decreases mk - k + (if hit < mk { 0int } else { 1int }),
                            {
                                if hit == mk && e.types[k].name == *target {
                                    hit = k;
                                }
                                k += 1;
                            }
                            let ghost set_pre = set.rows@;
                            if hit < mk {
                                proof {
                                    assert(ns_entry_wf(
                                        reader.files@,
                                        reader.types@[found_at as int],
                                    ));
                                    lemma_name_index_unique(
                                        reader.files@,
                                        reader.types@[found_at as int],
                                        hit as int,
                                        target@,
                                    );
                                    assert(type_row_ok(
                                        reader.files@,
                                        e.types@[hit as int].row,
                                    ));
                                }
                                proof {
                                    assert(requested_row(
                                        *reader,
                                        *limits,
                                        e.types@[hit as int].row.spec_row(),
                                    )) by {
                                        assert(limits.namespaces@[l as int].namespace@ == ns@);
                                        assert(entry_has_name(
                                            reader.types@[found_at as int],
                                            names@[x as int]@,
                                        ));
                                    };
                                    assert(roots.contains(e.types@[hit as int].row.spec_row()));
                                }
                                match insert_if(
                                    reader,
                                    &mut set,
                                    &mut tree,
                                    e.types[hit].row,
                                    Ghost(Set::empty()),
                                    Ghost(roots),
                                ) {
                                    Result::Ok(_) => {},
                                    Result::Err(e2) => {
                                        return Result::Err(e2);
                                    },
                                }
                            } else {
                                proof {
                                    if entry_has_name(
                                        reader.types@[found_at as int],
                                        target@,
                                    ) {
                                        let b = entry_name_index(
                                            reader.types@[found_at as int],
                                            target@,
                                        );
                                        assert(e.types@[b].name@ != target@);
                                    }
                                }
                            }
                            x += 1;
                            proof {
                                assert forall|x2: int|
                                    0 <= x2 < x && entry_has_name(
                                        reader.types@[found_at as int],
                                        (#[trigger] names@[x2])@,
                                    ) implies set.rows@.contains(
                                    reader.types@[found_at as int].types@[entry_name_index(
                                        reader.types@[found_at as int],
                                        names@[x2]@,
                                    )].row.spec_row(),
                                ) by {
                                    if x2 < x - 1 {
                                        let rw = reader.types@[found_at as int].types@[
                                            entry_name_index(
                                                reader.types@[found_at as int],
                                                names@[x2]@,
                                            )
                                        ].row.spec_row();
                                        let w = choose|w: int|
                                            0 <= w < set_pre.len() && set_pre[w] == rw;
                                        assert(set.rows@[w] == rw);
                                    }
                                };
                            }
                        }
                    }
                    proof {
                        let nsv = limits.namespaces@[l as int].namespace@;
                        if entries_has_ns(reader.types@, nsv) {
                            let w = choose|w: int|
                                0 <= w < reader.types@.len() && (#[trigger] reader.types@[
                                    w
                                ]).namespace@ == nsv;
                            if found_at == m {
                                assert(reader.types@[w].namespace@ != nsv);
                            }
                            assert(found_at < m);
                        }
                        assert(only_limit_done(
                            *reader,
                            set.rows@,
                            limits.namespaces@[l as int].namespace@,
                            names@,
                            names@.len() as int,
                        ));
                    }
                },
            }
            l += 1;
            proof {
                assert forall|l2: int|
                    0 <= l2 < l && (#[trigger] limits.namespaces@[l2]).limit is All
                        && entries_has_ns(reader.types@, limits.namespaces@[l2].namespace@)
                        implies {
                    let e2 = reader.types@[entries_ns_index(
                        reader.types@,
                        limits.namespaces@[l2].namespace@,
                    )];
                    forall|k: int|
                        0 <= k < e2.types@.len() ==> set.rows@.contains(
                            (#[trigger] e2.types@[k]).row.spec_row(),
                        )
                } by {
                    if l2 < l - 1 {
                        let e2 = reader.types@[entries_ns_index(
                            reader.types@,
                            limits.namespaces@[l2].namespace@,
                        )];
                        assert forall|k: int|
                            0 <= k < e2.types@.len() implies set.rows@.contains(
                            (#[trigger] e2.types@[k]).row.spec_row(),
                        ) by {
                            let w = choose|w: int|
                                0 <= w < set_l.len() && set_l[w] == e2.types@[k].row.spec_row();
                            assert(set.rows@[w] == e2.types@[k].row.spec_row());
                        };
                    }
                };
                assert forall|l2: int|
                    0 <= l2 < l && limit_is_only((#[trigger] limits.namespaces@[l2]).limit)
                        implies only_limit_done(
                    *reader,
                    set.rows@,
                    limits.namespaces@[l2].namespace@,
                    limit_names_of(limits.namespaces@[l2].limit),
                    limit_names_of(limits.namespaces@[l2].limit).len() as int,
                ) by {
                    if l2 < l - 1 {
                        let ns2 = limits.namespaces@[l2].namespace@;
                        let names2 = limit_names_of(limits.namespaces@[l2].limit);
                        if entries_has_ns(reader.types@, ns2) {
                            let e2 = reader.types@[entries_ns_index(reader.types@, ns2)];
                            assert forall|x: int|
                                0 <= x < names2.len() && entry_has_name(
                                    e2,
                                    (#[trigger] names2[x])@,
                                ) implies set.rows@.contains(
                                e2.types@[entry_name_index(e2, names2[x]@)].row.spec_row(),
                            ) by {
                                let rw = e2.types@[entry_name_index(
                                    e2,
                                    names2[x]@,
                                )].row.spec_row();
                                let w = choose|w: int|
                                    0 <= w < set_l.len() && set_l[w] == rw;
                                assert(set.rows@[w] == rw);
                            };
                        }
                    }
                };
            }
        }
        proof {
            let visited = set.rows@;
            assert(visited.no_duplicates());
        }
        Result::Ok(tree)
    }
}

} // verus!
