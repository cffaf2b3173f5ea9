use vstd::prelude::*;
use vstd::string::{StrSliceExecFns, StringExecFns};
use crate::type_reader::{TypeReader, NamespaceEntry, find_lower_in, lemma_find_lower_in};
use crate::text::{lower_of, to_lowercase};

verus! {

/// A limit on the types of one namespace: all of them, or a named subset.
#[derive(Clone, Debug)]
pub enum TypeLimit {
    /// All the types in the namespace.
    All,
    /// Only the named types in the namespace.
    Only(Vec<String>),
}

/// A namespace together with its limit.
#[derive(Clone, Debug)]
pub struct NamespaceTypes {
    pub namespace: String,
    pub limit: TypeLimit,
}

/// Lexicographic order on character sequences, by scalar value.
pub open spec fn chars_lt(a: Seq<char>, b: Seq<char>) -> bool
    decreases a.len(),
{
    if b.len() == 0 {
        false
    } else if a.len() == 0 {
        true
    } else if a[0] != b[0] {
        (a[0] as u32) < (b[0] as u32)
    } else {
        chars_lt(a.drop_first(), b.drop_first())
    }
}

/// Nothing sorts below itself.
pub proof fn lemma_chars_lt_irreflexive(a: Seq<char>)
    ensures
        !chars_lt(a, a),
    decreases a.len(),
{
    if a.len() > 0 {
        lemma_chars_lt_irreflexive(a.drop_first());
    }
}

/// Two sequences neither of which sorts below the other are equal.
pub proof fn lemma_chars_lt_trichotomy(a: Seq<char>, b: Seq<char>)
    requires
        !chars_lt(a, b),
        !chars_lt(b, a),
    ensures
        a == b,
    decreases a.len(),
{
    if a.len() == 0 || b.len() == 0 {
        assert(a =~= b);
    } else {
        if a[0] != b[0] {
            if (a[0] as u32) == (b[0] as u32) {
                vstd::utf8::char_u32_cast(a[0], a[0] as u32);
                vstd::utf8::char_u32_cast(b[0], b[0] as u32);
            }
            assert(false);
        }
        lemma_chars_lt_trichotomy(a.drop_first(), b.drop_first());
        assert(a.len() == b.len());
        assert forall|i: int| 0 <= i < a.len() implies a[i] == b[i] by {
            if i > 0 {
                assert(a.drop_first()[i - 1] == b.drop_first()[i - 1]);
            }
        };
        assert(a =~= b);
    }
}

/// The order is transitive.
pub proof fn lemma_chars_lt_transitive(a: Seq<char>, b: Seq<char>, c: Seq<char>)
    requires
        chars_lt(a, b),
        chars_lt(b, c),
    ensures
        chars_lt(a, c),
    decreases a.len(),
{
    if a.len() == 0 {
    } else {
        if a[0] == b[0] {
            if b[0] == c[0] {
                lemma_chars_lt_transitive(a.drop_first(), b.drop_first(), c.drop_first());
            }
        } else {
            if b[0] != c[0] {
                assert((a[0] as u32) < (c[0] as u32));
            }
            if (a[0] as u32) == (c[0] as u32) {
                vstd::utf8::char_u32_cast(a[0], a[0] as u32);
                vstd::utf8::char_u32_cast(c[0], c[0] as u32);
            }
            assert(a[0] != c[0]);
        }
    }
}

/// The flattened form of a list of type names, each name closed by a
/// separator below every character.
pub open spec fn names_key(names: Seq<String>) -> Seq<char>
    decreases names.len(),
{
    if names.len() == 0 {
        Seq::empty()
    } else {
        names_key(names.drop_last()) + names.last()@ + seq!['\u{0}']
    }
}

/// The sort key of a limit: a tag telling the two forms apart, then the
/// flattened names.
pub open spec fn limit_key(l: TypeLimit) -> Seq<char> {
    match l {
        TypeLimit::All => seq!['\u{1}'],
        TypeLimit::Only(names) => seq!['\u{2}'] + names_key(names@),
    }
}

/// The sort key of a namespace/limit pair: the namespace, a separator, the
/// limit's key. Entries are kept strictly increasing by this key, which
/// orders them by namespace and then by limit.
pub open spec fn key_parts(ns: Seq<char>, l: TypeLimit) -> Seq<char> {
    ns + seq!['\u{0}'] + limit_key(l)
}

/// The sort key of one stored entry.
pub open spec fn entry_key(e: NamespaceTypes) -> Seq<char> {
    key_parts(e.namespace@, e.limit)
}

/// Some stored entry carries this key.
pub open spec fn has_key(entries: Seq<NamespaceTypes>, k: Seq<char>) -> bool {
    exists|j: int| 0 <= j < entries.len() && entry_key(#[trigger] entries[j]) == k
}

/// Compares two strings by the order of [`chars_lt`].
#[derive(Copy, Clone, PartialEq, Eq, Structural, Debug)]
pub enum Rel {
    Less,
    Equal,
    Greater,
}

/// A run of equal characters does not decide the order.
proof fn lemma_chars_lt_common(a: Seq<char>, b: Seq<char>, i: int)
    requires
        0 <= i <= a.len(),
        i <= b.len(),
        forall|k: int| 0 <= k < i ==> a[k] == b[k],
    ensures
        chars_lt(a, b) == chars_lt(a.skip(i), b.skip(i)),
    decreases i,
{
    if i > 0 {
        assert(a.drop_first() =~= a.skip(1));
        assert(b.drop_first() =~= b.skip(1));
        assert forall|k: int| 0 <= k < i - 1 implies a.skip(1)[k] == b.skip(1)[k] by {
            assert(a[k + 1] == b[k + 1]);
        };
        lemma_chars_lt_common(a.skip(1), b.skip(1), i - 1);
        assert(a.skip(1).skip(i - 1) =~= a.skip(i));
        assert(b.skip(1).skip(i - 1) =~= b.skip(i));
    } else {
        assert(a.skip(0) =~= a);
        assert(b.skip(0) =~= b);
    }
}

/// Decides the order of two strings.
#[verifier::loop_isolation(false)]
fn chars_cmp(a: &String, b: &String) -> (r: Rel)
    ensures
        r is Less <==> chars_lt(a@, b@),
        r is Greater <==> chars_lt(b@, a@),
        r is Equal <==> a@ == b@,
{
    let n = a.as_str().unicode_len();
    let m = b.as_str().unicode_len();
    let mut i: usize = 0;
    while i < n && i < m
        invariant
            0 <= i <= n,
            i <= m,
            forall|k: int| 0 <= k < i ==> a@[k] == b@[k],
        decreases n - i,
    {
        let ca = a.as_str().get_char(i);
        let cb = b.as_str().get_char(i);
        if ca != cb {
            proof {
                lemma_chars_lt_common(a@, b@, i as int);
                lemma_chars_lt_common(b@, a@, i as int);
                assert(a@.skip(i as int)[0] == ca);
                assert(b@.skip(i as int)[0] == cb);
            }
            if (ca as u32) < (cb as u32) {
                return Rel::Less;
            } else {
                proof {
                    if (ca as u32) == (cb as u32) {
                        vstd::utf8::char_u32_cast(ca, ca as u32);
                        vstd::utf8::char_u32_cast(cb, cb as u32);
                    }
                    assert((cb as u32) < (ca as u32));
                }
                return Rel::Greater;
            }
        }
        i += 1;
    }
    proof {
        lemma_chars_lt_common(a@, b@, i as int);
        lemma_chars_lt_common(b@, a@, i as int);
    }
    if i == n && i == m {
        proof {
            assert(a@ =~= b@);
        }
        Rel::Equal
    } else if i == n {
        proof {
            assert(a@.skip(i as int).len() == 0);
            assert(b@.skip(i as int).len() > 0);
            if a@ == b@ {
                assert(a@.len() == b@.len());
            }
        }
        Rel::Less
    } else {
        proof {
            assert(b@.skip(i as int).len() == 0);
            assert(a@.skip(i as int).len() > 0);
            if a@ == b@ {
                assert(a@.len() == b@.len());
            }
        }
        Rel::Greater
    }
}

/// Builds the sort key of an entry.
#[verifier::loop_isolation(false)]
fn entry_key_of(e: &NamespaceTypes) -> (r: String)
    ensures
        r@ == entry_key(*e),
{
    let mut key = e.namespace.clone();
    key.append("\u{0}");
    proof {
        reveal_strlit("\u{0}");
        assert("\u{0}"@ =~= seq!['\u{0}']);
    }
    match &e.limit {
        TypeLimit::All => {
            key.append("\u{1}");
            proof {
                reveal_strlit("\u{1}");
                assert("\u{1}"@ =~= seq!['\u{1}']);
                assert(key@ =~= entry_key(*e));
            }
        },
        TypeLimit::Only(names) => {
            key.append("\u{2}");
            proof {
                reveal_strlit("\u{2}");
                assert("\u{2}"@ =~= seq!['\u{2}']);
            }
            let n = names.len();
            let mut k: usize = 0;
            while k < n
                invariant
                    0 <= k <= n,
                    key@ == e.namespace@ + seq!['\u{0}'] + seq!['\u{2}'] + names_key(
                        names@.take(k as int),
                    ),
                decreases n - k,
            {
                key.append(names[k].as_str());
                key.append("\u{0}");
                k += 1;
                proof {
                    reveal_strlit("\u{0}");
                    assert("\u{0}"@ =~= seq!['\u{0}']);
                    assert(names@.take(k as int).drop_last() =~= names@.take(k - 1));
                    assert(names@.take(k as int).last() == names@[k - 1]);
                    assert(key@ =~= e.namespace@ + seq!['\u{0}'] + seq!['\u{2}'] + names_key(
                        names@.take(k as int),
                    ));
                }
            }
            proof {
                assert(names@.take(n as int) =~= names@);
                assert(key@ =~= entry_key(*e));
            }
        },
    }
    key
}

/// The set of relevant namespaces and types: duplicate-free, kept strictly
/// increasing by entry key — by namespace, then by limit — so that walking
/// the limits is deterministic. Each insertion is validated against the
/// registry.
pub struct TypeLimits {
    pub namespaces: Vec<NamespaceTypes>,
}

impl TypeLimits {
    /// The entries are strictly increasing by their keys; in particular no
    /// two are equal.
    pub open spec fn wf(&self) -> bool {
        forall|i: int, j: int|
            0 <= i < j < self.namespaces@.len() ==> chars_lt(
                entry_key(#[trigger] self.namespaces@[i]),
                entry_key(#[trigger] self.namespaces@[j]),
            )
    }

    /// An empty set of limits.
    pub fn new() -> (r: TypeLimits)
        ensures
            r.namespaces@.len() == 0,
            r.wf(),
    {
        TypeLimits { namespaces: Vec::new() }
    }

    /// Validates the limit's namespace against the registry, case
    /// insensitively, and stores the limit under the canonical spelling,
    /// keeping the set sorted: an entry equal to a stored one changes
    /// nothing, any other adds exactly one entry in order; a namespace the
    /// registry does not know is handed back unchanged.
    #[verifier::loop_isolation(false)]
    pub fn insert(&mut self, reader: &TypeReader, limit: NamespaceTypes) -> (r: Result<
        (),
        String,
    >)
        requires
            old(self).wf(),
        ensures
            final(self).wf(),
            ({
                let found = find_lower_in(reader.types@, lower_of(limit.namespace@));
                match r {
                    Result::Ok(_) => {
                        &&& found is Some
                        &&& found matches Option::Some(s) ==> ({
                            let kk = key_parts(s, limit.limit);
                            &&& has_key(final(self).namespaces@, kk)
                            &&& forall|k2: Seq<char>|
                                #[trigger] has_key(final(self).namespaces@, k2) <==> has_key(
                                    old(self).namespaces@,
                                    k2,
                                ) || k2 == kk
                            &&& has_key(old(self).namespaces@, kk) ==> final(self).namespaces@
                                == old(self).namespaces@
                            &&& !has_key(old(self).namespaces@, kk) ==> exists|pos: int|
                                0 <= pos <= old(self).namespaces@.len() && final(self).namespaces@
                                    == old(self).namespaces@.insert(
                                    pos,
                                    final(self).namespaces@[pos],
                                ) && (#[trigger] final(self).namespaces@[pos]).namespace@ == s
                                    && final(self).namespaces@[pos].limit == limit.limit
                        })
                    },
                    Result::Err(e) => {
                        &&& found is None
                        &&& e@ == limit.namespace@
                        &&& final(self).namespaces@ == old(self).namespaces@
                    },
                }
            }),
    {
        let lowered = to_lowercase(&limit.namespace);
        match reader.find_lowercase_namespace(&lowered) {
            Option::Some(namespace) => {
                let entry = NamespaceTypes { namespace, limit: limit.limit };
                let key = entry_key_of(&entry);
                let ghost kk = entry_key(entry);
                let n = self.namespaces.len();
                let mut i: usize = 0;
                let mut after: bool = false;
                while i < n && !after
                    invariant
                        0 <= i <= n,
                        forall|j: int|
                            0 <= j < i ==> chars_lt(
                                entry_key(#[trigger] self.namespaces@[j]),
                                kk,
                            ),
                        after ==> i < n && chars_lt(kk, entry_key(self.namespaces@[i as int])),
                        *self == *old(self),
                    decreases n - i + (if after { 0int } else { 1int }),
                {
                    let ki = entry_key_of(&self.namespaces[i]);
                    match chars_cmp(&ki, &key) {
                        Rel::Less => {
                            i += 1;
                        },
                        Rel::Equal => {
                            proof {
                                assert(entry_key(self.namespaces@[i as int]) == kk);
                                assert(has_key(self.namespaces@, kk));
                                assert forall|k2: Seq<char>|
                                    #[trigger] has_key(self.namespaces@, k2) <==> has_key(
                                        old(self).namespaces@,
                                        k2,
                                    ) || k2 == kk by {};
                            }
                            return Result::Ok(());
                        },
                        Rel::Greater => {
                            after = true;
                        },
                    }
                }
                proof {
                    // the key is new: everything before is below it, and by
                    // transitivity everything at or past the stop is above it
                    assert forall|j: int|
                        0 <= j < self.namespaces@.len() implies entry_key(
                        #[trigger] self.namespaces@[j],
                    ) != kk by {
                        if j < i {
                            lemma_chars_lt_irreflexive(kk);
                        } else {
                            assert(after && i < self.namespaces@.len());
                            if j > i {
                                lemma_chars_lt_transitive(
                                    kk,
                                    entry_key(self.namespaces@[i as int]),
                                    entry_key(self.namespaces@[j]),
                                );
                            }
                            lemma_chars_lt_irreflexive(kk);
                        }
                    };
                    assert(!has_key(self.namespaces@, kk));
                }
                let ghost pre = self.namespaces@;
                self.namespaces.insert(i, entry);
                proof {
                    assert(self.namespaces@ == pre.insert(i as int, entry));
                    assert(self.namespaces@[i as int] == entry);
                    assert forall|a: int, b: int|
                        0 <= a < b < self.namespaces@.len() implies chars_lt(
                        entry_key(#[trigger] self.namespaces@[a]),
                        entry_key(#[trigger] self.namespaces@[b]),
                    ) by {
                        let a0 = if a < i { a } else { a - 1 };
                        let b0 = if b <= i { b } else { b - 1 };
                        if a == i {
                            // entry below everything at or past the stop
                            assert(self.namespaces@[b] == pre[b - 1]);
                            if b - 1 == i {
                                assert(chars_lt(kk, entry_key(pre[i as int])));
                            } else {
                                lemma_chars_lt_transitive(
                                    kk,
                                    entry_key(pre[i as int]),
                                    entry_key(pre[b - 1]),
                                );
                            }
                        } else if b == i {
                            assert(self.namespaces@[a] == pre[a]);
                        } else {
                            assert(self.namespaces@[a] == pre[a0]);
                            assert(self.namespaces@[b] == pre[b0]);
                            if a < i && b > i {
                                assert(chars_lt(entry_key(pre[a0]), entry_key(pre[b0]))) by {
                                    if a0 == b0 {
                                        assert(chars_lt(entry_key(pre[a0]), kk));
                                        assert(chars_lt(kk, entry_key(pre[b0])));
                                        lemma_chars_lt_irreflexive(entry_key(pre[a0]));
                                        lemma_chars_lt_transitive(
                                            entry_key(pre[a0]),
                                            kk,
                                            entry_key(pre[b0]),
                                        );
                                    }
                                };
                            }
                        }
                    };
                    assert(has_key(self.namespaces@, kk)) by {
                        assert(entry_key(self.namespaces@[i as int]) == kk);
                    };
                    assert forall|k2: Seq<char>|
                        #[trigger] has_key(self.namespaces@, k2) <==> has_key(pre, k2) || k2
                            == kk by {
                        if has_key(self.namespaces@, k2) {
                            let j = choose|j: int|
                                0 <= j < self.namespaces@.len() && entry_key(
                                    #[trigger] self.namespaces@[j],
                                ) == k2;
                            if j != i {
                                let j0 = if j < i { j } else { j - 1 };
                                assert(self.namespaces@[j] == pre[j0]);
                                assert(entry_key(pre[j0]) == k2);
                            }
                        }
                        if has_key(pre, k2) {
                            let j = choose|j: int|
                                0 <= j < pre.len() && entry_key(#[trigger] pre[j]) == k2;
                            let j2 = if j < i { j } else { j + 1 };
                            assert(self.namespaces@[j2] == pre[j]);
                            assert(entry_key(self.namespaces@[j2]) == k2);
                        }
                        if k2 == kk {
                            assert(entry_key(self.namespaces@[i as int]) == k2);
                        }
                    };
                }
                Result::Ok(())
            },
            Option::None => Result::Err(limit.namespace),
        }
    }

    /// The stored limits, strictly increasing by namespace and limit.
    pub fn namespaces(&self) -> (r: &Vec<NamespaceTypes>)
        ensures
            r == &self.namespaces,
    {
        &self.namespaces
    }
}

/// Inserting a limit succeeds exactly when some registry namespace matches
/// it case-insensitively, and the spelling the registry stores is that
/// namespace's canonical one.
pub proof fn lemma_insert_case_insensitive(entries: Seq<NamespaceEntry>, lowered: Seq<char>)
    ensures
        find_lower_in(entries, lowered) is Some <==> exists|i: int|
            0 <= i < entries.len() && lower_of(#[trigger] entries[i].namespace@) == lowered,
        find_lower_in(entries, lowered) matches Option::Some(s) ==> lower_of(s) == lowered,
        find_lower_in(entries, lowered) matches Option::Some(s2) ==> exists|i: int|
            0 <= i < entries.len() && #[trigger] entries[i].namespace@ == s2,
{
    lemma_find_lower_in(entries, lowered);
}

} // verus!
