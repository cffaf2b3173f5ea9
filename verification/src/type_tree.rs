use vstd::prelude::*;
use crate::naming::TypeName;
use crate::type_reader::TypeRow;
use vstd::string::StrSliceExecFns;

verus! {

/// One resolved type as the tree files it: its name and the registry row it
/// came from.
#[derive(Clone, Debug)]
pub struct TypeDefinition {
    pub name: TypeName,
    pub row: TypeRow,
}

/// The children of a tree node, keyed by the next namespace segment.
pub struct TypeNamespaces(pub Vec<(String, TypeTree)>);

/// A namespaced tree of types: the types directly in this namespace, the
/// child namespaces, and a flag the caller can set to have a well-known
/// namespace re-exported.
pub struct TypeTree {
    pub types: Vec<TypeDefinition>,
    pub namespaces: TypeNamespaces,
    pub include_foundation: bool,
}

/// The position of the first dot at or after `i`; the sequence length when
/// there is none.
pub open spec fn first_dot(s: Seq<char>, i: int) -> int
    decreases s.len() - i,
{
    if i < 0 || i >= s.len() {
        s.len() as int
    } else if s[i] == '.' {
        i
    } else {
        first_dot(s, i + 1)
    }
}

/// What [`first_dot`] finds: a position past `i`, inside the text exactly
/// when a dot exists, with nothing before it a dot.
pub proof fn lemma_first_dot(s: Seq<char>, i: int)
    requires
        0 <= i,
    ensures
        ({
            let d = first_dot(s, i);
            &&& d <= s.len()
            &&& i <= s.len() ==> i <= d
            &&& d < s.len() ==> s[d] == '.'
            &&& forall|k: int| i <= k < d ==> s[k] != '.'
        }),
    decreases s.len() - i,
{
    if i < s.len() && s[i] != '.' {
        lemma_first_dot(s, i + 1);
    }
}

/// A dotted namespace split at each dot, in order.
pub open spec fn spec_split(s: Seq<char>) -> Seq<Seq<char>>
    decreases s.len(),
{
    let d0 = first_dot(s, 0);
    let d = if 0 <= d0 && d0 <= s.len() {
        d0
    } else {
        s.len() as int
    };
    if d == s.len() {
        seq![s]
    } else {
        seq![s.subrange(0, d)] + spec_split(s.subrange(d + 1, s.len() as int))
    }
}

/// Splits a dotted namespace into its segments.
pub fn split_namespace(namespace: &String) -> (r: Vec<String>)
    ensures
        path_view(r@) == spec_split(namespace@),
        r@.len() >= 1,
    decreases namespace@.len(),
{
    let n = namespace.as_str().unicode_len();
    let ghost d = first_dot(namespace@, 0);
    proof {
        lemma_first_dot(namespace@, 0);
    }
    let mut i: usize = 0;
    while i < n && namespace.as_str().get_char(i) != '.'
        invariant
            n == namespace@.len(),
            0 <= i <= d,
            d == first_dot(namespace@, 0),
            d <= n,
            forall|k: int| 0 <= k < d ==> namespace@[k] != '.',
            d < n ==> namespace@[d] == '.',
        decreases n - i,
    {
        i += 1;
    }
    proof {
        if i < d {
            assert(namespace@[i as int] != '.');
        }
        assert(i == d);
    }
    if i == n {
        let mut out: Vec<String> = Vec::new();
        out.push(namespace.clone());
        proof {
            assert(path_view(out@) =~= spec_split(namespace@));
        }
        out
    } else {
        let head = namespace.as_str().substring_char(0, i).to_owned();
        let tail = namespace.as_str().substring_char(i + 1, n).to_owned();
        let mut out = split_namespace(&tail);
        out.insert(0, head);
        proof {
            assert(out@.map_values(|s2: String| s2@) =~= seq![namespace@.subrange(0, d)]
                + spec_split(namespace@.subrange(d + 1, namespace@.len() as int)));
        }
        out
    }
}

/// `q` leads toward `p`: it is an initial run of `p`'s segments.
pub open spec fn is_prefix_of(q: Seq<Seq<char>>, p: Seq<Seq<char>>) -> bool {
    q.len() <= p.len() && q == p.subrange(0, q.len() as int)
}

/// The view of a namespace path: each segment's characters.
pub open spec fn path_view(path: Seq<String>) -> Seq<Seq<char>> {
    path.map_values(|s: String| s@)
}

impl TypeTree {
    /// An empty node.
    pub fn new() -> (r: TypeTree)
        ensures
            r.types@.len() == 0,
            r.namespaces.0@.len() == 0,
            !r.include_foundation,
    {
        TypeTree { types: Vec::new(), namespaces: TypeNamespaces(Vec::new()), include_foundation: false }
    }

    /// This node has a child under the segment.
    pub open spec fn has_child(self, seg: Seq<char>) -> bool {
        exists|j: int|
            0 <= j < self.namespaces.0@.len() && (#[trigger] self.namespaces.0@[j]).0@ == seg
    }

    /// Where the child sits.
    pub open spec fn child_index(self, seg: Seq<char>) -> int {
        choose|j: int|
            0 <= j < self.namespaces.0@.len() && (#[trigger] self.namespaces.0@[j]).0@ == seg
    }

    /// The child under the segment, if any.
    pub open spec fn child(self, seg: Seq<char>) -> Option<TypeTree> {
        if self.has_child(seg) {
            Option::Some(self.namespaces.0@[self.child_index(seg)].1)
        } else {
            Option::None
        }
    }

    /// The segments this node has children under.
    pub open spec fn child_keys(self) -> Set<Seq<char>> {
        Set::new(|seg: Seq<char>| self.has_child(seg))
    }

    /// The node a path of segments leads to, if every segment exists.
    pub open spec fn node_at(self, path: Seq<Seq<char>>) -> Option<TypeTree>
        decreases path.len(),
    {
        if path.len() == 0 {
            Option::Some(self)
        } else {
            match self.child(path[0]) {
                Option::Some(t) => t.node_at(path.drop_first()),
                Option::None => Option::None,
            }
        }
    }

    /// The types filed at a path; empty when the node does not exist.
    pub open spec fn types_at(self, path: Seq<Seq<char>>) -> Seq<TypeDefinition> {
        match self.node_at(path) {
            Option::Some(t) => t.types@,
            Option::None => Seq::empty(),
        }
    }

    /// The path's node exists and files the given row.
    pub open spec fn contains_row(self, path: Seq<Seq<char>>, row: crate::row::Row) -> bool {
        exists|i: int|
            0 <= i < self.types_at(path).len() && (#[trigger] self.types_at(path)[i]).row.spec_row()
                == row
    }

    /// Every node's children are keyed by distinct segments.
    pub open spec fn tree_wf(self) -> bool
        decreases self,
    {
        &&& forall|a: int, b: int|
            0 <= a < b < self.namespaces.0@.len() ==> self.namespaces.0@[a].0@
                != self.namespaces.0@[b].0@
        &&& forall|j: int|
            0 <= j < self.namespaces.0@.len() ==> (#[trigger] self.namespaces.0@[j].1).tree_wf()
    }
}

impl TypeTree {
    /// Files `t` at the node the remaining segments of `path` lead to,
    /// creating missing nodes on the way and reusing existing ones: the
    /// target's types gain `t` at the end, nodes off the path are untouched,
    /// and each node on the path keeps its types and gains at most the next
    /// segment as a child key.
    #[verifier::loop_isolation(false)]
    pub fn insert_at(&mut self, path: &Vec<String>, pos: usize, t: TypeDefinition)
        requires
            old(self).tree_wf(),
            pos <= path@.len(),
        ensures
            ({
                let p = path_view(path@).skip(pos as int);
                &&& final(self).tree_wf()
                &&& final(self).node_at(p) is Some
                &&& final(self).node_at(p).unwrap().types@ == old(self).types_at(p).push(t)
                &&& old(self).node_at(p) is Some ==> final(self).node_at(p).unwrap().child_keys()
                    == old(self).node_at(p).unwrap().child_keys() && final(self).node_at(
                    p,
                ).unwrap().include_foundation == old(self).node_at(p).unwrap().include_foundation
                &&& forall|q: Seq<Seq<char>>|
                    !is_prefix_of(q, p) ==> #[trigger] final(self).node_at(q) == old(
                        self,
                    ).node_at(q)
                &&& forall|q: Seq<Seq<char>>|
                    is_prefix_of(q, p) && q.len() < p.len() && old(self).node_at(q) is Some
                        ==> (#[trigger] final(self).node_at(q)) is Some && final(self).node_at(
                        q,
                    ).unwrap().types@ == old(self).node_at(q).unwrap().types@ && final(self)
                        .node_at(q).unwrap().child_keys() == old(self).node_at(
                        q,
                    ).unwrap().child_keys().insert(p[q.len() as int]) && final(self).node_at(
                        q,
                    ).unwrap().include_foundation == old(self).node_at(
                        q,
                    ).unwrap().include_foundation
                &&& forall|q: Seq<Seq<char>>|
                    is_prefix_of(q, p) && q.len() < p.len() && old(self).node_at(q) is None
                        ==> (#[trigger] final(self).node_at(q)).unwrap().types@.len() == 0
                &&& forall|q: Seq<Seq<char>>|
                    is_prefix_of(q, p) ==> (#[trigger] final(self).node_at(q)) is Some
            }),
        decreases path@.len() - pos,
    {
        let ghost p = path_view(path@).skip(pos as int);
        if pos == path.len() {
            proof {
                assert(p.len() == 0);
            }
            self.types.push(t);
            proof {
                let selfv = *self;
                let oldv = *old(self);
                assert(selfv.node_at(p) == Option::Some(selfv));
                assert(oldv.node_at(p) == Option::Some(oldv));
                assert(selfv.child_keys() =~= oldv.child_keys());
                assert forall|q: Seq<Seq<char>>|
                    !is_prefix_of(q, p) implies #[trigger] selfv.node_at(q) == oldv.node_at(
                    q,
                ) by {
                    if q.len() == 0 {
                        assert(q =~= p.subrange(0, q.len() as int));
                    }
                    assert(q.len() > 0);
                    assert forall|s2: Seq<char>| #[trigger] selfv.child(s2) == oldv.child(
                        s2,
                    ) by {
                        if oldv.has_child(s2) {
                            let w = oldv.child_index(s2);
                            lemma_child_index_unique(selfv, w, s2);
                            lemma_child_index_unique(oldv, w, s2);
                        } else {
                            if selfv.has_child(s2) {
                                let w = selfv.child_index(s2);
                                assert(oldv.namespaces.0@[w].0@ == s2);
                            }
                        }
                    };
                    assert(selfv.child(q[0]) == oldv.child(q[0]));
                };
            }
        } else {
            let seg = &path[pos];
            let ghost p1 = path_view(path@).skip(pos + 1 as int);
            proof {
                assert(p.len() == path@.len() - pos);
                assert(p[0] == path@[pos as int]@);
                assert(p.drop_first() =~= p1);
            }
            let n = self.namespaces.0.len();
            let mut j: usize = 0;
            let mut found: bool = false;
            while j < n && !found
                invariant
                    0 <= j <= n,
                    !found ==> forall|b: int|
                        0 <= b < j ==> (#[trigger] self.namespaces.0@[b]).0@ != seg@,
                    found ==> j < n && self.namespaces.0@[j as int].0@ == seg@,
                    *self == *old(self),
                decreases n - j + (if found { 0int } else { 1int }),
            {
                if self.namespaces.0[j].0 == *seg {
                    found = true;
                } else {
                    j += 1;
                }
            }
            if found {
                proof {
                    lemma_child_index_unique(*self, j as int, seg@);
                }
                let pair = self.namespaces.0.remove(j);
                let key = pair.0;
                let mut child = pair.1;
                let ghost base = child;
                child.insert_at(path, pos + 1, t);
                self.namespaces.0.insert(j, (key, child));
                proof {
                    let selfv = *self;
                    let oldv = *old(self);
                    assert(selfv.namespaces.0@ =~= oldv.namespaces.0@.update(
                        j as int,
                        (oldv.namespaces.0@[j as int].0, child),
                    ));
                    assert(selfv.namespaces.0@[j as int].0@ == seg@);
                    assert forall|a: int, b: int|
                        0 <= a < b < selfv.namespaces.0@.len() implies selfv.namespaces.0@[a].0@
                        != selfv.namespaces.0@[b].0@ by {
                        assert(selfv.namespaces.0@[a].0 == oldv.namespaces.0@[a].0);
                        assert(selfv.namespaces.0@[b].0 == oldv.namespaces.0@[b].0);
                    };
                    assert forall|jj: int|
                        0 <= jj < selfv.namespaces.0@.len() implies (#[trigger] selfv.namespaces.0@[jj].1).tree_wf() by {
                        if jj != j {
                            assert(selfv.namespaces.0@[jj].1 == oldv.namespaces.0@[jj].1);
                            assert(oldv.namespaces.0@[jj].1.tree_wf());
                        }
                    };
                    lemma_child_index_unique(selfv, j as int, seg@);
                    assert(selfv.child(seg@) == Option::Some(child));
                    lemma_child_index_unique(oldv, j as int, seg@);
                    assert(oldv.child(seg@) == Option::Some(base));
                    assert forall|s2: Seq<char>| s2 != seg@ implies #[trigger] selfv.child(s2)
                        == oldv.child(s2) by {
                        if oldv.has_child(s2) {
                            let w = oldv.child_index(s2);
                            assert(selfv.namespaces.0@[w].0 == oldv.namespaces.0@[w].0);
                            lemma_child_index_unique(selfv, w, s2);
                            lemma_child_index_unique(oldv, w, s2);
                            assert(w != j);
                            assert(selfv.namespaces.0@[w].1 == oldv.namespaces.0@[w].1);
                        } else {
                            if selfv.has_child(s2) {
                                let w = selfv.child_index(s2);
                                assert(oldv.namespaces.0@[w].0@ == s2);
                            }
                        }
                    };
                    assert forall|s2: Seq<char>|
                        selfv.child_keys().contains(s2) == oldv.child_keys().insert(
                        seg@,
                    ).contains(s2) by {
                        if s2 != seg@ {
                            assert(selfv.child(s2) == oldv.child(s2));
                            assert(selfv.has_child(s2) == oldv.has_child(s2));
                        }
                    };
                    assert(selfv.child_keys() =~= oldv.child_keys().insert(seg@));
                    lemma_insert_lift(oldv, selfv, true, base, child, seg@, p, p1, t);
                }
            } else {
                let mut child = TypeTree {
                    types: Vec::new(),
                    namespaces: TypeNamespaces(Vec::new()),
                    include_foundation: false,
                };
                let ghost base = child;
                child.insert_at(path, pos + 1, t);
                let key = seg.clone();
                self.namespaces.0.push((key, child));
                proof {
                    let selfv = *self;
                    let oldv = *old(self);
                    let nn = oldv.namespaces.0@.len() as int;
                    assert(selfv.namespaces.0@ =~= oldv.namespaces.0@.push(
                        (selfv.namespaces.0@[nn].0, child),
                    ));
                    assert(selfv.namespaces.0@[nn].0@ == seg@);
                    assert forall|a: int, b: int|
                        0 <= a < b < selfv.namespaces.0@.len() implies selfv.namespaces.0@[a].0@
                        != selfv.namespaces.0@[b].0@ by {
                        if b < nn {
                            assert(selfv.namespaces.0@[a].0 == oldv.namespaces.0@[a].0);
                            assert(selfv.namespaces.0@[b].0 == oldv.namespaces.0@[b].0);
                            assert(oldv.namespaces.0@[a].0@ != oldv.namespaces.0@[b].0@);
                        } else {
                            assert(selfv.namespaces.0@[a].0 == oldv.namespaces.0@[a].0);
                            assert(oldv.namespaces.0@[a].0@ != seg@);
                        }
                    };
                    assert forall|jj: int|
                        0 <= jj < selfv.namespaces.0@.len() implies (#[trigger] selfv.namespaces.0@[jj].1).tree_wf() by {
                        if jj < nn {
                            assert(selfv.namespaces.0@[jj].1 == oldv.namespaces.0@[jj].1);
                            assert(oldv.namespaces.0@[jj].1.tree_wf());
                        }
                    };
                    lemma_child_index_unique(selfv, nn, seg@);
                    assert(selfv.child(seg@) == Option::Some(child));
                    assert(!oldv.has_child(seg@));
                    assert forall|s2: Seq<char>| s2 != seg@ implies #[trigger] selfv.child(s2)
                        == oldv.child(s2) by {
                        if oldv.has_child(s2) {
                            let w = oldv.child_index(s2);
                            assert(selfv.namespaces.0@[w].0 == oldv.namespaces.0@[w].0);
                            lemma_child_index_unique(selfv, w, s2);
                            lemma_child_index_unique(oldv, w, s2);
                            assert(selfv.namespaces.0@[w].1 == oldv.namespaces.0@[w].1);
                        } else {
                            if selfv.has_child(s2) {
                                let w = selfv.child_index(s2);
                                if w < nn {
                                    assert(oldv.namespaces.0@[w].0@ == s2);
                                }
                            }
                        }
                    };
                    assert forall|s2: Seq<char>|
                        selfv.child_keys().contains(s2) == oldv.child_keys().insert(
                        seg@,
                    ).contains(s2) by {
                        if s2 != seg@ {
                            assert(selfv.child(s2) == oldv.child(s2));
                            assert(selfv.has_child(s2) == oldv.has_child(s2));
                        }
                    };
                    assert(selfv.child_keys() =~= oldv.child_keys().insert(seg@));
                    lemma_insert_lift(oldv, selfv, false, base, child, seg@, p, p1, t);
                }
            }
        }
    }
}

/// Lifts a child insertion's effect one level up: when only the child under
/// `seg` changed, and changed as an insertion along `p1` does, the parent
/// changes exactly as an insertion along `p = seg` + `p1` does.
proof fn lemma_insert_lift(
    oldv: TypeTree,
    selfv: TypeTree,
    existed: bool,
    base: TypeTree,
    child: TypeTree,
    seg: Seq<char>,
    p: Seq<Seq<char>>,
    p1: Seq<Seq<char>>,
    t: TypeDefinition,
)
    requires
        p.len() > 0,
        p[0] == seg,
        p.drop_first() == p1,
        selfv.types@ == oldv.types@,
        selfv.include_foundation == oldv.include_foundation,
        selfv.child(seg) == Option::Some(child),
        existed ==> oldv.child(seg) == Option::Some(base),
        !existed ==> !oldv.has_child(seg) && base.types@.len() == 0 && base.namespaces.0@.len()
            == 0,
        forall|s2: Seq<char>| s2 != seg ==> #[trigger] selfv.child(s2) == oldv.child(s2),
        selfv.child_keys() == oldv.child_keys().insert(seg),
        child.node_at(p1) is Some,
        child.node_at(p1).unwrap().types@ == base.types_at(p1).push(t),
        base.node_at(p1) is Some ==> child.node_at(p1).unwrap().child_keys() == base.node_at(
            p1,
        ).unwrap().child_keys() && child.node_at(p1).unwrap().include_foundation == base.node_at(
            p1,
        ).unwrap().include_foundation,
        forall|q: Seq<Seq<char>>|
            !is_prefix_of(q, p1) ==> #[trigger] child.node_at(q) == base.node_at(q),
        forall|q: Seq<Seq<char>>|
            is_prefix_of(q, p1) && q.len() < p1.len() && base.node_at(q) is Some ==> (
            #[trigger] child.node_at(q)) is Some && child.node_at(q).unwrap().types@
                == base.node_at(q).unwrap().types@ && child.node_at(q).unwrap().child_keys()
                == base.node_at(q).unwrap().child_keys().insert(p1[q.len() as int])
                && child.node_at(q).unwrap().include_foundation == base.node_at(
                q,
            ).unwrap().include_foundation,
        forall|q: Seq<Seq<char>>|
            is_prefix_of(q, p1) && q.len() < p1.len() && base.node_at(q) is None ==> (
            #[trigger] child.node_at(q)).unwrap().types@.len() == 0,
        forall|q: Seq<Seq<char>>| is_prefix_of(q, p1) ==> (#[trigger] child.node_at(q)) is Some,
    ensures
        selfv.node_at(p) is Some,
        selfv.node_at(p).unwrap().types@ == oldv.types_at(p).push(t),
        oldv.node_at(p) is Some ==> selfv.node_at(p).unwrap().child_keys() == oldv.node_at(
            p,
        ).unwrap().child_keys() && selfv.node_at(p).unwrap().include_foundation == oldv.node_at(
            p,
        ).unwrap().include_foundation,
        forall|q: Seq<Seq<char>>|
            !is_prefix_of(q, p) ==> #[trigger] selfv.node_at(q) == oldv.node_at(q),
        forall|q: Seq<Seq<char>>|
            is_prefix_of(q, p) && q.len() < p.len() && oldv.node_at(q) is Some ==> (
            #[trigger] selfv.node_at(q)) is Some && selfv.node_at(q).unwrap().types@
                == oldv.node_at(q).unwrap().types@ && selfv.node_at(q).unwrap().child_keys()
                == oldv.node_at(q).unwrap().child_keys().insert(p[q.len() as int])
                && selfv.node_at(q).unwrap().include_foundation == oldv.node_at(
                q,
            ).unwrap().include_foundation,
        forall|q: Seq<Seq<char>>|
            is_prefix_of(q, p) && q.len() < p.len() && oldv.node_at(q) is None ==> (
            #[trigger] selfv.node_at(q)).unwrap().types@.len() == 0,
        forall|q: Seq<Seq<char>>| is_prefix_of(q, p) ==> (#[trigger] selfv.node_at(q)) is Some,
{
    assert(p1 =~= p1.subrange(0, p1.len() as int));
    assert(is_prefix_of(p1, p1));
    assert(selfv.node_at(p) == child.node_at(p1));
    if existed {
        assert(oldv.node_at(p) == base.node_at(p1));
        assert(oldv.types_at(p) == base.types_at(p1));
    } else {
        assert(oldv.node_at(p) is None);
        if p1.len() > 0 {
            assert(base.node_at(p1) is None);
            assert(base.types_at(p1) =~= Seq::<TypeDefinition>::empty());
        } else {
            assert(base.types_at(p1) =~= base.types@);
            assert(base.types_at(p1) =~= Seq::<TypeDefinition>::empty());
        }
        assert(oldv.types_at(p) =~= Seq::<TypeDefinition>::empty());
        assert(oldv.types_at(p) =~= base.types_at(p1));
    }
    assert forall|q: Seq<Seq<char>>|
        !is_prefix_of(q, p) implies #[trigger] selfv.node_at(q) == oldv.node_at(q) by {
        if q.len() == 0 {
            assert(q =~= p.subrange(0, q.len() as int));
            assert(is_prefix_of(q, p));
        } else {
            if q[0] == seg {
                let q1 = q.drop_first();
                assert(q == seq![q[0]] + q1) by {
                    assert(q =~= seq![q[0]] + q1);
                };
                assert(!is_prefix_of(q1, p1)) by {
                    if is_prefix_of(q1, p1) {
                        assert(q =~= p.subrange(0, q.len() as int));
                    }
                };
                assert(selfv.node_at(q) == child.node_at(q1));
                assert(child.node_at(q1) == base.node_at(q1));
                if existed {
                    assert(oldv.node_at(q) == base.node_at(q1));
                } else {
                    assert(oldv.node_at(q) is None);
                    if q1.len() > 0 {
                        assert(base.node_at(q1) is None);
                    } else {
                        assert(is_prefix_of(q1, p1));
                    }
                }
            } else {
                assert(selfv.child(q[0]) == oldv.child(q[0]));
            }
        }
    };
    assert forall|q: Seq<Seq<char>>|
        is_prefix_of(q, p) implies (#[trigger] selfv.node_at(q)) is Some by {
        if q.len() == 0 {
        } else {
            assert(q[0] == p[0]);
            let q1 = q.drop_first();
            assert(is_prefix_of(q1, p1)) by {
                assert(q1 =~= p1.subrange(0, q1.len() as int));
            };
            assert(selfv.node_at(q) == child.node_at(q1));
        }
    };
    assert forall|q: Seq<Seq<char>>|
        is_prefix_of(q, p) && q.len() < p.len() && oldv.node_at(q) is Some implies (
    #[trigger] selfv.node_at(q)) is Some && selfv.node_at(q).unwrap().types@ == oldv.node_at(
        q,
    ).unwrap().types@ && selfv.node_at(q).unwrap().child_keys() == oldv.node_at(
        q,
    ).unwrap().child_keys().insert(p[q.len() as int]) && selfv.node_at(
        q,
    ).unwrap().include_foundation == oldv.node_at(q).unwrap().include_foundation by {
        if q.len() == 0 {
            assert(selfv.node_at(q) == Option::Some(selfv));
            assert(oldv.node_at(q) == Option::Some(oldv));
        } else {
            assert(q[0] == p[0]);
            let q1 = q.drop_first();
            assert(is_prefix_of(q1, p1)) by {
                assert(q1 =~= p1.subrange(0, q1.len() as int));
            };
            assert(q1.len() < p1.len());
            assert(existed) by {
                if !existed {
                    assert(oldv.node_at(q) is None);
                }
            };
            assert(oldv.node_at(q) == base.node_at(q1));
            assert(selfv.node_at(q) == child.node_at(q1));
            assert(p[q.len() as int] == p1[q1.len() as int]);
        }
    };
    assert forall|q: Seq<Seq<char>>|
        is_prefix_of(q, p) && q.len() < p.len() && oldv.node_at(q) is None implies (
    #[trigger] selfv.node_at(q)).unwrap().types@.len() == 0 by {
        assert(q.len() > 0);
        assert(q[0] == p[0]);
        let q1 = q.drop_first();
        assert(is_prefix_of(q1, p1)) by {
            assert(q1 =~= p1.subrange(0, q1.len() as int));
        };
        assert(q1.len() < p1.len());
        assert(selfv.node_at(q) == child.node_at(q1));
        if existed {
            assert(oldv.node_at(q) == base.node_at(q1));
        } else {
            if q1.len() == 0 {
                assert(base.node_at(q1) == Option::Some(base));
                assert(child.node_at(q1).unwrap().types@ == base.node_at(
                    q1,
                ).unwrap().types@);
            } else {
                assert(base.node_at(q1) is None);
            }
        }
    };
}

impl TypeTree {
    /// Files a resolved type into the tree under its dotted namespace,
    /// splitting the namespace at each dot and creating or reusing one node
    /// per segment.
    pub fn insert(&mut self, namespace: &String, t: TypeDefinition)
        requires
            old(self).tree_wf(),
        ensures
            ({
                let p = spec_split(namespace@);
                &&& final(self).tree_wf()
                &&& final(self).node_at(p) is Some
                &&& final(self).node_at(p).unwrap().types@ == old(self).types_at(p).push(t)
                &&& forall|q: Seq<Seq<char>>|
                    !is_prefix_of(q, p) ==> #[trigger] final(self).node_at(q) == old(
                        self,
                    ).node_at(q)
                &&& forall|q: Seq<Seq<char>>|
                    is_prefix_of(q, p) && q.len() < p.len() && old(self).node_at(q) is Some
                        ==> (#[trigger] final(self).node_at(q)) is Some && final(self).node_at(
                        q,
                    ).unwrap().types@ == old(self).node_at(q).unwrap().types@ && final(self)
                        .node_at(q).unwrap().child_keys() == old(self).node_at(
                        q,
                    ).unwrap().child_keys().insert(p[q.len() as int])
                &&& forall|q: Seq<Seq<char>>|
                    is_prefix_of(q, p) && q.len() < p.len() && old(self).node_at(q) is None
                        ==> (#[trigger] final(self).node_at(q)).unwrap().types@.len() == 0
                &&& forall|q: Seq<Seq<char>>|
                    is_prefix_of(q, p) ==> (#[trigger] final(self).node_at(q)) is Some
            }),
    {
        let path = split_namespace(namespace);
        proof {
            assert(path_view(path@).skip(0) =~= spec_split(namespace@));
        }
        self.insert_at(&path, 0, t);
    }

    /// Deletes the node a dotted namespace leads to, and everything under
    /// it; nothing else changes. A namespace that leads nowhere deletes
    /// nothing.
    pub fn remove(&mut self, namespace: &String)
        requires
            old(self).tree_wf(),
        ensures
            ({
                let p = spec_split(namespace@);
                &&& final(self).tree_wf()
                &&& forall|q: Seq<Seq<char>>|
                    is_prefix_of(p, q) ==> (#[trigger] final(self).node_at(q)) is None
                &&& forall|q: Seq<Seq<char>>|
                    !is_prefix_of(p, q) && !is_prefix_of(q, p) ==> #[trigger] final(self).node_at(
                        q,
                    ) == old(self).node_at(q)
                &&& forall|q: Seq<Seq<char>>|
                    is_prefix_of(q, p) && q.len() < p.len() ==> ((#[trigger] final(self).node_at(
                        q,
                    )) is Some <==> old(self).node_at(q) is Some) && (old(self).node_at(
                        q,
                    ) is Some ==> final(self).node_at(q).unwrap().types@ == old(self).node_at(
                        q,
                    ).unwrap().types@ && final(self).node_at(q).unwrap().include_foundation == old(
                        self,
                    ).node_at(q).unwrap().include_foundation)
            }),
    {
        let path = split_namespace(namespace);
        proof {
            assert(path_view(path@).skip(0) =~= spec_split(namespace@));
        }
        self.remove_at(&path, 0);
    }

    /// Deletes the child holding the remaining segments of `path`, if every
    /// segment exists.
    #[verifier::loop_isolation(false)]
    fn remove_at(&mut self, path: &Vec<String>, pos: usize)
        requires
            old(self).tree_wf(),
            pos < path@.len(),
        ensures
            ({
                let p = path_view(path@).skip(pos as int);
                &&& final(self).tree_wf()
                &&& forall|q: Seq<Seq<char>>|
                    is_prefix_of(p, q) ==> (#[trigger] final(self).node_at(q)) is None
                &&& forall|q: Seq<Seq<char>>|
                    !is_prefix_of(p, q) && !is_prefix_of(q, p) ==> #[trigger] final(self).node_at(
                        q,
                    ) == old(self).node_at(q)
                &&& forall|q: Seq<Seq<char>>|
                    is_prefix_of(q, p) && q.len() < p.len() ==> ((#[trigger] final(self).node_at(
                        q,
                    )) is Some <==> old(self).node_at(q) is Some) && (old(self).node_at(
                        q,
                    ) is Some ==> final(self).node_at(q).unwrap().types@ == old(self).node_at(
                        q,
                    ).unwrap().types@ && final(self).node_at(q).unwrap().include_foundation == old(
                        self,
                    ).node_at(q).unwrap().include_foundation)
            }),
        decreases path@.len() - pos,
    {
        let ghost p = path_view(path@).skip(pos as int);
        proof {
            assert(p.len() == path@.len() - pos);
            assert(p[0] == path@[pos as int]@);
        }
        let seg = &path[pos];
        let plen = path.len();
        let n = self.namespaces.0.len();
        let mut j: usize = 0;
        let mut found: bool = false;
        while j < n && !found
            invariant
                0 <= j <= n,
                !found ==> forall|b: int|
                    0 <= b < j ==> (#[trigger] self.namespaces.0@[b]).0@ != seg@,
                found ==> j < n && self.namespaces.0@[j as int].0@ == seg@,
                *self == *old(self),
            decreases n - j + (if found { 0int } else { 1int }),
        {
            if self.namespaces.0[j].0 == *seg {
                found = true;
            } else {
                j += 1;
            }
        }
        if !found {
            proof {
                let selfv = *self;
                if selfv.has_child(seg@) {
                    let w = selfv.child_index(seg@);
                    assert(selfv.namespaces.0@[w].0@ != seg@);
                }
                assert(selfv.child(seg@) is None);
                assert forall|q: Seq<Seq<char>>|
                    is_prefix_of(p, q) implies (#[trigger] selfv.node_at(q)) is None by {
                    assert(q[0] == p[0]);
                };
            }
            return ;
        }
        proof {
            lemma_child_index_unique(*self, j as int, seg@);
        }
        if pos + 1 == plen {
            self.namespaces.0.remove(j);
            proof {
                let selfv = *self;
                let oldv = *old(self);
                assert(p =~= seq![seg@]);
                assert forall|a: int, b: int|
                    0 <= a < b < selfv.namespaces.0@.len() implies selfv.namespaces.0@[a].0@
                    != selfv.namespaces.0@[b].0@ by {
                    let a0 = if a < j { a } else { a + 1 };
                    let b0 = if b < j { b } else { b + 1 };
                    assert(selfv.namespaces.0@[a] == oldv.namespaces.0@[a0]);
                    assert(selfv.namespaces.0@[b] == oldv.namespaces.0@[b0]);
                };
                assert forall|jj: int|
                    0 <= jj < selfv.namespaces.0@.len() implies (#[trigger] selfv.namespaces.0@[jj].1).tree_wf() by {
                    let j0 = if jj < j { jj } else { jj + 1 };
                    assert(selfv.namespaces.0@[jj] == oldv.namespaces.0@[j0]);
                    assert(oldv.namespaces.0@[j0].1.tree_wf());
                };
                assert(selfv.tree_wf());
                assert(!selfv.has_child(seg@)) by {
                    if selfv.has_child(seg@) {
                        let w = selfv.child_index(seg@);
                        let w0 = if w < j { w } else { w + 1 };
                        assert(selfv.namespaces.0@[w] == oldv.namespaces.0@[w0]);
                        assert(oldv.namespaces.0@[w0].0@ != oldv.namespaces.0@[j as int].0@);
                    }
                };
                assert forall|s2: Seq<char>| s2 != seg@ implies #[trigger] selfv.child(s2)
                    == oldv.child(s2) by {
                    if oldv.has_child(s2) {
                        let w0 = oldv.child_index(s2);
                        assert(w0 != j);
                        let w = if w0 < j { w0 } else { w0 - 1 };
                        assert(selfv.namespaces.0@[w] == oldv.namespaces.0@[w0]);
                        lemma_child_index_unique(selfv, w, s2);
                        lemma_child_index_unique(oldv, w0, s2);
                    } else {
                        if selfv.has_child(s2) {
                            let w = selfv.child_index(s2);
                            let w0 = if w < j { w } else { w + 1 };
                            assert(selfv.namespaces.0@[w] == oldv.namespaces.0@[w0]);
                        }
                    }
                };
                assert forall|q: Seq<Seq<char>>|
                    is_prefix_of(p, q) implies (#[trigger] selfv.node_at(q)) is None by {
                    assert(q.len() >= 1);
                    assert(q[0] == p[0]);
                    assert(selfv.child(q[0]) is None);
                };
                assert forall|q: Seq<Seq<char>>|
                    !is_prefix_of(p, q) && !is_prefix_of(q, p) implies #[trigger] selfv.node_at(
                    q,
                ) == oldv.node_at(q) by {
                    if q.len() == 0 {
                        assert(q =~= p.subrange(0, 0));
                    } else {
                        if q[0] == seg@ {
                            assert(seq![q[0]] =~= p.subrange(0, 1));
                            assert(is_prefix_of(p, q)) by {
                                assert(p =~= q.subrange(0, 1));
                            };
                        } else {
                            assert(selfv.child(q[0]) == oldv.child(q[0]));
                        }
                    }
                };
            }
        } else {
            let pair = self.namespaces.0.remove(j);
            let key = pair.0;
            let mut child = pair.1;
            let ghost base = child;
            child.remove_at(path, pos + 1);
            self.namespaces.0.insert(j, (key, child));
            proof {
                let selfv = *self;
                let oldv = *old(self);
                let p1 = path_view(path@).skip(pos + 1 as int);
                assert(p.drop_first() =~= p1);
                assert(selfv.namespaces.0@ =~= oldv.namespaces.0@.update(
                    j as int,
                    (oldv.namespaces.0@[j as int].0, child),
                ));
                assert forall|a: int, b: int|
                    0 <= a < b < selfv.namespaces.0@.len() implies selfv.namespaces.0@[a].0@
                    != selfv.namespaces.0@[b].0@ by {
                    assert(selfv.namespaces.0@[a].0 == oldv.namespaces.0@[a].0);
                    assert(selfv.namespaces.0@[b].0 == oldv.namespaces.0@[b].0);
                };
                assert forall|jj: int|
                    0 <= jj < selfv.namespaces.0@.len() implies (#[trigger] selfv.namespaces.0@[jj].1).tree_wf() by {
                    if jj != j {
                        assert(selfv.namespaces.0@[jj].1 == oldv.namespaces.0@[jj].1);
                        assert(oldv.namespaces.0@[jj].1.tree_wf());
                    }
                };
                assert(selfv.tree_wf());
                lemma_child_index_unique(selfv, j as int, seg@);
                lemma_child_index_unique(oldv, j as int, seg@);
                assert(selfv.child(seg@) == Option::Some(child));
                assert(oldv.child(seg@) == Option::Some(base));
                assert forall|s2: Seq<char>| s2 != seg@ implies #[trigger] selfv.child(s2)
                    == oldv.child(s2) by {
                    if oldv.has_child(s2) {
                        let w = oldv.child_index(s2);
                        assert(selfv.namespaces.0@[w].0 == oldv.namespaces.0@[w].0);
                        lemma_child_index_unique(selfv, w, s2);
                        lemma_child_index_unique(oldv, w, s2);
                        assert(w != j);
                        assert(selfv.namespaces.0@[w].1 == oldv.namespaces.0@[w].1);
                    } else {
                        if selfv.has_child(s2) {
                            let w = selfv.child_index(s2);
                            assert(oldv.namespaces.0@[w].0@ == s2);
                        }
                    }
                };
                lemma_remove_lift(oldv, selfv, base, child, seg@, p, p1);
            }
        }
    }

    /// Marks the well-known root namespace so the emission backend also
    /// re-exports the foundation namespace; the node is created when absent,
    /// and nothing else changes.
    #[verifier::loop_isolation(false)]
    pub fn reexport(&mut self)
        requires
            old(self).tree_wf(),
        ensures
            final(self).tree_wf(),
            final(self).child("Windows"@) is Some,
            final(self).child("Windows"@).unwrap().include_foundation,
            old(self).has_child("Windows"@) ==> final(self).child(
                "Windows"@,
            ).unwrap().types@ == old(self).child("Windows"@).unwrap().types@ && final(self).child(
                "Windows"@,
            ).unwrap().namespaces.0@ == old(self).child("Windows"@).unwrap().namespaces.0@,
            forall|s2: Seq<char>|
                s2 != "Windows"@ ==> #[trigger] final(self).child(s2) == old(self).child(s2),
            final(self).types@ == old(self).types@,
    {
        let key: String = "Windows".to_owned();
        let n = self.namespaces.0.len();
        let mut j: usize = 0;
        let mut found: bool = false;
        while j < n && !found
            invariant
                0 <= j <= n,
                n == self.namespaces.0@.len(),
                !found ==> forall|b: int|
                    0 <= b < j ==> (#[trigger] self.namespaces.0@[b]).0@ != "Windows"@,
                found ==> j < n && self.namespaces.0@[j as int].0@ == "Windows"@,
                *self == *old(self),
            decreases n - j + (if found { 0int } else { 1int }),
        {
            if self.namespaces.0[j].0 == key {
                found = true;
            } else {
                j += 1;
            }
        }
        if found {
            proof {
                lemma_child_index_unique(*old(self), j as int, "Windows"@);
            }
            let pair = self.namespaces.0.remove(j);
            let name = pair.0;
            let mut child = pair.1;
            child.include_foundation = true;
            let ghost child2 = child;
            self.namespaces.0.insert(j, (name, child));
            proof {
                let selfv = *self;
                let oldv = *old(self);
                assert(selfv.namespaces.0@ =~= oldv.namespaces.0@.update(
                    j as int,
                    (oldv.namespaces.0@[j as int].0, child2),
                ));
                assert forall|a: int, b: int|
                    0 <= a < b < selfv.namespaces.0@.len() implies selfv.namespaces.0@[a].0@
                    != selfv.namespaces.0@[b].0@ by {
                    assert(selfv.namespaces.0@[a].0 == oldv.namespaces.0@[a].0);
                    assert(selfv.namespaces.0@[b].0 == oldv.namespaces.0@[b].0);
                };
                assert forall|jj: int|
                    0 <= jj < selfv.namespaces.0@.len() implies (#[trigger] selfv.namespaces.0@[jj].1).tree_wf() by {
                    if jj != j {
                        assert(selfv.namespaces.0@[jj].1 == oldv.namespaces.0@[jj].1);
                        assert(oldv.namespaces.0@[jj].1.tree_wf());
                    } else {
                        assert(oldv.namespaces.0@[j as int].1.tree_wf());
                    }
                };
                lemma_child_index_unique(selfv, j as int, "Windows"@);
                assert forall|s2: Seq<char>| s2 != "Windows"@ implies #[trigger] selfv.child(s2)
                    == oldv.child(s2) by {
                    if oldv.has_child(s2) {
                        let w = oldv.child_index(s2);
                        assert(selfv.namespaces.0@[w].0 == oldv.namespaces.0@[w].0);
                        lemma_child_index_unique(selfv, w, s2);
                        lemma_child_index_unique(oldv, w, s2);
                        assert(w != j);
                        assert(selfv.namespaces.0@[w].1 == oldv.namespaces.0@[w].1);
                    } else {
                        if selfv.has_child(s2) {
                            let w = selfv.child_index(s2);
                            assert(oldv.namespaces.0@[w].0@ == s2);
                        }
                    }
                };
            }
        } else {
            let child = TypeTree {
                types: Vec::new(),
                namespaces: TypeNamespaces(Vec::new()),
                include_foundation: true,
            };
            let ghost child2 = child;
            self.namespaces.0.push((key, child));
            proof {
                let selfv = *self;
                let oldv = *old(self);
                let nn = oldv.namespaces.0@.len() as int;
                assert(selfv.namespaces.0@ =~= oldv.namespaces.0@.push(
                    (selfv.namespaces.0@[nn].0, child2),
                ));
                assert forall|a: int, b: int|
                    0 <= a < b < selfv.namespaces.0@.len() implies selfv.namespaces.0@[a].0@
                    != selfv.namespaces.0@[b].0@ by {
                    if b < nn {
                        assert(selfv.namespaces.0@[a].0 == oldv.namespaces.0@[a].0);
                        assert(selfv.namespaces.0@[b].0 == oldv.namespaces.0@[b].0);
                        assert(oldv.namespaces.0@[a].0@ != oldv.namespaces.0@[b].0@);
                    } else {
                        assert(selfv.namespaces.0@[a].0 == oldv.namespaces.0@[a].0);
                        assert(oldv.namespaces.0@[a].0@ != "Windows"@);
                    }
                };
                assert forall|jj: int|
                    0 <= jj < selfv.namespaces.0@.len() implies (#[trigger] selfv.namespaces.0@[jj].1).tree_wf() by {
                    if jj < nn {
                        assert(selfv.namespaces.0@[jj].1 == oldv.namespaces.0@[jj].1);
                        assert(oldv.namespaces.0@[jj].1.tree_wf());
                    }
                };
                lemma_child_index_unique(selfv, nn, "Windows"@);
                assert forall|s2: Seq<char>| s2 != "Windows"@ implies #[trigger] selfv.child(s2)
                    == oldv.child(s2) by {
                    if oldv.has_child(s2) {
                        let w = oldv.child_index(s2);
                        assert(selfv.namespaces.0@[w].0 == oldv.namespaces.0@[w].0);
                        lemma_child_index_unique(selfv, w, s2);
                        lemma_child_index_unique(oldv, w, s2);
                        assert(selfv.namespaces.0@[w].1 == oldv.namespaces.0@[w].1);
                    } else {
                        if selfv.has_child(s2) {
                            let w = selfv.child_index(s2);
                            if w < nn {
                                assert(oldv.namespaces.0@[w].0@ == s2);
                            }
                        }
                    }
                };
            }
        }
    }
}

/// With distinct keys, any slot holding `seg` is the slot the child lookup
/// uses.
pub proof fn lemma_child_index_unique(t: TypeTree, j: int, seg: Seq<char>)
    requires
        forall|a: int, b: int|
            0 <= a < b < t.namespaces.0@.len() ==> t.namespaces.0@[a].0@ != t.namespaces.0@[b].0@,
        0 <= j < t.namespaces.0@.len(),
        t.namespaces.0@[j].0@ == seg,
    ensures
        t.has_child(seg),
        t.child_index(seg) == j,
{
    let w = t.child_index(seg);
    if w != j {
        if w < j {
            assert(t.namespaces.0@[w].0@ != t.namespaces.0@[j].0@);
        } else {
            assert(t.namespaces.0@[j].0@ != t.namespaces.0@[w].0@);
        }
    }
}

/// A node that exists down a path exists down every initial run of it.
pub proof fn lemma_node_at_prefix(t: TypeTree, q: Seq<Seq<char>>, p: Seq<Seq<char>>)
    requires
        is_prefix_of(q, p),
        t.node_at(p) is Some,
    ensures
        t.node_at(q) is Some,
    decreases q.len(),
{
    if q.len() > 0 {
        assert(q[0] == p[0]);
        match t.child(p[0]) {
            Option::Some(c) => {
                assert(q.drop_first() == p.drop_first().subrange(0, q.drop_first().len() as int));
                lemma_node_at_prefix(c, q.drop_first(), p.drop_first());
            },
            Option::None => {},
        }
    }
}

/// Lifts a child deletion's effect one level up: when only the child under
/// `seg` changed, and changed as a deletion along `p1` does, the parent
/// changes exactly as a deletion along `p = seg` + `p1` does.
proof fn lemma_remove_lift(
    oldv: TypeTree,
    selfv: TypeTree,
    base: TypeTree,
    child: TypeTree,
    seg: Seq<char>,
    p: Seq<Seq<char>>,
    p1: Seq<Seq<char>>,
)
    requires
        p.len() > 1,
        p[0] == seg,
        p.drop_first() == p1,
        selfv.types@ == oldv.types@,
        selfv.include_foundation == oldv.include_foundation,
        selfv.child(seg) == Option::Some(child),
        oldv.child(seg) == Option::Some(base),
        forall|s2: Seq<char>| s2 != seg ==> #[trigger] selfv.child(s2) == oldv.child(s2),
        forall|q: Seq<Seq<char>>|
            is_prefix_of(p1, q) ==> (#[trigger] child.node_at(q)) is None,
        forall|q: Seq<Seq<char>>|
            !is_prefix_of(p1, q) && !is_prefix_of(q, p1) ==> #[trigger] child.node_at(q)
                == base.node_at(q),
        forall|q: Seq<Seq<char>>|
            is_prefix_of(q, p1) && q.len() < p1.len() ==> ((#[trigger] child.node_at(
                q,
            )) is Some <==> base.node_at(q) is Some) && (base.node_at(q) is Some
                ==> child.node_at(q).unwrap().types@ == base.node_at(q).unwrap().types@
                && child.node_at(q).unwrap().include_foundation == base.node_at(
                q,
            ).unwrap().include_foundation),
    ensures
        forall|q: Seq<Seq<char>>|
            is_prefix_of(p, q) ==> (#[trigger] selfv.node_at(q)) is None,
        forall|q: Seq<Seq<char>>|
            !is_prefix_of(p, q) && !is_prefix_of(q, p) ==> #[trigger] selfv.node_at(q)
                == oldv.node_at(q),
        forall|q: Seq<Seq<char>>|
            is_prefix_of(q, p) && q.len() < p.len() ==> ((#[trigger] selfv.node_at(
                q,
            )) is Some <==> oldv.node_at(q) is Some) && (oldv.node_at(q) is Some
                ==> selfv.node_at(q).unwrap().types@ == oldv.node_at(q).unwrap().types@
                && selfv.node_at(q).unwrap().include_foundation == oldv.node_at(
                q,
            ).unwrap().include_foundation),
        selfv.include_foundation == oldv.include_foundation,
{
    assert forall|q: Seq<Seq<char>>|
        is_prefix_of(p, q) implies (#[trigger] selfv.node_at(q)) is None by {
        assert(q.len() >= p.len());
        assert(q[0] == p[0]);
        let q1 = q.drop_first();
        assert(is_prefix_of(p1, q1)) by {
            assert(p1 =~= q1.subrange(0, p1.len() as int));
        };
        assert(selfv.node_at(q) == child.node_at(q1));
    };
    assert forall|q: Seq<Seq<char>>|
        !is_prefix_of(p, q) && !is_prefix_of(q, p) implies #[trigger] selfv.node_at(q)
        == oldv.node_at(q) by {
        if q.len() == 0 {
            assert(q =~= p.subrange(0, 0));
        } else {
            if q[0] == seg {
                let q1 = q.drop_first();
                assert(q == seq![q[0]] + q1) by {
                    assert(q =~= seq![q[0]] + q1);
                };
                assert(!is_prefix_of(p1, q1)) by {
                    if is_prefix_of(p1, q1) {
                        assert(p1 == q1.subrange(0, p1.len() as int));
                        assert forall|k: int| 0 <= k < p.len() implies p[k] == q[k] by {
                            if k > 0 {
                                assert(p[k] == p1[k - 1]);
                                assert(q[k] == q1[k - 1]);
                                assert(q1.subrange(0, p1.len() as int)[k - 1] == q1[k - 1]);
                            }
                        };
                        assert(p =~= q.subrange(0, p.len() as int));
                    }
                };
                assert(!is_prefix_of(q1, p1)) by {
                    if is_prefix_of(q1, p1) {
                        assert(q =~= p.subrange(0, q.len() as int));
                    }
                };
                assert(selfv.node_at(q) == child.node_at(q1));
                assert(oldv.node_at(q) == base.node_at(q1));
            } else {
                assert(selfv.child(q[0]) == oldv.child(q[0]));
            }
        }
    };
    assert forall|q: Seq<Seq<char>>|
        is_prefix_of(q, p) && q.len() < p.len() implies ((#[trigger] selfv.node_at(
        q,
    )) is Some <==> oldv.node_at(q) is Some) && (oldv.node_at(q) is Some ==> selfv.node_at(
        q,
    ).unwrap().types@ == oldv.node_at(q).unwrap().types@ && selfv.node_at(
        q,
    ).unwrap().include_foundation == oldv.node_at(q).unwrap().include_foundation) by {
        if q.len() == 0 {
        } else {
            assert(q[0] == p[0]);
            let q1 = q.drop_first();
            assert(is_prefix_of(q1, p1)) by {
                assert(q1 =~= p1.subrange(0, q1.len() as int));
            };
            assert(q1.len() < p1.len());
            assert(selfv.node_at(q) == child.node_at(q1));
            assert(oldv.node_at(q) == base.node_at(q1));
        }
    };
}


} // verus!