//! The query surface over a built tree: reverse dependency lookups, the
//! change-impact closure, per-file reachability, reverse file lookups, and
//! the advisory re-validation of a program's type references.

use vstd::prelude::*;
use crate::collections::{NameSet, lemma_first_index_contains, lemma_first_index_props};
use crate::cycles::dep_edge;
use crate::text::{copy_str, copy_string, views_of};
use crate::tree::TypeTree;

verus! {

/// The names of the nodes among the first `i` whose dependencies include
/// `q`, in node order.
pub open spec fn dependents_upto(t: TypeTree, q: Seq<char>, i: int) -> Seq<Seq<char>>
    decreases i,
{
    if i <= 0 {
        Seq::empty()
    } else {
        dependents_upto(t, q, i - 1) + if t.nodes.val_seq()[i - 1].dependencies.spec_contains(q) {
            seq![t.nodes.key_seq()[i - 1]]
        } else {
            Seq::empty()
        }
    }
}

/// All node names whose dependencies include `q`, in node order.
pub open spec fn spec_dependents(t: TypeTree, q: Seq<char>) -> Seq<Seq<char>> {
    dependents_upto(t, q, t.nodes.spec_len() as int)
}

/// `x` depends on `b` through one or more dependency edges.
pub open spec fn dep_reaches(t: TypeTree, x: Seq<char>, b: Seq<char>) -> bool {
    exists|p: Seq<Seq<char>>|
        {
            &&& p.len() >= 2
            &&& p[0] == x
            &&& p.last() == b
            &&& forall|i: int| 0 <= i < p.len() - 1 ==> dep_edge(t, #[trigger] p[i], p[i + 1])
        }
}

/// One more edge in front of a reaching path still reaches.
pub proof fn lemma_reach_step(t: TypeTree, x: Seq<char>, y: Seq<char>, b: Seq<char>)
    requires
        dep_edge(t, x, y),
        y == b || dep_reaches(t, y, b),
    ensures
        dep_reaches(t, x, b),
{
    if y == b {
        let p = seq![x, b];
        assert(p[0] == x && p.last() == b && p.len() >= 2);
        assert(forall|i: int| 0 <= i < p.len() - 1 ==> dep_edge(t, #[trigger] p[i], p[i + 1]));
    } else {
        let p0 = choose|p0: Seq<Seq<char>>|
            {
                &&& p0.len() >= 2
                &&& p0[0] == y
                &&& p0.last() == b
                &&& forall|i: int|
                    0 <= i < p0.len() - 1 ==> dep_edge(t, #[trigger] p0[i], p0[i + 1])
            };
        let p = seq![x] + p0;
        assert(p[0] == x && p.last() == b && p.len() >= 2);
        assert forall|i: int| 0 <= i < p.len() - 1 implies dep_edge(t, #[trigger] p[i], p[i + 1]) by {
            if i == 0 {
                assert(p[0] == x && p[1] == p0[0]);
            } else {
                assert(p[i] == p0[i - 1] && p[i + 1] == p0[i]);
                assert(dep_edge(t, p0[i - 1], p0[i]));
            }
        }
    }
}

/// Anything that reaches `b` lands in a set that holds `b` and is closed
/// under reverse edges.
proof fn lemma_closed_covers(t: TypeTree, s: NameSet, b: Seq<char>, x: Seq<char>, p: Seq<Seq<char>>)
    requires
        s.spec_contains(b),
        forall|y: Seq<char>, z: Seq<char>|
            s.spec_contains(z) && #[trigger] dep_edge(t, y, z) ==> s.spec_contains(y),
        p.len() >= 2,
        p[0] == x,
        p.last() == b,
        forall|i: int| 0 <= i < p.len() - 1 ==> dep_edge(t, #[trigger] p[i], p[i + 1]),
    ensures
        s.spec_contains(x),
    decreases p.len(),
{
    if p.len() == 2 {
        assert(dep_edge(t, p[0], p[1]));
    } else {
        let p2 = p.subrange(1, p.len() as int);
        assert(p2[0] == p[1] && p2.last() == p.last() && p2.len() == p.len() - 1);
        assert forall|i: int| 0 <= i < p2.len() - 1 implies dep_edge(t, #[trigger] p2[i], p2[i + 1]) by {
            assert(p2[i] == p[i + 1] && p2[i + 1] == p[i + 2]);
            assert(dep_edge(t, p[i + 1], p[i + 2]));
        }
        lemma_closed_covers(t, s, b, p[1], p2);
        assert(dep_edge(t, p[0], p[1]));
    }
}

/// A duplicate-free set drawing from the node keys and one extra name is
/// bounded by their number.
proof fn lemma_set_in_pool(s: NameSet, keys: Seq<Seq<char>>, q: Seq<char>)
    requires
        s.wf(),
        forall|i: int, j: int| 0 <= i < j < keys.len() ==> keys[i] != keys[j],
        forall|x: Seq<char>| #[trigger] s.spec_contains(x) ==> (x == q || keys.contains(x)),
    ensures
        s.spec_len() <= keys.len() + 1,
{
    let pool = keys.push(q);
    assert forall|x: Seq<char>| s.seq_view().contains(x) implies pool.contains(x) by {
        lemma_first_index_contains(s.seq_view(), x);
        assert(s.spec_contains(x));
        if x == q {
            assert(pool[pool.len() - 1] == x);
        } else {
            assert(keys.contains(x));
            let m = choose|m: int| 0 <= m < keys.len() && keys[m] == x;
            assert(pool[m] == x);
        }
    }
    crate::order::lemma_distinct_le_pool(s.seq_view(), pool);
}

impl TypeTree {
    /// The types that directly depend on `qualified_name`, in node order.
    #[verifier::loop_isolation(false)]
    pub fn get_dependents(&self, qualified_name: &str) -> (r: Vec<String>)
        ensures
            views_of(r@) == spec_dependents(*self, qualified_name@),
    {
        let mut out: Vec<String> = Vec::new();
        let n = self.nodes.len();
        let mut i: usize = 0;
        while i < n
            invariant
                0 <= i <= n,
                n == self.nodes.spec_len(),
                views_of(out@) == dependents_upto(*self, qualified_name@, i as int),
            decreases n - i,
        {
            let node = self.nodes.val_at(i);
            if node.dependencies.contains(qualified_name) {
                let ghost pre = out@;
                out.push(copy_string(self.nodes.key_at(i)));
                proof {
                    assert(views_of(out@) =~= views_of(pre).push(self.nodes.key_seq()[i as int]));
                    assert(views_of(out@) =~= dependents_upto(*self, qualified_name@, i + 1));
                }
            } else {
                proof {
                    assert(views_of(out@) + Seq::<Seq<char>>::empty() =~= views_of(out@));
                }
            }
            i += 1;
        }
        out
    }

    /// Everything a change to `qualified_name` can affect: the name itself
    /// plus every type that depends on it, directly or transitively.
    #[verifier::rlimit(100)]
    #[verifier::loop_isolation(false)]
    pub fn get_all_affected_types(&self, qualified_name: &str) -> (r: NameSet)
        requires
            self.wf(),
        ensures
            r.wf(),
            forall|x: Seq<char>|
                #[trigger] r.spec_contains(x) == (x == qualified_name@ || dep_reaches(
                    *self,
                    x,
                    qualified_name@,
                )),
    {
        let ghost q = qualified_name@;
        let n = self.nodes.len();
        let mut result = NameSet::new();
        let mut to_process: Vec<String> = Vec::new();
        to_process.push(copy_str(qualified_name));
        proof {
            assert(views_of(to_process@)[0] == q);
        }

        while to_process.len() > 0
            invariant
                n == self.nodes.spec_len(),
                result.wf(),
                forall|x: Seq<char>|
                    #[trigger] result.spec_contains(x) ==> (x == q || dep_reaches(*self, x, q)),
                forall|k: int|
                    0 <= k < to_process@.len() ==> ((#[trigger] to_process@[k])@ == q
                        || dep_reaches(*self, to_process@[k]@, q)),
                forall|y: Seq<char>, x: Seq<char>|
                    result.spec_contains(y) && #[trigger] dep_edge(*self, x, y) ==> (
                    result.spec_contains(x) || views_of(to_process@).contains(x)),
                result.spec_contains(q) || views_of(to_process@).contains(q),
                forall|x: Seq<char>|
                    #[trigger] result.spec_contains(x) ==> (x == q || self.nodes.key_seq().contains(
                        x,
                    )),
                result.spec_len() <= n + 1,
            decreases (n + 1 - result.spec_len()), to_process@.len(),
        {
            let ghost pre_tp = to_process@;
            let popped = to_process.pop();
            let current = match popped {
                Option::Some(c) => c,
                Option::None => vstd::pervasive::unreached(),
            };
            let ghost cv = current@;
            proof {
                assert(current == pre_tp.last());
                assert(to_process@ =~= pre_tp.drop_last());
                assert forall|x: Seq<char>| views_of(pre_tp).contains(x) implies (x == cv
                    || views_of(to_process@).contains(x)) by {
                    let k = choose|k: int| 0 <= k < pre_tp.len() && views_of(pre_tp)[k] == x;
                    if k < pre_tp.len() - 1 {
                        assert(views_of(to_process@)[k] == x);
                    }
                }
            }
            if !result.contains(current.as_str()) {
                let current_key = copy_string(&current);
                let ghost pre_result = result;
                result.add(current);
                proof {
                    lemma_first_index_contains(pre_result.seq_view(), cv);
                    assert(cv == q || dep_reaches(*self, cv, q));
                    // new elements stay within the pool
                    assert forall|x: Seq<char>| #[trigger] result.spec_contains(x) implies (x == q
                        || self.nodes.key_seq().contains(x)) by {
                        if x != cv {
                            assert(pre_result.spec_contains(x));
                        } else {
                            if cv != q {
                                assert(dep_reaches(*self, cv, q));
                                let p = choose|p: Seq<Seq<char>>|
                                    {
                                        &&& p.len() >= 2
                                        &&& p[0] == cv
                                        &&& p.last() == q
                                        &&& forall|i: int|
                                            0 <= i < p.len() - 1 ==> dep_edge(
                                                *self,
                                                #[trigger] p[i],
                                                p[i + 1],
                                            )
                                    };
                                assert(dep_edge(*self, p[0], p[1]));
                                lemma_first_index_props(self.nodes.key_seq(), cv);
                                lemma_first_index_contains(self.nodes.key_seq(), cv);
                            }
                        }
                    }
                    lemma_set_in_pool(result, self.nodes.key_seq(), q);
                }
                // queue every direct dependent of the processed name
                let mut i: usize = 0;
                while i < n
                    invariant
                        0 <= i <= n,
                        result.spec_contains(cv),
                        forall|k: int|
                            0 <= k < to_process@.len() ==> ((#[trigger] to_process@[k])@ == q
                                || dep_reaches(*self, to_process@[k]@, q)),
                        forall|y: Seq<char>, x: Seq<char>|
                            result.spec_contains(y) && y != cv && #[trigger] dep_edge(*self, x, y)
                                ==> (result.spec_contains(x) || views_of(to_process@).contains(x)),
                        forall|x: Seq<char>|
                            #[trigger] dep_edge(*self, x, cv) && (exists|m: int|
                                0 <= m < i && self.nodes.key_seq()[m] == x) ==> (
                            result.spec_contains(x) || views_of(to_process@).contains(x)),
                        result.spec_contains(q) || views_of(to_process@).contains(q),
                    decreases n - i,
                {
                    let node = self.nodes.val_at(i);
                    if node.dependencies.contains(current_key.as_str()) {
                        let ghost pre_tp2 = to_process@;
                        to_process.push(copy_string(self.nodes.key_at(i)));
                        proof {
                            let key = self.nodes.key_seq()[i as int];
                            assert(views_of(to_process@) =~= views_of(pre_tp2).push(key));
                            assert(dep_edge(*self, key, cv)) by {
                                crate::collections::lemma_first_index_at(
                                    self.nodes.key_seq(),
                                    key,
                                    i as int,
                                );
                            }
                            lemma_reach_step(*self, key, cv, q);
                            assert forall|x: Seq<char>|
                                views_of(pre_tp2).contains(x) implies views_of(
                                to_process@,
                            ).contains(x) by {
                                let k = choose|k: int|
                                    0 <= k < pre_tp2.len() && views_of(pre_tp2)[k] == x;
                                assert(views_of(to_process@)[k] == x);
                            }
                            assert(views_of(to_process@)[views_of(to_process@).len() - 1] == key);
                            assert(views_of(to_process@).contains(key));
                        }
                    } else {
                        proof {
                            let key = self.nodes.key_seq()[i as int];
                            crate::collections::lemma_first_index_at(
                                self.nodes.key_seq(),
                                key,
                                i as int,
                            );
                            assert(!dep_edge(*self, key, cv));
                        }
                    }
                    proof {
                        let key = self.nodes.key_seq()[i as int];
                        assert forall|x: Seq<char>|
                            #[trigger] dep_edge(*self, x, cv) && (exists|m: int|
                                0 <= m < i + 1 && self.nodes.key_seq()[m] == x) implies (
                        result.spec_contains(x) || views_of(to_process@).contains(x)) by {
                            let m = choose|m: int|
                                0 <= m < i + 1 && self.nodes.key_seq()[m] == x;
                            if m < i as int {
                                assert(exists|m2: int|
                                    0 <= m2 < i && self.nodes.key_seq()[m2] == x);
                            } else {
                                assert(x == key);
                            }
                        }
                    }
                    i += 1;
                }
                proof {
                    // the processed name's reverse edges are all queued
                    assert forall|x: Seq<char>| #[trigger] dep_edge(*self, x, cv) implies (
                    result.spec_contains(x) || views_of(to_process@).contains(x)) by {
                        match self.nodes.spec_get(x) {
                            Option::Some(nd) => {
                                lemma_first_index_props(self.nodes.key_seq(), x);
                                let m = crate::collections::first_index(self.nodes.key_seq(), x);
                                assert(self.nodes.key_seq()[m] == x);
                            },
                            Option::None => {},
                        }
                    }
                }
            } else {
                proof {
                    lemma_first_index_contains(result.seq_view(), cv);
                    assert(result.spec_contains(cv));
                }
            }
        }
        proof {
            assert forall|x: Seq<char>|
                #[trigger] result.spec_contains(x) == (x == q || dep_reaches(*self, x, q)) by {
                if x == q || dep_reaches(*self, x, q) {
                    if x == q {
                    } else {
                        let p = choose|p: Seq<Seq<char>>|
                            {
                                &&& p.len() >= 2
                                &&& p[0] == x
                                &&& p.last() == q
                                &&& forall|i: int|
                                    0 <= i < p.len() - 1 ==> dep_edge(*self, #[trigger] p[i], p[i + 1])
                            };
                        lemma_closed_covers(*self, result, q, x, p);
                    }
                }
            }
        }
        result
    }
}

impl TypeTree {
    /// The types a file may legally reference: those of its own package and
    /// those of the packages of its directly imported files. Transitive
    /// imports deliberately contribute nothing. A file that was never
    /// ingested reaches no types.
    #[verifier::rlimit(60)]
    #[verifier::loop_isolation(false)]
    pub fn get_reachable_types(&self, from_file: &str) -> (r: NameSet)
        requires
            self.wf(),
        ensures
            r.wf(),
            forall|x: Seq<char>|
                #[trigger] r.spec_contains(x) == (self.has_node(x) && self.spec_accessible(
                    from_file@,
                    x,
                )),
    {
        let ghost fv = from_file@;
        let n = self.nodes.len();
        let mut result = NameSet::new();

        let file_package = match self.file_to_package.get(from_file) {
            Option::Some(p) => p,
            Option::None => {
                proof {
                    assert forall|x: Seq<char>|
                        #[trigger] result.spec_contains(x) == (self.has_node(x)
                            && self.spec_accessible(fv, x)) by {
                        crate::collections::lemma_first_index_absent(result.seq_view(), x);
                        assert(self.file_package(fv) is None);
                        assert(!self.file_to_package.spec_contains_key(fv));
                        assert(!self.import_graph.spec_contains_key(fv));
                        assert(self.import_edges(fv) is None);
                        assert(self.edges_or_empty(fv) =~= Seq::<Seq<char>>::empty());
                    }
                }
                return result;
            },
        };

        // Types of the file's own package.
        let mut i: usize = 0;
        while i < n
            invariant
                0 <= i <= n,
                n == self.nodes.spec_len(),
                result.wf(),
                self.file_package(fv) == Option::Some(file_package@),
                forall|x: Seq<char>|
                    #[trigger] result.spec_contains(x) ==> (self.has_node(x)
                        && self.spec_accessible(fv, x)),
                forall|m: int|
                    0 <= m < i && crate::text::spec_prefix_before_last(
                        #[trigger] self.nodes.key_seq()[m],
                        '.',
                    ) == file_package@ ==> result.spec_contains(self.nodes.key_seq()[m]),
            decreases n - i,
        {
            let key = self.nodes.key_at(i);
            let type_package = crate::text::prefix_before_last(key.as_str(), '.');
            if crate::text::string_eq(&type_package, file_package) {
                result.add(copy_string(key));
                proof {
                    crate::collections::lemma_first_index_at(
                        self.nodes.key_seq(),
                        self.nodes.key_seq()[i as int],
                        i as int,
                    );
                }
            }
            i += 1;
        }

        // Types of the packages of directly imported files.
        match self.import_graph.get(from_file) {
            Option::Some(imported) => {
                let ghost edges = self.edges_or_empty(fv);
                let ne = imported.len();
                let mut k: usize = 0;
                while k < ne
                    invariant
                        0 <= k <= ne,
                        ne == edges.len(),
                        edges == views_of(imported@),
                        n == self.nodes.spec_len(),
                        result.wf(),
                        forall|x: Seq<char>|
                            #[trigger] result.spec_contains(x) ==> (self.has_node(x)
                                && self.spec_accessible(fv, x)),
                        forall|m: int|
                            0 <= m < n && crate::text::spec_prefix_before_last(
                                #[trigger] self.nodes.key_seq()[m],
                                '.',
                            ) == file_package@ ==> result.spec_contains(self.nodes.key_seq()[m]),
                        forall|k2: int, m: int|
                            0 <= k2 < k && 0 <= m < n && self.file_package(#[trigger] edges[k2])
                                == Option::Some(
                                crate::text::spec_prefix_before_last(
                                    #[trigger] self.nodes.key_seq()[m],
                                    '.',
                                ),
                            ) ==> result.spec_contains(self.nodes.key_seq()[m]),
                    decreases ne - k,
                {
                    proof {
                        assert(edges[k as int] == imported@[k as int]@);
                    }
                    match self.file_to_package.get(imported[k].as_str()) {
                        Option::Some(imported_package) => {
                            let mut i2: usize = 0;
                            while i2 < n
                                invariant
                                    0 <= i2 <= n,
                                    result.wf(),
                                    forall|x: Seq<char>|
                                        #[trigger] result.spec_contains(x) ==> (self.has_node(x)
                                            && self.spec_accessible(fv, x)),
                                    forall|m: int|
                                        0 <= m < n && crate::text::spec_prefix_before_last(
                                            #[trigger] self.nodes.key_seq()[m],
                                            '.',
                                        ) == file_package@ ==> result.spec_contains(
                                            self.nodes.key_seq()[m],
                                        ),
                                    forall|k2: int, m: int|
                                        0 <= k2 < k && 0 <= m < n && self.file_package(
                                            #[trigger] edges[k2],
                                        ) == Option::Some(
                                            crate::text::spec_prefix_before_last(
                                                #[trigger] self.nodes.key_seq()[m],
                                                '.',
                                            ),
                                        ) ==> result.spec_contains(self.nodes.key_seq()[m]),
                                    forall|m: int|
                                        0 <= m < i2 && crate::text::spec_prefix_before_last(
                                            #[trigger] self.nodes.key_seq()[m],
                                            '.',
                                        ) == imported_package@ ==> result.spec_contains(
                                            self.nodes.key_seq()[m],
                                        ),
                                decreases n - i2,
                            {
                                let key = self.nodes.key_at(i2);
                                let type_package = crate::text::prefix_before_last(
                                    key.as_str(),
                                    '.',
                                );
                                if crate::text::string_eq(&type_package, imported_package) {
                                    result.add(copy_string(key));
                                    proof {
                                        crate::collections::lemma_first_index_at(
                                            self.nodes.key_seq(),
                                            self.nodes.key_seq()[i2 as int],
                                            i2 as int,
                                        );
                                        assert(self.file_package(edges[k as int])
                                            == Option::Some(imported_package@));
                                    }
                                }
                                i2 += 1;
                            }
                        },
                        Option::None => {},
                    }
                    k += 1;
                }
            },
            Option::None => {
                proof {
                    assert(self.edges_or_empty(fv) =~= Seq::<Seq<char>>::empty());
                }
            },
        }

        proof {
            assert forall|x: Seq<char>|
                #[trigger] result.spec_contains(x) == (self.has_node(x) && self.spec_accessible(
                    fv,
                    x,
                )) by {
                if self.has_node(x) && self.spec_accessible(fv, x) {
                    lemma_first_index_props(self.nodes.key_seq(), x);
                    let m = crate::collections::first_index(self.nodes.key_seq(), x);
                    assert(self.nodes.key_seq()[m] == x);
                    let tp = crate::text::spec_prefix_before_last(x, '.');
                    if self.file_package(fv) == Option::Some(tp) {
                        assert(result.spec_contains(x));
                    } else {
                        let k2 = choose|k2: int|
                            0 <= k2 < self.edges_or_empty(fv).len() && self.file_package(
                                #[trigger] self.edges_or_empty(fv)[k2],
                            ) == Option::Some(tp);
                        assert(result.spec_contains(x));
                    }
                }
            }
        }
        result
    }

    /// The file that defines a type: the first ingested file whose package
    /// matches the name's package part and whose recorded definitions list
    /// the name.
    #[verifier::loop_isolation(false)]
    pub fn find_file_for_type(&self, qualified_name: &str) -> (r: Option<String>)
        requires
            self.wf(),
        ensures
            match r {
                Option::Some(f) => exists|i: int|
                    {
                        &&& 0 <= i < self.file_to_package.spec_len()
                        &&& f@ == self.file_to_package.key_seq()[i]
                        &&& (#[trigger] self.file_to_package.val_seq()[i])@
                            == crate::text::spec_prefix_before_last(qualified_name@, '.')
                        &&& (self.file_types(self.file_to_package.key_seq()[i])
                            matches Option::Some(ts) && ts.contains(qualified_name@))
                        &&& forall|j: int|
                            0 <= j < i ==> !((#[trigger] self.file_to_package.val_seq()[j])@
                                == crate::text::spec_prefix_before_last(qualified_name@, '.') && (
                            self.file_types(self.file_to_package.key_seq()[j])
                                matches Option::Some(ts2) && ts2.contains(qualified_name@)))
                    },
                Option::None => forall|j: int|
                    0 <= j < self.file_to_package.spec_len() ==> !((
                    #[trigger] self.file_to_package.val_seq()[j])@
                        == crate::text::spec_prefix_before_last(qualified_name@, '.') && (
                    self.file_types(self.file_to_package.key_seq()[j]) matches Option::Some(ts2)
                        && ts2.contains(qualified_name@))),
            },
    {
        let package_name = crate::text::prefix_before_last(qualified_name, '.');
        let n = self.file_to_package.len();
        let mut i: usize = 0;
        while i < n
            invariant
                0 <= i <= n,
                n == self.file_to_package.spec_len(),
                package_name@ == crate::text::spec_prefix_before_last(qualified_name@, '.'),
                forall|j: int|
                    0 <= j < i ==> !((#[trigger] self.file_to_package.val_seq()[j])@
                        == package_name@ && (self.file_types(self.file_to_package.key_seq()[j])
                        matches Option::Some(ts2) && ts2.contains(qualified_name@))),
            decreases n - i,
        {
            let file = self.file_to_package.key_at(i);
            let pkg = self.file_to_package.val_at(i);
            if crate::text::string_eq(pkg, &package_name) {
                match self.file_to_types.get(file.as_str()) {
                    Option::Some(types) => {
                        if crate::text::contains_string(types, qualified_name) {
                            proof {
                                assert(self.file_types(self.file_to_package.key_seq()[i as int])
                                    matches Option::Some(ts) && ts.contains(qualified_name@));
                            }
                            return Option::Some(copy_string(file));
                        }
                    },
                    Option::None => {},
                }
            }
            i += 1;
        }
        Option::None
    }
}

/// What one re-validated reference can complain about.
pub enum RefIssueV {
    /// The reference does not resolve; the payload is the resolution outcome.
    Unresolved(crate::resolve::ResolutionV),
    /// The reference resolves, but the name is outside the file's reach.
    Unreachable(Seq<char>),
}

/// The issue a field type raises during re-validation, if any: wrappers are
/// descended, primitives pass, and a reference must resolve and — when a
/// reachable set was computed and a file is known — fall inside that set.
pub open spec fn type_issue(
    t: TypeTree,
    pkg: Seq<char>,
    file: Option<Seq<char>>,
    raw: Seq<Seq<char>>,
    rt: NameSet,
    tv: crate::ast::TypeV,
) -> Option<RefIssueV>
    decreases tv,
{
    match tv {
        crate::ast::TypeV::Primitive(_) => Option::None,
        crate::ast::TypeV::Option(inner) => type_issue(t, pkg, file, raw, rt, *inner),
        crate::ast::TypeV::Vec(inner) => type_issue(t, pkg, file, raw, rt, *inner),
        crate::ast::TypeV::SchemaRef(r) => match crate::resolve::spec_resolve(t, pkg, file, raw, r) {
            crate::resolve::ResolutionV::Found(q) => {
                if rt.spec_len() > 0 && !rt.spec_contains(q) && file is Some {
                    Option::Some(RefIssueV::Unreachable(q))
                } else {
                    Option::None
                }
            },
            other => Option::Some(RefIssueV::Unresolved(other)),
        },
    }
}

/// How an issue reads as an error value.
pub open spec fn issue_err_matches(
    issue: RefIssueV,
    file: Option<Seq<char>>,
    e: crate::errors::TypeTreeError,
) -> bool {
    match issue {
        RefIssueV::Unresolved(res) => crate::resolve::res_err_matches(res, e),
        RefIssueV::Unreachable(q) => e matches crate::errors::TypeTreeError::TypeNotAccessible {
            qualified_name,
            from_file,
        } && qualified_name@ == q && Option::Some(from_file@) == file,
    }
}

/// The issues of a schema's fields, in field order.
pub open spec fn field_issues(
    t: TypeTree,
    pkg: Seq<char>,
    file: Option<Seq<char>>,
    raw: Seq<Seq<char>>,
    rt: NameSet,
    fields: Seq<crate::ast::SchemaFieldV>,
) -> Seq<RefIssueV>
    decreases fields.len(),
{
    if fields.len() == 0 {
        Seq::empty()
    } else {
        field_issues(t, pkg, file, raw, rt, fields.drop_last()) + (match type_issue(
            t,
            pkg,
            file,
            raw,
            rt,
            fields.last().field_type,
        ) {
            Option::Some(i) => seq![i],
            Option::None => Seq::empty(),
        })
    }
}

/// The issues of a program's schema definitions, in order.
pub open spec fn prog_issues(
    t: TypeTree,
    pkg: Seq<char>,
    file: Option<Seq<char>>,
    raw: Seq<Seq<char>>,
    rt: NameSet,
    defs: Seq<crate::ast::DefinitionV>,
) -> Seq<RefIssueV>
    decreases defs.len(),
{
    if defs.len() == 0 {
        Seq::empty()
    } else {
        prog_issues(t, pkg, file, raw, rt, defs.drop_last()) + (match defs.last() {
            crate::ast::DefinitionV::Schema(s) => field_issues(t, pkg, file, raw, rt, s.fields),
            _ => Seq::empty(),
        })
    }
}

impl TypeTree {
    /// Re-validates one field type: its reference must resolve, and — when
    /// a reachable set is supplied and the file is known — the resolved
    /// name must fall inside it.
    #[verifier::loop_isolation(false)]
    pub fn validate_type_reference(
        &self,
        type_with_span: &crate::ast::TypeWithSpan,
        current_program: &crate::ast::Program,
        reachable_types: &NameSet,
        current_file: &Option<String>,
    ) -> (r: Result<(), crate::errors::TypeTreeError>)
        ensures
            ({
                let issue = type_issue(
                    *self,
                    crate::ast::spec_package_string(current_program@),
                    crate::text::opt_view(*current_file),
                    current_program@.imports,
                    *reachable_types,
                    type_with_span@,
                );
                match r {
                    Result::Ok(_) => issue is None,
                    Result::Err(e) => issue matches Option::Some(i) && issue_err_matches(
                        i,
                        crate::text::opt_view(*current_file),
                        e,
                    ),
                }
            }),
        decreases *type_with_span,
    {
        let ghost pkg_v = crate::ast::spec_package_string(current_program@);
        let ghost file_v = crate::text::opt_view(*current_file);
        let ghost raw_v = current_program@.imports;
        match &type_with_span.type_value {
            crate::ast::Type::Primitive(_) => Result::Ok(()),
            crate::ast::Type::Option(inner) => {
                let res = self.validate_type_reference(
                    &**inner,
                    current_program,
                    reachable_types,
                    current_file,
                );
                proof {
                    assert(type_with_span@ == crate::ast::TypeV::Option(
                        Box::new((**inner)@),
                    ));
                }
                res
            },
            crate::ast::Type::Vec(inner) => {
                let res = self.validate_type_reference(
                    &**inner,
                    current_program,
                    reachable_types,
                    current_file,
                );
                proof {
                    assert(type_with_span@ == crate::ast::TypeV::Vec(Box::new((**inner)@)));
                }
                res
            },
            crate::ast::Type::SchemaRef(schema_ref) => {
                let current_package = current_program.package_string();
                proof {
                    assert(raw_v =~= current_program.imports@.map_values(
                        |s: crate::ast::ImportStmt| s@,
                    ));
                }
                match self.resolve_ref_in(
                    schema_ref,
                    &current_package,
                    current_file,
                    &current_program.imports,
                ) {
                    Result::Ok(q) => {
                        if reachable_types.len() > 0 && !reachable_types.contains(q.as_str()) {
                            match current_file {
                                Option::Some(f) => Result::Err(
                                    crate::errors::TypeTreeError::TypeNotAccessible {
                                        qualified_name: q,
                                        from_file: copy_string(f),
                                    },
                                ),
                                Option::None => Result::Ok(()),
                            }
                        } else {
                            Result::Ok(())
                        }
                    },
                    Result::Err(e) => Result::Err(e),
                }
            },
        }
    }

    /// Re-walks every schema field of a program and re-resolves each
    /// reference, additionally checking it against the file's reachable
    /// set; all failures are collected rather than the first returned.
    #[verifier::loop_isolation(false)]
    pub fn validate_type_references(&self, program: &crate::ast::Program) -> (r: Result<
        (),
        Vec<crate::errors::TypeTreeError>,
    >)
        requires
            self.wf(),
        ensures
            exists|rt: NameSet|
                {
                    let file = crate::resolve::prog_file(self.programs@, program@);
                    let issues = prog_issues(
                        *self,
                        crate::ast::spec_package_string(program@),
                        file,
                        program@.imports,
                        rt,
                        program@.definitions,
                    );
                    &&& #[trigger] rt.wf()
                    &&& (forall|q: Seq<char>|
                        #[trigger] rt.spec_contains(q) == (file matches Option::Some(f)
                            && self.has_node(q) && self.spec_accessible(f, q)))
                    &&& ((r is Ok) == (issues.len() == 0))
                    &&& (r matches Err(es) ==> es@.len() == issues.len() && (forall|k: int|
                        0 <= k < issues.len() ==> issue_err_matches(
                            issues[k],
                            file,
                            #[trigger] es@[k],
                        )))
                },
    {
        let current_file = self.find_file_for_program(program);
        let reachable_types = match &current_file {
            Option::Some(f) => self.get_reachable_types(f.as_str()),
            Option::None => NameSet::new(),
        };
        let ghost rt = reachable_types;
        let ghost pkg_v = crate::ast::spec_package_string(program@);
        let ghost file_v = crate::resolve::prog_file(self.programs@, program@);
        let ghost raw_v = program@.imports;
        let ghost defs = program@.definitions;
        proof {
            assert forall|q: Seq<char>|
                #[trigger] rt.spec_contains(q) == (file_v matches Option::Some(f)
                    && self.has_node(q) && self.spec_accessible(f, q)) by {
                match file_v {
                    Option::Some(_) => {},
                    Option::None => {
                        crate::collections::lemma_first_index_absent(rt.seq_view(), q);
                    },
                }
            }
        }

        let mut errors: Vec<crate::errors::TypeTreeError> = Vec::new();
        let n = program.definitions.len();
        let mut d: usize = 0;
        while d < n
            invariant
                0 <= d <= n,
                n == defs.len(),
                defs == program@.definitions,
                rt == reachable_types,
                errors@.len() == prog_issues(*self, pkg_v, file_v, raw_v, rt, defs.take(d as int)).len(),
                forall|k: int|
                    0 <= k < errors@.len() ==> issue_err_matches(
                        prog_issues(*self, pkg_v, file_v, raw_v, rt, defs.take(d as int))[k],
                        file_v,
                        #[trigger] errors@[k],
                    ),
            decreases n - d,
        {
            proof {
                assert(defs.take(d + 1).drop_last() =~= defs.take(d as int));
                assert(defs.take(d + 1).last() == defs[d as int]);
                assert(defs[d as int] == program.definitions@[d as int]@);
            }
            match &program.definitions[d] {
                crate::ast::Definition::Schema(s) => {
                    let ghost fields_v = s@.fields;
                    let nf = s.fields.len();
                    let mut f: usize = 0;
                    while f < nf
                        invariant
                            0 <= f <= nf,
                            nf == fields_v.len(),
                            fields_v == s@.fields,
                            rt == reachable_types,
                            errors@.len() == (prog_issues(
                                *self,
                                pkg_v,
                                file_v,
                                raw_v,
                                rt,
                                defs.take(d as int),
                            ) + field_issues(
                                *self,
                                pkg_v,
                                file_v,
                                raw_v,
                                rt,
                                fields_v.take(f as int),
                            )).len(),
                            forall|k: int|
                                0 <= k < errors@.len() ==> issue_err_matches(
                                    (prog_issues(
                                        *self,
                                        pkg_v,
                                        file_v,
                                        raw_v,
                                        rt,
                                        defs.take(d as int),
                                    ) + field_issues(
                                        *self,
                                        pkg_v,
                                        file_v,
                                        raw_v,
                                        rt,
                                        fields_v.take(f as int),
                                    ))[k],
                                    file_v,
                                    #[trigger] errors@[k],
                                ),
                        decreases nf - f,
                    {
                        proof {
                            assert(fields_v.take(f + 1).drop_last() =~= fields_v.take(f as int));
                            assert(fields_v.take(f + 1).last() == fields_v[f as int]);
                            assert(fields_v[f as int] == s.fields@[f as int]@);
                        }
                        match self.validate_type_reference(
                            &s.fields[f].field_type,
                            program,
                            &reachable_types,
                            &current_file,
                        ) {
                            Result::Ok(_) => {
                                proof {
                                    assert((prog_issues(
                                        *self,
                                        pkg_v,
                                        file_v,
                                        raw_v,
                                        rt,
                                        defs.take(d as int),
                                    ) + field_issues(
                                        *self,
                                        pkg_v,
                                        file_v,
                                        raw_v,
                                        rt,
                                        fields_v.take(f + 1),
                                    )) =~= (prog_issues(
                                        *self,
                                        pkg_v,
                                        file_v,
                                        raw_v,
                                        rt,
                                        defs.take(d as int),
                                    ) + field_issues(
                                        *self,
                                        pkg_v,
                                        file_v,
                                        raw_v,
                                        rt,
                                        fields_v.take(f as int),
                                    )));
                                }
                            },
                            Result::Err(e) => {
                                let ghost pre = errors@;
                                errors.push(e);
                                proof {
                                    assert((prog_issues(
                                        *self,
                                        pkg_v,
                                        file_v,
                                        raw_v,
                                        rt,
                                        defs.take(d as int),
                                    ) + field_issues(
                                        *self,
                                        pkg_v,
                                        file_v,
                                        raw_v,
                                        rt,
                                        fields_v.take(f + 1),
                                    )) =~= (prog_issues(
                                        *self,
                                        pkg_v,
                                        file_v,
                                        raw_v,
                                        rt,
                                        defs.take(d as int),
                                    ) + field_issues(
                                        *self,
                                        pkg_v,
                                        file_v,
                                        raw_v,
                                        rt,
                                        fields_v.take(f as int),
                                    )).push(
                                        type_issue(
                                            *self,
                                            pkg_v,
                                            file_v,
                                            raw_v,
                                            rt,
                                            fields_v[f as int].field_type,
                                        )->Some_0,
                                    ));
                                }
                            },
                        }
                        f += 1;
                    }
                    proof {
                        assert(fields_v.take(nf as int) =~= fields_v);
                        assert(prog_issues(*self, pkg_v, file_v, raw_v, rt, defs.take(d + 1))
                            == prog_issues(*self, pkg_v, file_v, raw_v, rt, defs.take(d as int))
                            + field_issues(*self, pkg_v, file_v, raw_v, rt, fields_v));
                    }
                },
                _ => {
                    proof {
                        assert(prog_issues(*self, pkg_v, file_v, raw_v, rt, defs.take(d + 1))
                            =~= prog_issues(*self, pkg_v, file_v, raw_v, rt, defs.take(d as int)));
                    }
                },
            }
            d += 1;
        }
        proof {
            assert(defs.take(n as int) =~= defs);
        }
        if errors.is_empty() {
            Result::Ok(())
        } else {
            Result::Err(errors)
        }
    }
}

} // verus!
