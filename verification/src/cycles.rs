//! Cycle checks over the two graphs the tree holds, and the topological
//! generation order that code emitters consume.
//!
//! A cycle among type dependencies is fatal to construction; a cycle among
//! file imports is an advisory diagnostic. Both reuse the self-certifying
//! ordering of [`crate::order`].

use vstd::prelude::*;
use crate::collections::{NameMap, lemma_first_index_contains, lemma_first_index_props};
use crate::errors::TypeTreeError;
use crate::order::{
    graph_acyclic, graph_cycle, graph_edge, is_topo_order, lemma_order_acyclic,
    topo_order_or_cycle,
};
use crate::text::{copy_string, join_strings, spec_join, views_of};
use crate::tree::{TypeNode, TypeTree};

verus! {

/// A dependency edge: the node named `a` lists `b` among its dependencies.
pub open spec fn dep_edge(t: TypeTree, a: Seq<char>, b: Seq<char>) -> bool {
    match t.nodes.spec_get(a) {
        Option::Some(n) => n.dependencies.spec_contains(b),
        Option::None => false,
    }
}

/// A cycle in the type-dependency graph, ending where it starts.
pub open spec fn dep_cycle(t: TypeTree, c: Seq<Seq<char>>) -> bool {
    c.len() >= 2 && c[0] == c.last() && (forall|i: int|
        0 <= i < c.len() - 1 ==> dep_edge(t, #[trigger] c[i], c[i + 1]))
}

/// The type-dependency graph has no cycle.
pub open spec fn dep_acyclic(t: TypeTree) -> bool {
    forall|c: Seq<Seq<char>>| !dep_cycle(t, c)
}

/// An import edge between two ingested files; an import that resolves to an
/// unknown file is no edge.
pub open spec fn import_edge(t: TypeTree, a: Seq<char>, b: Seq<char>) -> bool {
    &&& t.import_graph.spec_contains_key(b)
    &&& match t.import_graph.spec_get(a) {
        Option::Some(es) => views_of(es@).contains(b),
        Option::None => false,
    }
}

/// A cycle in the import graph, ending where it starts.
pub open spec fn import_cycle(t: TypeTree, c: Seq<Seq<char>>) -> bool {
    c.len() >= 2 && c[0] == c.last() && (forall|i: int|
        0 <= i < c.len() - 1 ==> import_edge(t, #[trigger] c[i], c[i + 1]))
}

/// The import graph has no cycle.
pub open spec fn import_acyclic(t: TypeTree) -> bool {
    forall|c: Seq<Seq<char>>| !import_cycle(t, c)
}

/// The adjacency map mirrors the tree's dependency edges.
pub open spec fn dep_graph_matches(t: TypeTree, g: NameMap<Vec<String>>) -> bool {
    &&& g.key_seq() == t.nodes.key_seq()
    &&& g.val_seq().len() == t.nodes.val_seq().len()
    &&& forall|i: int|
        0 <= i < g.val_seq().len() ==> views_of((#[trigger] g.val_seq()[i])@)
            == t.nodes.val_seq()[i].dependencies.seq_view()
}

/// On a well-formed tree, the mirrored adjacency map has exactly the
/// dependency edges.
proof fn lemma_dep_graph_edges(t: TypeTree, g: NameMap<Vec<String>>)
    requires
        t.wf(),
        dep_graph_matches(t, g),
    ensures
        forall|a: Seq<char>, b: Seq<char>| #[trigger] graph_edge(g, a, b) == dep_edge(t, a, b),
{
    assert forall|a: Seq<char>, b: Seq<char>| #[trigger] graph_edge(g, a, b) == dep_edge(
        t,
        a,
        b,
    ) by {
        g.lemma_val_len();
        t.nodes.lemma_val_len();
        lemma_first_index_props(g.key_seq(), a);
        lemma_first_index_props(g.key_seq(), b);
        let fi = crate::collections::first_index(g.key_seq(), a);
        if fi >= 0 {
            assert(views_of(g.val_seq()[fi]@) == t.nodes.val_seq()[fi].dependencies.seq_view());
            lemma_first_index_contains(t.nodes.val_seq()[fi].dependencies.seq_view(), b);
            if t.nodes.val_seq()[fi].dependencies.spec_contains(b) {
                assert(t.nodes.spec_contains_key(b));
            }
        }
    }
}

impl TypeTree {
    /// A copy of the dependency edges as an adjacency map.
    #[verifier::loop_isolation(false)]
    fn dep_graph(&self) -> (g: NameMap<Vec<String>>)
        requires
            self.wf(),
        ensures
            g.wf(),
            dep_graph_matches(*self, g),
    {
        let mut g: NameMap<Vec<String>> = NameMap::new();
        let n = self.nodes.len();
        let mut i: usize = 0;
        while i < n
            invariant
                0 <= i <= n,
                n == self.nodes.spec_len(),
                g.wf(),
                g.key_seq() == self.nodes.key_seq().take(i as int),
                g.val_seq().len() == i,
                forall|m: int|
                    0 <= m < i ==> views_of((#[trigger] g.val_seq()[m])@)
                        == self.nodes.val_seq()[m].dependencies.seq_view(),
            decreases n - i,
        {
            let key = self.nodes.key_at(i);
            let node = self.nodes.val_at(i);
            proof {
                crate::collections::lemma_first_index_absent(g.key_seq(), key@);
            }
            g.insert(copy_string(key), node.dependencies.to_vec());
            proof {
                assert(g.key_seq() =~= self.nodes.key_seq().take(i + 1));
            }
            i += 1;
        }
        proof {
            assert(self.nodes.key_seq().take(n as int) =~= self.nodes.key_seq());
            self.nodes.lemma_val_len();
        }
        g
    }

    /// Checks the type-dependency graph for cycles; a cycle is fatal and is
    /// reported as the arrow-joined chain of qualified names, ending where
    /// it starts.
    pub fn validate_no_cycles(&self) -> (r: Result<(), TypeTreeError>)
        requires
            self.wf(),
        ensures
            (r is Ok) == dep_acyclic(*self),
            r matches Err(e) ==> (e matches TypeTreeError::CircularDependency { path } && exists|
                c: Seq<Seq<char>>,
            |
                #[trigger] dep_cycle(*self, c) && path@ == spec_join(c, " -> "@)),
    {
        let g = self.dep_graph();
        proof {
            lemma_dep_graph_edges(*self, g);
        }
        match topo_order_or_cycle(&g) {
            Result::Ok(order) => {
                proof {
                    lemma_order_acyclic(g, views_of(order@));
                    assert forall|c: Seq<Seq<char>>| !dep_cycle(*self, c) by {
                        if dep_cycle(*self, c) {
                            assert(graph_cycle(g, c));
                        }
                    }
                }
                Result::Ok(())
            },
            Result::Err(cyc) => {
                let ghost cv = views_of(cyc@);
                proof {
                    assert(dep_cycle(*self, cv)) by {
                        assert forall|i: int| 0 <= i < cv.len() - 1 implies dep_edge(
                            *self,
                            #[trigger] cv[i],
                            cv[i + 1],
                        ) by {
                            assert(graph_edge(g, cv[i], cv[i + 1]));
                        }
                    }
                }
                let path = join_strings(&cyc, " -> ");
                Result::Err(TypeTreeError::CircularDependency { path })
            },
        }
    }

    /// Detects a cycle among the ingested files' imports; edges to files
    /// that were never ingested are skipped. The returned chain ends with
    /// the file it starts at.
    pub(crate) fn detect_circular_imports(&self) -> (r: Option<Vec<String>>)
        requires
            self.wf(),
        ensures
            (r is None) == import_acyclic(*self),
            r matches Some(c) ==> import_cycle(*self, views_of(c@)),
    {
        let g = self.import_copy();
        proof {
            assert forall|a: Seq<char>, b: Seq<char>| #[trigger] graph_edge(g, a, b)
                == import_edge(*self, a, b) by {
                g.lemma_val_len();
                self.import_graph.lemma_val_len();
                lemma_first_index_props(g.key_seq(), a);
                let fi = crate::collections::first_index(g.key_seq(), a);
                if fi >= 0 {
                    assert(views_of((g.val_seq()[fi])@) == views_of(
                        self.import_graph.val_seq()[fi]@,
                    ));
                }
            }
        }
        match topo_order_or_cycle(&g) {
            Result::Ok(order) => {
                proof {
                    lemma_order_acyclic(g, views_of(order@));
                    assert forall|c: Seq<Seq<char>>| !import_cycle(*self, c) by {
                        if import_cycle(*self, c) {
                            assert forall|i: int| 0 <= i < c.len() - 1 implies graph_edge(
                                g,
                                #[trigger] c[i],
                                c[i + 1],
                            ) by {}
                            assert(graph_cycle(g, c));
                        }
                    }
                }
                Option::None
            },
            Result::Err(cyc) => {
                proof {
                    let cv = views_of(cyc@);
                    assert forall|i: int| 0 <= i < cv.len() - 1 implies import_edge(
                        *self,
                        #[trigger] cv[i],
                        cv[i + 1],
                    ) by {
                        assert(graph_edge(g, cv[i], cv[i + 1]));
                    }
                    assert(import_cycle(*self, cv));
                }
                Option::Some(cyc)
            },
        }
    }

    /// A copy of the import graph as an adjacency map with the same edges.
    #[verifier::loop_isolation(false)]
    fn import_copy(&self) -> (g: NameMap<Vec<String>>)
        requires
            self.wf(),
        ensures
            g.wf(),
            g.key_seq() == self.import_graph.key_seq(),
            g.val_seq().len() == self.import_graph.val_seq().len(),
            forall|m: int|
                0 <= m < g.val_seq().len() ==> views_of((#[trigger] g.val_seq()[m])@) == views_of(
                    self.import_graph.val_seq()[m]@,
                ),
    {
        let mut g: NameMap<Vec<String>> = NameMap::new();
        let n = self.import_graph.len();
        let mut i: usize = 0;
        while i < n
            invariant
                0 <= i <= n,
                n == self.import_graph.spec_len(),
                g.wf(),
                g.key_seq() == self.import_graph.key_seq().take(i as int),
                g.val_seq().len() == i,
                forall|m: int|
                    0 <= m < i ==> views_of((#[trigger] g.val_seq()[m])@) == views_of(
                        self.import_graph.val_seq()[m]@,
                    ),
            decreases n - i,
        {
            let key = self.import_graph.key_at(i);
            let edges = self.import_graph.val_at(i);
            proof {
                crate::collections::lemma_first_index_absent(g.key_seq(), key@);
            }
            g.insert(copy_string(key), crate::text::clone_strings(edges));
            proof {
                assert(g.key_seq() =~= self.import_graph.key_seq().take(i + 1));
            }
            i += 1;
        }
        proof {
            assert(self.import_graph.key_seq().take(n as int) =~= self.import_graph.key_seq());
            self.import_graph.lemma_val_len();
        }
        g
    }

    /// The generation order for a caller-supplied set of qualified names:
    /// a sequence holding each named, existing type once, with every
    /// dependency that is itself in the set placed before its dependent.
    /// Names the tree does not know are ignored. Fails with the cycle chain
    /// when the named types depend on each other circularly.
    #[verifier::loop_isolation(false)]
    pub fn get_generation_order(&self, subset: &Vec<String>) -> (r: Result<
        Vec<String>,
        TypeTreeError,
    >)
        requires
            self.wf(),
        ensures
            r matches Ok(order) ==> ({
                let ov = views_of(order@);
                &&& forall|i: int, j: int| 0 <= i < j < ov.len() ==> ov[i] != ov[j]
                &&& forall|q: Seq<char>|
                    #[trigger] ov.contains(q) == (views_of(subset@).contains(q) && self.has_node(
                        q,
                    ))
                &&& forall|i: int, b: Seq<char>|
                    0 <= i < ov.len() && #[trigger] dep_edge(*self, ov[i], b) && ov.contains(b)
                        ==> exists|j: int| 0 <= j < i && ov[j] == b
            }),
            r matches Err(e) ==> (e matches TypeTreeError::CircularDependency { path } && exists|
                c: Seq<Seq<char>>,
            |
                #[trigger] dep_cycle(*self, c) && path@ == spec_join(c, " -> "@)),
    {
        // Restrict the dependency graph to the requested names.
        let mut g: NameMap<Vec<String>> = NameMap::new();
        let n = subset.len();
        let mut i: usize = 0;
        while i < n
            invariant
                0 <= i <= n,
                g.wf(),
                forall|q: Seq<char>|
                    #[trigger] g.spec_contains_key(q) == (views_of(subset@.take(i as int)).contains(
                        q,
                    ) && self.has_node(q)),
                forall|q: Seq<char>|
                    #[trigger] g.spec_get(q) matches Some(es) ==> (self.nodes.spec_get(q)
                        matches Some(nd) && views_of(es@) == nd.dependencies.seq_view()),
            decreases n - i,
        {
            let name = &subset[i];
            match self.nodes.get(name.as_str()) {
                Option::Some(node) => {
                    g.insert(copy_string(name), node.dependencies.to_vec());
                    proof {
                        assert forall|q: Seq<char>|
                            #[trigger] g.spec_contains_key(q) == (views_of(
                                subset@.take(i + 1),
                            ).contains(q) && self.has_node(q)) by {
                            assert(views_of(subset@.take(i + 1)) =~= views_of(
                                subset@.take(i as int),
                            ).push(subset@[i as int]@));
                            let prev = views_of(subset@.take(i as int));
                            if q != name@ {
                                if prev.push(name@).contains(q) {
                                    let k = choose|k: int|
                                        0 <= k < prev.push(name@).len() && prev.push(name@)[k]
                                            == q;
                                    assert(prev[k] == q);
                                }
                                if prev.contains(q) {
                                    let k = choose|k: int| 0 <= k < prev.len() && prev[k] == q;
                                    assert(prev.push(name@)[k] == q);
                                }
                            } else {
                                assert(prev.push(name@)[prev.len() as int] == q);
                            }
                        }
                    }
                },
                Option::None => {
                    proof {
                        assert forall|q: Seq<char>|
                            #[trigger] g.spec_contains_key(q) == (views_of(
                                subset@.take(i + 1),
                            ).contains(q) && self.has_node(q)) by {
                            assert(views_of(subset@.take(i + 1)) =~= views_of(
                                subset@.take(i as int),
                            ).push(subset@[i as int]@));
                            let prev = views_of(subset@.take(i as int));
                            if q != name@ {
                                if prev.push(name@).contains(q) {
                                    let k = choose|k: int|
                                        0 <= k < prev.push(name@).len() && prev.push(name@)[k]
                                            == q;
                                    assert(prev[k] == q);
                                }
                                if prev.contains(q) {
                                    let k = choose|k: int| 0 <= k < prev.len() && prev[k] == q;
                                    assert(prev.push(name@)[k] == q);
                                }
                            }
                        }
                    }
                },
            }
            i += 1;
        }
        proof {
            assert(subset@.take(n as int) =~= subset@);
        }

        match topo_order_or_cycle(&g) {
            Result::Ok(order) => {
                proof {
                    let ov = views_of(order@);
                    assert forall|q: Seq<char>| #[trigger] ov.contains(q) == (views_of(
                        subset@,
                    ).contains(q) && self.has_node(q)) by {
                        if g.spec_contains_key(q) {
                            crate::order::lemma_topo_order_complete(g, ov, q);
                        }
                    }
                    assert forall|i: int, b: Seq<char>|
                        0 <= i < ov.len() && #[trigger] dep_edge(*self, ov[i], b) && ov.contains(
                            b,
                        ) implies exists|j: int| 0 <= j < i && ov[j] == b by {
                        assert(ov.contains(ov[i]));
                        assert(g.spec_contains_key(ov[i]));
                        lemma_first_index_props(g.key_seq(), ov[i]);
                        lemma_first_index_contains(
                            match self.nodes.spec_get(ov[i]) {
                                Option::Some(nd) => nd.dependencies.seq_view(),
                                Option::None => Seq::empty(),
                            },
                            b,
                        );
                        assert(graph_edge(g, ov[i], b));
                    }
                }
                Result::Ok(order)
            },
            Result::Err(cyc) => {
                let ghost cv = views_of(cyc@);
                proof {
                    assert(dep_cycle(*self, cv)) by {
                        assert forall|i: int| 0 <= i < cv.len() - 1 implies dep_edge(
                            *self,
                            #[trigger] cv[i],
                            cv[i + 1],
                        ) by {
                            assert(graph_edge(g, cv[i], cv[i + 1]));
                            lemma_first_index_contains(
                                match self.nodes.spec_get(cv[i]) {
                                    Option::Some(nd) => nd.dependencies.seq_view(),
                                    Option::None => Seq::empty(),
                                },
                                cv[i + 1],
                            );
                        }
                    }
                }
                let path = join_strings(&cyc, " -> ");
                Result::Err(TypeTreeError::CircularDependency { path })
            },
        }
    }
}

} // verus!
