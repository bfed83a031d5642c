//! The laws the resolver obeys, stated once and proved from the public
//! contracts: building is deterministic, a successful build is acyclic,
//! primitive-only schemas stay isolated, wrappers are transparent,
//! duplicate qualified names can never build, and forward and reverse
//! dependency lookups agree.

use vstd::prelude::*;
use crate::ast::SchemaFieldV;
use crate::ast::TypeV;
use crate::collections::{lemma_first_index_at, lemma_first_index_contains, lemma_first_index_props};
use crate::cycles::{dep_cycle, dep_edge};
use crate::passes::{
    DeclV, add_names, built_from, decls_of, decl_quals, lemma_resolve_refs_stable, refs_of_fields,
    refs_of_tv, resolve_refs, stable_eq,
};
use crate::queries::{dep_reaches, dependents_upto, spec_dependents};
use crate::tree::{EntryV, TypeTree};

verus! {

/// No type can depend on itself, directly or transitively, once a build
/// has succeeded.
pub proof fn lemma_no_self_dependency(t: TypeTree, bv: Seq<EntryV>, q: Seq<char>)
    requires
        built_from(t, bv),
    ensures
        !dep_reaches(t, q, q),
{
    if dep_reaches(t, q, q) {
        let p = choose|p: Seq<Seq<char>>|
            {
                &&& p.len() >= 2
                &&& p[0] == q
                &&& p.last() == q
                &&& forall|i: int| 0 <= i < p.len() - 1 ==> dep_edge(t, #[trigger] p[i], p[i + 1])
            };
        assert(dep_cycle(t, p));
    }
}

/// A field list of primitives contributes no references.
proof fn lemma_primitive_fields_no_refs(fs: Seq<SchemaFieldV>)
    requires
        forall|k: int| 0 <= k < fs.len() ==> (#[trigger] fs[k]).field_type is Primitive,
    ensures
        refs_of_fields(fs) =~= Seq::<crate::ast::SchemaRefV>::empty(),
    decreases fs.len(),
{
    if fs.len() > 0 {
        assert(forall|k: int| 0 <= k < fs.drop_last().len() ==> (#[trigger] fs.drop_last()[k])
            == fs[k]);
        lemma_primitive_fields_no_refs(fs.drop_last());
        assert(fs.last().field_type is Primitive);
        assert(refs_of_tv(fs.last().field_type) =~= Seq::<crate::ast::SchemaRefV>::empty());
    }
}

/// A schema whose fields are all primitive has no dependency edges and
/// takes part in no cycle.
pub proof fn lemma_primitive_schema_isolated(t: TypeTree, bv: Seq<EntryV>, j: int)
    requires
        built_from(t, bv),
        0 <= j < decls_of(bv).len(),
        decls_of(bv)[j].def matches crate::ast::DefinitionV::Schema(s) && (forall|k: int|
            0 <= k < s.fields.len() ==> (#[trigger] s.fields[k]).field_type is Primitive),
    ensures
        t.nodes.val_seq()[j].dependencies.seq_view() == Seq::<Seq<char>>::empty(),
        forall|c: Seq<Seq<char>>|
            #[trigger] dep_cycle(t, c) ==> !c.contains(decls_of(bv)[j].qual),
{
    let ds = decls_of(bv);
    let d = ds[j];
    match d.def {
        crate::ast::DefinitionV::Schema(s) => {
            lemma_primitive_fields_no_refs(s.fields);
            assert(resolve_refs(t, d.pkg, d.file, d.imports, refs_of_fields(s.fields))
                == Result::<Seq<Seq<char>>, crate::resolve::ResolutionV>::Ok(
                Seq::<Seq<char>>::empty(),
            ));
            assert(t.nodes.val_seq()[j].dependencies.seq_view() == add_names(
                Seq::<Seq<char>>::empty(),
                Seq::<Seq<char>>::empty(),
            ));
        },
        _ => {},
    }
    // the node is keyed by the declaration's name at position j
    assert(decl_quals(ds)[j] == d.qual);
    assert forall|i2: int, j2: int| 0 <= i2 < j2 < decl_quals(ds).len() implies decl_quals(ds)[i2]
        != decl_quals(ds)[j2] by {
        assert(decl_quals(ds)[i2] == ds[i2].qual && decl_quals(ds)[j2] == ds[j2].qual);
    }
    lemma_first_index_at(t.nodes.key_seq(), d.qual, j);
    // with no outgoing edge, no cycle can pass through the name
    assert forall|c: Seq<Seq<char>>| #[trigger] dep_cycle(t, c) implies !c.contains(d.qual) by {
        if c.contains(d.qual) {
            let i = choose|i: int| 0 <= i < c.len() && c[i] == d.qual;
            if i < c.len() - 1 {
                assert(dep_edge(t, c[i], c[i + 1]));
                lemma_first_index_contains(
                    t.nodes.val_seq()[j].dependencies.seq_view(),
                    c[i + 1],
                );
            } else {
                assert(c[0] == c.last());
                assert(dep_edge(t, c[0], c[1]));
                lemma_first_index_contains(t.nodes.val_seq()[j].dependencies.seq_view(), c[1]);
            }
        }
    }
}

/// Wrapping a type in `option<..>` or `vec<..>` leaves its contributed
/// references, and so its dependency edges, unchanged.
pub proof fn lemma_wrapper_transparent(outer: TypeV, inner: TypeV)
    requires
        outer == TypeV::Option(Box::new(inner)) || outer == TypeV::Vec(Box::new(inner)),
    ensures
        refs_of_tv(outer) == refs_of_tv(inner),
{
}

/// Two declarations of the same qualified name make every build fail.
pub proof fn lemma_duplicate_never_builds(bv: Seq<EntryV>, i: int, j: int)
    requires
        0 <= i < j < decls_of(bv).len(),
        decls_of(bv)[i].qual == decls_of(bv)[j].qual,
    ensures
        !crate::passes::build_succeeds(bv),
{
    if crate::passes::build_succeeds(bv) {
        let t = choose|t: TypeTree| built_from(t, bv);
        assert(decls_of(bv)[i].qual != decls_of(bv)[j].qual);
    }
}

/// What the reverse lookup collects, position by position: a name appears
/// among the dependents of `q` exactly when one of the scanned nodes lists
/// `q` and is keyed by that name.
proof fn lemma_dependents_upto_contains(t: TypeTree, q: Seq<char>, i: int, a: Seq<char>)
    requires
        0 <= i <= t.nodes.spec_len(),
    ensures
        dependents_upto(t, q, i).contains(a) == exists|m: int|
            0 <= m < i && #[trigger] t.nodes.key_seq()[m] == a
                && t.nodes.val_seq()[m].dependencies.spec_contains(q),
    decreases i,
{
    if i > 0 {
        lemma_dependents_upto_contains(t, q, i - 1, a);
        let prev = dependents_upto(t, q, i - 1);
        let cur = dependents_upto(t, q, i);
        if t.nodes.val_seq()[i - 1].dependencies.spec_contains(q) {
            assert(cur == prev + seq![t.nodes.key_seq()[i - 1]]);
            if cur.contains(a) {
                let k = choose|k: int| 0 <= k < cur.len() && cur[k] == a;
                if k < prev.len() {
                    assert(prev[k] == a);
                    assert(prev.contains(a));
                } else {
                    assert(a == t.nodes.key_seq()[i - 1]);
                }
            }
            if prev.contains(a) {
                let k = choose|k: int| 0 <= k < prev.len() && prev[k] == a;
                assert(cur[k] == a);
            }
            if a == t.nodes.key_seq()[i - 1] {
                assert(cur[cur.len() - 1] == a);
            }
        } else {
            assert(cur =~= prev);
        }
    }
}

/// Forward and reverse dependency lookups agree: `b` is among the
/// dependencies of `a` exactly when `a` is among the dependents of `b`.
pub proof fn lemma_reverse_lookup_consistent(t: TypeTree, a: Seq<char>, b: Seq<char>)
    requires
        t.wf(),
    ensures
        dep_edge(t, a, b) == spec_dependents(t, b).contains(a),
{
    lemma_dependents_upto_contains(t, b, t.nodes.spec_len() as int, a);
    lemma_first_index_props(t.nodes.key_seq(), a);
    if dep_edge(t, a, b) {
        let fi = crate::collections::first_index(t.nodes.key_seq(), a);
        assert(t.nodes.key_seq()[fi] == a);
        t.nodes.lemma_val_len();
        assert(t.nodes.val_seq()[fi].dependencies.spec_contains(b));
    }
    if spec_dependents(t, b).contains(a) {
        let m = choose|m: int|
            0 <= m < t.nodes.spec_len() && #[trigger] t.nodes.key_seq()[m] == a
                && t.nodes.val_seq()[m].dependencies.spec_contains(b);
        assert forall|k: int| 0 <= k < m implies t.nodes.key_seq()[k] != a by {}
        lemma_first_index_at(t.nodes.key_seq(), a, m);
        t.nodes.lemma_val_len();
    }
}

/// Building is deterministic: any two trees built from the same batch hold
/// the same qualified names, the same definitions, and the same dependency
/// edges, name for name.
pub proof fn lemma_build_deterministic(t1: TypeTree, t2: TypeTree, bv: Seq<EntryV>)
    requires
        built_from(t1, bv),
        built_from(t2, bv),
    ensures
        t1.nodes.key_seq() == t2.nodes.key_seq(),
        forall|j: int|
            0 <= j < decls_of(bv).len() ==> {
                let n1 = #[trigger] t1.nodes.val_seq()[j];
                let n2 = t2.nodes.val_seq()[j];
                n1.qualified_name@ == n2.qualified_name@ && n1.definition@ == n2.definition@
                    && n1.dependencies.seq_view() == n2.dependencies.seq_view()
            },
        forall|f: Seq<char>| #[trigger] t1.file_package(f) == t2.file_package(f),
        forall|f: Seq<char>| #[trigger] t1.import_edges(f) == t2.import_edges(f),
        forall|f: Seq<char>| #[trigger] t1.file_types(f) == t2.file_types(f),
    decreases bv.len(),
{
    assert(stable_eq(t1, t2));
    let ds = decls_of(bv);
    assert forall|j: int| 0 <= j < ds.len() implies {
        let n1 = #[trigger] t1.nodes.val_seq()[j];
        let n2 = t2.nodes.val_seq()[j];
        n1.qualified_name@ == n2.qualified_name@ && n1.definition@ == n2.definition@
            && n1.dependencies.seq_view() == n2.dependencies.seq_view()
    } by {
        match ds[j].def {
            crate::ast::DefinitionV::Schema(s) => {
                lemma_resolve_refs_stable(
                    t1,
                    t2,
                    ds[j].pkg,
                    ds[j].file,
                    ds[j].imports,
                    refs_of_fields(s.fields),
                );
            },
            _ => {},
        }
    }
}

} // verus!
