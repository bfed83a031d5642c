//! The two construction passes over a batch of programs.
//!
//! The collect pass walks every program's definitions in order, gives each
//! schema or enum its qualified name, and inserts one node per definition;
//! a qualified name seen twice is a fatal duplicate. The dependency pass
//! then resolves every schema field's references against the completed node
//! set and fills each node's dependency edges.

use vstd::prelude::*;
use crate::ast::{Definition, DefinitionV, Program, ProgramV, SchemaDef, SchemaRefV, TypeWithSpan, TypeV};
use crate::collections::{NameSet, lemma_first_index_contains};
use crate::errors::TypeTreeError;
use crate::text::{
    clone_opt_string, copy_string, opt_view, qualify, spec_qual, views_of,
};
use crate::tree::{EntryV, TypeDefinition, TypeNode, TypeTree, batch_view, entry_pkg};
use crate::resolve::{ResolutionV, res_err_matches, spec_resolve};

verus! {

/// One collected type declaration: its qualified name, the definition, and
/// the declaring program's package, file and raw import strings.
pub struct DeclV {
    pub qual: Seq<char>,
    pub def: DefinitionV,
    pub pkg: Seq<char>,
    pub file: Option<Seq<char>>,
    pub imports: Seq<Seq<char>>,
}

/// The batch entry a program and its optional file make.
pub open spec fn entry_of(p: ProgramV, file: Option<Seq<char>>) -> EntryV {
    EntryV { program: p, file }
}

/// The declarations contributed by a list of definitions, in order;
/// services contribute none.
pub open spec fn decls_of_defs(
    defs: Seq<DefinitionV>,
    pkg: Seq<char>,
    file: Option<Seq<char>>,
    imports: Seq<Seq<char>>,
) -> Seq<DeclV>
    decreases defs.len(),
{
    if defs.len() == 0 {
        Seq::empty()
    } else {
        let prev = decls_of_defs(defs.drop_last(), pkg, file, imports);
        match defs.last() {
            DefinitionV::Schema(s) => prev.push(
                DeclV { qual: spec_qual(pkg, s.name), def: defs.last(), pkg, file, imports },
            ),
            DefinitionV::Enum(e) => prev.push(
                DeclV { qual: spec_qual(pkg, e.name), def: defs.last(), pkg, file, imports },
            ),
            DefinitionV::Service(_) => prev,
        }
    }
}

/// The declarations of one batch entry.
pub open spec fn decls_of_entry(e: EntryV) -> Seq<DeclV> {
    decls_of_defs(e.program.definitions, entry_pkg(e), e.file, e.program.imports)
}

/// All declarations of a batch, in batch order.
pub open spec fn decls_of(bv: Seq<EntryV>) -> Seq<DeclV>
    decreases bv.len(),
{
    if bv.len() == 0 {
        Seq::empty()
    } else {
        decls_of(bv.drop_last()) + decls_of_entry(bv.last())
    }
}

/// The qualified names of a declaration list, in order.
pub open spec fn decl_quals(ds: Seq<DeclV>) -> Seq<Seq<char>> {
    ds.map_values(|d: DeclV| d.qual)
}

/// Every declaration's qualified name is distinct.
pub open spec fn quals_distinct(ds: Seq<DeclV>) -> bool {
    forall|i: int, j: int| 0 <= i < j < ds.len() ==> (#[trigger] ds[i].qual) != (#[trigger] ds[j].qual)
}

/// No declaration collides with `keys` nor with an earlier declaration.
pub open spec fn no_collision(keys: Seq<Seq<char>>, ds: Seq<DeclV>) -> bool {
    &&& quals_distinct(ds)
    &&& forall|j: int| 0 <= j < ds.len() ==> !keys.contains((#[trigger] ds[j]).qual)
}

/// The first declaration whose qualified name collides with `keys` or with
/// an earlier declaration, or `-1`.
pub open spec fn first_collision(keys: Seq<Seq<char>>, ds: Seq<DeclV>) -> int
    decreases ds.len(),
{
    if ds.len() == 0 {
        -1
    } else {
        let r = first_collision(keys, ds.drop_last());
        if r >= 0 {
            r
        } else if keys.contains(ds.last().qual) || decl_quals(ds.drop_last()).contains(
            ds.last().qual,
        ) {
            ds.len() - 1
        } else {
            -1
        }
    }
}

/// A node holds exactly what its declaration says, with no dependency
/// edges yet.
pub open spec fn node_matches_decl(n: TypeNode, d: DeclV) -> bool {
    &&& n.qualified_name@ == d.qual
    &&& n.definition@ == d.def
    &&& n.dependencies.seq_view() == Seq::<Seq<char>>::empty()
    &&& opt_view(n.file_path) == d.file
}

/// The file the already-present definition came from, at the point where
/// declaration `ci` collides.
pub open spec fn collision_existing_file(t: TypeTree, ds: Seq<DeclV>, ci: int) -> Option<
    Seq<char>,
> {
    if t.nodes.spec_contains_key(ds[ci].qual) {
        match t.nodes.spec_get(ds[ci].qual) {
            Option::Some(n) => opt_view(n.file_path),
            Option::None => Option::None,
        }
    } else {
        ds[ci].file
    }
}

/// Every declaration of a definition list carries the package, file and
/// imports it was built with.
proof fn lemma_decls_fields(
    defs: Seq<DefinitionV>,
    pkg: Seq<char>,
    file: Option<Seq<char>>,
    imports: Seq<Seq<char>>,
)
    ensures
        forall|j: int|
            0 <= j < decls_of_defs(defs, pkg, file, imports).len() ==> {
                let d = #[trigger] decls_of_defs(defs, pkg, file, imports)[j];
                d.pkg == pkg && d.file == file && d.imports == imports
            },
    decreases defs.len(),
{
    if defs.len() > 0 {
        lemma_decls_fields(defs.drop_last(), pkg, file, imports);
    }
}

/// The declarations of a prefix of the definitions are a prefix of the
/// declarations of the whole list.
proof fn lemma_decls_take_prefix(
    defs: Seq<DefinitionV>,
    pkg: Seq<char>,
    file: Option<Seq<char>>,
    imports: Seq<Seq<char>>,
    d: int,
)
    requires
        0 <= d <= defs.len(),
    ensures
        decls_of_defs(defs.take(d), pkg, file, imports).len() <= decls_of_defs(
            defs,
            pkg,
            file,
            imports,
        ).len(),
        decls_of_defs(defs, pkg, file, imports).take(
            decls_of_defs(defs.take(d), pkg, file, imports).len() as int,
        ) == decls_of_defs(defs.take(d), pkg, file, imports),
    decreases defs.len() - d,
{
    let full = decls_of_defs(defs, pkg, file, imports);
    let part = decls_of_defs(defs.take(d), pkg, file, imports);
    if d == defs.len() {
        assert(defs.take(d) =~= defs);
        assert(full.take(part.len() as int) =~= part);
    } else {
        lemma_decls_take_prefix(defs, pkg, file, imports, d + 1);
        let part1 = decls_of_defs(defs.take(d + 1), pkg, file, imports);
        assert(defs.take(d + 1).drop_last() =~= defs.take(d));
        assert(defs.take(d + 1).last() == defs[d]);
        assert(full.take(part.len() as int) =~= part1.take(part.len() as int));
        assert(part1.take(part.len() as int) =~= part);
    }
}

/// Extending a collision-free prefix with a colliding declaration puts the
/// first collision exactly there.
proof fn lemma_first_collision_at(keys: Seq<Seq<char>>, ds: Seq<DeclV>, i: int)
    requires
        0 <= i < ds.len(),
        no_collision(keys, ds.take(i)),
        keys.contains(ds[i].qual) || decl_quals(ds.take(i)).contains(ds[i].qual),
    ensures
        first_collision(keys, ds) == i,
    decreases ds.len(),
{
    if i == ds.len() - 1 {
        assert(ds.take(i) =~= ds.drop_last());
        lemma_no_collision_none(keys, ds.drop_last());
    } else {
        assert(ds.drop_last().take(i) =~= ds.take(i));
        assert(ds.drop_last()[i] == ds[i]);
        lemma_first_collision_at(keys, ds.drop_last(), i);
    }
}

/// A collision-free list has no first collision.
proof fn lemma_no_collision_none(keys: Seq<Seq<char>>, ds: Seq<DeclV>)
    requires
        no_collision(keys, ds),
    ensures
        first_collision(keys, ds) == -1,
    decreases ds.len(),
{
    if ds.len() > 0 {
        assert forall|j: int| 0 <= j < ds.drop_last().len() implies !keys.contains(
            (#[trigger] ds.drop_last()[j]).qual,
        ) by {
            assert(ds.drop_last()[j] == ds[j]);
        }
        lemma_no_collision_none(keys, ds.drop_last());
        if decl_quals(ds.drop_last()).contains(ds.last().qual) {
            let j = choose|j: int|
                0 <= j < decl_quals(ds.drop_last()).len() && decl_quals(ds.drop_last())[j]
                    == ds.last().qual;
            assert(ds[j].qual == ds.last().qual);
            assert(ds[j].qual != ds[ds.len() - 1].qual);
        }
    }
}

/// Where collection stops on a duplicate: the collision is the first one of
/// the whole program, and the file of the already-present definition is the
/// same whether it is read from the tree before the program or from the
/// partially grown tree.
proof fn lemma_collect_err_case(t0: TypeTree, t: TypeTree, e: EntryV, d: int, decl: DeclV)
    requires
        0 <= d < e.program.definitions.len(),
        t0.wf(),
        ({
            let old_keys = t0.nodes.key_seq();
            let dsp = decls_of_defs(
                e.program.definitions.take(d),
                entry_pkg(e),
                e.file,
                e.program.imports,
            );
            &&& t.nodes.key_seq() == old_keys + decl_quals(dsp)
            &&& no_collision(old_keys, dsp)
            &&& forall|m: int|
                0 <= m < t0.nodes.spec_len() ==> #[trigger] t.nodes.val_seq()[m]
                    == t0.nodes.val_seq()[m]
            &&& forall|j: int|
                0 <= j < dsp.len() ==> node_matches_decl(
                    #[trigger] t.nodes.val_seq()[t0.nodes.spec_len() + j],
                    dsp[j],
                )
            &&& decls_of_defs(
                e.program.definitions.take(d + 1),
                entry_pkg(e),
                e.file,
                e.program.imports,
            ) == dsp.push(decl)
            &&& (old_keys.contains(decl.qual) || decl_quals(dsp).contains(decl.qual))
        }),
    ensures
        ({
            let old_keys = t0.nodes.key_seq();
            let ds = decls_of_entry(e);
            let dsp = decls_of_defs(
                e.program.definitions.take(d),
                entry_pkg(e),
                e.file,
                e.program.imports,
            );
            let ci = dsp.len() as int;
            &&& 0 <= ci < ds.len()
            &&& ds[ci] == decl
            &&& first_collision(old_keys, ds) == ci
            &&& !no_collision(old_keys, ds)
            &&& collision_existing_file(t0, ds, ci) == collision_existing_file(
                t,
                dsp.push(decl),
                ci,
            )
        }),
{
    let old_keys = t0.nodes.key_seq();
    let defs = e.program.definitions;
    let pkg = entry_pkg(e);
    let ds = decls_of_entry(e);
    let dsp = decls_of_defs(defs.take(d), pkg, e.file, e.program.imports);
    let dsp1 = decls_of_defs(defs.take(d + 1), pkg, e.file, e.program.imports);
    let ci = dsp.len() as int;

    lemma_decls_take_prefix(defs, pkg, e.file, e.program.imports, d);
    lemma_decls_take_prefix(defs, pkg, e.file, e.program.imports, d + 1);
    assert(ds.take(ci) =~= dsp);
    assert(ds[ci] == dsp1[ci]);
    assert(dsp1[ci] == decl);
    assert(decl_quals(ds.take(ci)) == decl_quals(dsp));
    lemma_first_collision_at(old_keys, ds, ci);

    // The whole declaration list is not collision-free.
    if no_collision(old_keys, ds) {
        if old_keys.contains(decl.qual) {
            assert(!old_keys.contains(ds[ci].qual));
        } else {
            let j = choose|j: int|
                0 <= j < decl_quals(dsp).len() && decl_quals(dsp)[j] == decl.qual;
            assert(ds[j].qual == dsp[j].qual);
            assert(ds[j].qual != ds[ci].qual);
        }
    }

    // The existing definition's file reads the same from either tree.
    lemma_first_index_contains(old_keys, decl.qual);
    crate::collections::lemma_first_index_concat(old_keys, decl_quals(dsp), decl.qual);
    lemma_first_index_contains(t0.nodes.key_seq(), decl.qual);
    lemma_first_index_contains(t.nodes.key_seq(), decl.qual);
    if old_keys.contains(decl.qual) {
        let fi = crate::collections::first_index(old_keys, decl.qual);
        crate::collections::lemma_first_index_props(old_keys, decl.qual);
        assert(t.nodes.val_seq()[fi] == t0.nodes.val_seq()[fi]);
    } else {
        let fib = crate::collections::first_index(decl_quals(dsp), decl.qual);
        crate::collections::lemma_first_index_props(decl_quals(dsp), decl.qual);
        assert(node_matches_decl(
            t.nodes.val_seq()[t0.nodes.spec_len() + fib],
            dsp[fib],
        ));
        lemma_decls_fields(defs.take(d), pkg, e.file, e.program.imports);
        lemma_decls_fields(defs, pkg, e.file, e.program.imports);
        assert(dsp[fib].file == e.file);
        assert(ds[ci].file == e.file);
    }
}

impl TypeTree {
    /// Collects the type definitions of one program into the node map, each
    /// under its qualified name; a name already present is a fatal
    /// duplicate. On success the file's definition list is recorded too.
    #[verifier::loop_isolation(false)]
    pub(crate) fn collect_types_from_program(
        &mut self,
        program: &Program,
        file_path: &Option<String>,
    ) -> (r: Result<(), TypeTreeError>)
        requires
            old(self).wf(),
        ensures
            final(self).wf(),
            final(self).programs == old(self).programs,
            final(self).file_to_package == old(self).file_to_package,
            final(self).package_to_programs == old(self).package_to_programs,
            final(self).import_graph == old(self).import_graph,
            (r is Ok) == no_collision(
                old(self).nodes.key_seq(),
                decls_of_entry(entry_of(program@, opt_view(*file_path))),
            ),
            r is Ok ==> ({
                let ds = decls_of_entry(entry_of(program@, opt_view(*file_path)));
                &&& final(self).nodes.key_seq() == old(self).nodes.key_seq() + decl_quals(ds)
                &&& forall|m: int|
                    0 <= m < old(self).nodes.spec_len() ==> #[trigger] final(self).nodes.val_seq()[m] == old(self).nodes.val_seq()[m]
                &&& forall|j: int|
                    0 <= j < ds.len() ==> node_matches_decl(
                        #[trigger] final(self).nodes.val_seq()[old(self).nodes.spec_len() + j],
                        ds[j],
                    )
                &&& match *file_path {
                    Option::Some(_) => {
                        &&& forall|f: Seq<char>|
                            #[trigger] final(self).file_types(f) == if Option::Some(f) == opt_view(
                                *file_path,
                            ) {
                                Option::Some(decl_quals(ds))
                            } else {
                                old(self).file_types(f)
                            }
                    },
                    Option::None => final(self).file_to_types == old(self).file_to_types,
                }
            }),
            r matches Err(e) ==> ({
                let ds = decls_of_entry(entry_of(program@, opt_view(*file_path)));
                let ci = first_collision(old(self).nodes.key_seq(), ds);
                &&& 0 <= ci < ds.len()
                &&& e matches TypeTreeError::DuplicateType {
                    qualified_name,
                    existing_file,
                    new_file,
                } && qualified_name@ == ds[ci].qual && opt_view(existing_file)
                    == collision_existing_file(*old(self), ds, ci) && opt_view(new_file)
                    == ds[ci].file
                &&& final(self).file_to_types == old(self).file_to_types
            }),
    {
        let package_name = program.package_string();
        let ghost e = entry_of(program@, opt_view(*file_path));
        let ghost defs = program@.definitions;
        let ghost ds = decls_of_entry(e);
        let ghost old_keys = old(self).nodes.key_seq();

        let mut file_types: Vec<String> = Vec::new();
        proof {
            assert(decls_of_defs(defs.take(0), entry_pkg(e), e.file, e.program.imports)
                =~= Seq::<DeclV>::empty());
            assert(old(self).nodes.key_seq() + decl_quals(
                decls_of_defs(defs.take(0), entry_pkg(e), e.file, e.program.imports),
            ) =~= old(self).nodes.key_seq());
        }

        let n = program.definitions.len();
        let mut d: usize = 0;
        while d < n
            invariant
                0 <= d <= n,
                self.wf(),
                self.programs == old(self).programs,
                self.file_to_package == old(self).file_to_package,
                self.package_to_programs == old(self).package_to_programs,
                self.import_graph == old(self).import_graph,
                self.file_to_types == old(self).file_to_types,
                ({
                    let dsp = decls_of_defs(defs.take(d as int), entry_pkg(e), e.file, e.program.imports);
                    &&& no_collision(old_keys, dsp)
                    &&& self.nodes.key_seq() == old_keys + decl_quals(dsp)
                    &&& forall|m: int|
                        0 <= m < old(self).nodes.spec_len() ==> #[trigger] self.nodes.val_seq()[m]
                            == old(self).nodes.val_seq()[m]
                    &&& forall|j: int|
                        0 <= j < dsp.len() ==> node_matches_decl(
                            #[trigger] self.nodes.val_seq()[old(self).nodes.spec_len() + j],
                            dsp[j],
                        )
                    &&& views_of(file_types@) == decl_quals(dsp)
                }),
            decreases n - d,
        {
            let ghost dsp = decls_of_defs(defs.take(d as int), entry_pkg(e), e.file, e.program.imports);
            let ghost dsp1 = decls_of_defs(
                defs.take(d + 1),
                entry_pkg(e),
                e.file,
                e.program.imports,
            );
            proof {
                assert(defs.take(d + 1).drop_last() =~= defs.take(d as int));
                assert(defs.take(d + 1).last() == defs[d as int]);
                assert(defs[d as int] == program.definitions@[d as int]@);
            }
            match &program.definitions[d] {
                Definition::Schema(s) => {
                    let qualified = qualify(package_name.as_str(), s.name.as_str());
                    let ghost decl = dsp1.last();
                    proof {
                        assert(dsp1 == dsp.push(decl));
                        assert(decl.qual == qualified@);
                    }
                    match self.collect_one(
                        qualified,
                        TypeDefinition::Schema(s.clone()),
                        s.span,
                        file_path,
                        Ghost(old_keys),
                        Ghost(dsp),
                        Ghost(decl),
                    ) {
                        Result::Ok(q2) => {
                            let ghost pre = file_types@;
                            let ghost q2v = q2@;
                            file_types.push(q2);
                            proof {
                                assert(views_of(file_types@) =~= views_of(pre).push(q2v));
                                assert(decl_quals(dsp1) =~= decl_quals(dsp).push(decl.qual));
                                assert(views_of(file_types@) =~= decl_quals(dsp1));
                            }
                        },
                        Result::Err(err) => {
                            proof {
                                lemma_collect_err_case(*old(self), *self, e, d as int, decl);
                            }
                            return Result::Err(err);
                        },
                    }
                },
                Definition::Enum(en) => {
                    let qualified = qualify(package_name.as_str(), en.name.as_str());
                    let ghost decl = dsp1.last();
                    proof {
                        assert(dsp1 == dsp.push(decl));
                        assert(decl.qual == qualified@);
                    }
                    match self.collect_one(
                        qualified,
                        TypeDefinition::Enum(en.clone()),
                        en.span,
                        file_path,
                        Ghost(old_keys),
                        Ghost(dsp),
                        Ghost(decl),
                    ) {
                        Result::Ok(q2) => {
                            let ghost pre = file_types@;
                            let ghost q2v = q2@;
                            file_types.push(q2);
                            proof {
                                assert(views_of(file_types@) =~= views_of(pre).push(q2v));
                                assert(decl_quals(dsp1) =~= decl_quals(dsp).push(decl.qual));
                                assert(views_of(file_types@) =~= decl_quals(dsp1));
                            }
                        },
                        Result::Err(err) => {
                            proof {
                                lemma_collect_err_case(*old(self), *self, e, d as int, decl);
                            }
                            return Result::Err(err);
                        },
                    }
                },
                Definition::Service(_) => {
                    proof {
                        assert(dsp1 == dsp);
                    }
                },
            }
            d += 1;
        }
        proof {
            assert(defs.take(n as int) =~= defs);
        }

        match file_path {
            Option::Some(fp) => {
                self.file_to_types.insert(copy_string(fp), file_types);
                proof {
                    assert forall|f: Seq<char>|
                        #[trigger] self.file_types(f) == if Option::Some(f) == opt_view(*file_path) {
                            Option::Some(decl_quals(ds))
                        } else {
                            old(self).file_types(f)
                        } by {}
                }
            },
            Option::None => {},
        }
        Result::Ok(())
    }

    /// Inserts one collected definition, or reports the duplicate.
    #[verifier::loop_isolation(false)]
    fn collect_one(
        &mut self,
        qualified: String,
        definition: TypeDefinition,
        span: crate::ast::Span,
        file_path: &Option<String>,
        Ghost(old_keys): Ghost<Seq<Seq<char>>>,
        Ghost(dsp): Ghost<Seq<DeclV>>,
        Ghost(decl): Ghost<DeclV>,
    ) -> (r: Result<String, TypeTreeError>)
        requires
            old(self).wf(),
            old(self).nodes.key_seq() == old_keys + decl_quals(dsp),
            no_collision(old_keys, dsp),
            decl.qual == qualified@,
            decl.def == definition@,
            decl.file == opt_view(*file_path),
            forall|j: int|
                0 <= j < dsp.len() ==> node_matches_decl(
                    #[trigger] old(self).nodes.val_seq()[old_keys.len() + j],
                    dsp[j],
                ),
        ensures
            final(self).wf(),
            final(self).programs == old(self).programs,
            final(self).file_to_package == old(self).file_to_package,
            final(self).package_to_programs == old(self).package_to_programs,
            final(self).import_graph == old(self).import_graph,
            final(self).file_to_types == old(self).file_to_types,
            (r is Ok) == no_collision(old_keys, dsp.push(decl)),
            r matches Ok(q2) ==> ({
                &&& q2@ == decl.qual
                &&& final(self).nodes.key_seq() == old_keys + decl_quals(dsp.push(decl))
                &&& forall|m: int|
                    0 <= m < old(self).nodes.spec_len() ==> #[trigger] final(self).nodes.val_seq()[m] == old(self).nodes.val_seq()[m]
                &&& forall|j: int|
                    0 <= j < dsp.push(decl).len() ==> node_matches_decl(
                        #[trigger] final(self).nodes.val_seq()[old_keys.len() + j],
                        dsp.push(decl)[j],
                    )
            }),
            r matches Err(e) ==> ({
                &&& final(self).nodes == old(self).nodes
                &&& (old_keys.contains(decl.qual) || decl_quals(dsp).contains(decl.qual))
                &&& e matches TypeTreeError::DuplicateType {
                    qualified_name,
                    existing_file,
                    new_file,
                } && qualified_name@ == decl.qual && opt_view(existing_file)
                    == collision_existing_file(*old(self), dsp.push(decl), dsp.len() as int)
                    && opt_view(new_file) == decl.file
            }),
    {
        let ghost pre = *self;
        match self.nodes.get(qualified.as_str()) {
            Option::Some(existing) => {
                proof {
                    lemma_first_index_contains(self.nodes.key_seq(), qualified@);
                    lemma_concat_contains(old_keys, decl_quals(dsp), qualified@);
                    assert(dsp.push(decl)[dsp.len() as int] == decl);
                    if old_keys.contains(decl.qual) {
                        assert(old_keys.contains(dsp.push(decl)[dsp.len() as int].qual));
                    } else {
                        let j = choose|j: int|
                            0 <= j < decl_quals(dsp).len() && decl_quals(dsp)[j] == decl.qual;
                        assert(dsp.push(decl)[j] == dsp[j]);
                        assert(dsp.push(decl)[j].qual == dsp.push(decl)[dsp.len() as int].qual);
                    }
                    assert(!no_collision(old_keys, dsp.push(decl)));
                }
                Result::Err(
                    TypeTreeError::DuplicateType {
                        qualified_name: qualified,
                        existing_file: clone_opt_string(&existing.file_path),
                        new_file: clone_opt_string(file_path),
                    },
                )
            },
            Option::None => {
                proof {
                    lemma_first_index_contains(self.nodes.key_seq(), qualified@);
                    lemma_concat_contains(old_keys, decl_quals(dsp), qualified@);
                }
                let returned = copy_string(&qualified);
                let node = TypeNode {
                    qualified_name: copy_string(&qualified),
                    definition,
                    dependencies: NameSet::new(),
                    span,
                    file_path: clone_opt_string(file_path),
                };
                let ghost q = qualified@;
                let ghost nodev = node;
                self.nodes.insert(qualified, node);
                proof {
                    assert(decl_quals(dsp.push(decl)) =~= decl_quals(dsp).push(decl.qual));
                    assert(self.nodes.key_seq() =~= old_keys + decl_quals(dsp.push(decl)));
                    assert(self.nodes.val_seq()[old(self).nodes.spec_len() as int] == nodev);
                    assert(node_matches_decl(nodev, decl));
                    // the extended declaration list stays collision-free
                    assert forall|i: int, j: int|
                        0 <= i < j < dsp.push(decl).len() implies (#[trigger] dsp.push(
                        decl,
                    )[i].qual) != (#[trigger] dsp.push(decl)[j].qual) by {
                        if j == dsp.len() as int {
                            if dsp[i].qual == decl.qual {
                                assert(decl_quals(dsp)[i] == dsp[i].qual);
                                assert(decl_quals(dsp).contains(decl.qual));
                            }
                        }
                    }
                    assert forall|j: int| 0 <= j < dsp.push(decl).len() implies !old_keys.contains(
                        (#[trigger] dsp.push(decl)[j]).qual,
                    ) by {}
                    // well-formedness of the grown tree
                    assert forall|i: int|
                        0 <= i < self.nodes.spec_len() implies (
                    #[trigger] self.nodes.val_seq()[i]).qualified_name@ == self.nodes.key_seq()[i]
                        && self.nodes.val_seq()[i].dependencies.wf() by {
                        if i < old(self).nodes.spec_len() {
                            assert(self.nodes.val_seq()[i] == old(self).nodes.val_seq()[i]);
                        }
                    }
                    assert forall|i: int, dd: Seq<char>|
                        0 <= i < self.nodes.spec_len()
                            && #[trigger] self.nodes.val_seq()[i].dependencies.spec_contains(dd)
                            implies self.nodes.spec_contains_key(dd) by {
                        crate::collections::lemma_first_index_push(
                            old(self).nodes.key_seq(),
                            dd,
                            q,
                        );
                        if i < old(self).nodes.spec_len() {
                            assert(self.nodes.val_seq()[i] == old(self).nodes.val_seq()[i]);
                            assert(old(self).nodes.spec_contains_key(dd));
                        } else {
                            assert(self.nodes.val_seq()[i] == nodev);
                        }
                    }
                }
                Result::Ok(returned)
            },
        }
    }
}

/// An element occurs in a concatenation exactly when it occurs in one part.
pub proof fn lemma_concat_contains(a: Seq<Seq<char>>, b: Seq<Seq<char>>, x: Seq<char>)
    ensures
        (a + b).contains(x) == (a.contains(x) || b.contains(x)),
{
    if a.contains(x) {
        let i = choose|i: int| 0 <= i < a.len() && a[i] == x;
        assert((a + b)[i] == x);
    }
    if b.contains(x) {
        let i = choose|i: int| 0 <= i < b.len() && b[i] == x;
        assert((a + b)[a.len() + i] == x);
    }
    if (a + b).contains(x) {
        let i = choose|i: int| 0 <= i < (a + b).len() && (a + b)[i] == x;
        if i < a.len() {
            assert(a[i] == x);
        } else {
            assert(b[i - a.len()] == x);
        }
    }
}

/// The schema references a field type contributes, outermost wrappers
/// descended: `option<..>` and `vec<..>` are transparent, primitives
/// contribute nothing, and a reference contributes itself.
pub open spec fn refs_of_tv(t: TypeV) -> Seq<SchemaRefV>
    decreases t,
{
    match t {
        TypeV::Primitive(_) => Seq::empty(),
        TypeV::Option(inner) => refs_of_tv(*inner),
        TypeV::Vec(inner) => refs_of_tv(*inner),
        TypeV::SchemaRef(r) => seq![r],
    }
}

/// The references of a schema's fields, in field order.
pub open spec fn refs_of_fields(fs: Seq<crate::ast::SchemaFieldV>) -> Seq<SchemaRefV>
    decreases fs.len(),
{
    if fs.len() == 0 {
        Seq::empty()
    } else {
        refs_of_fields(fs.drop_last()) + refs_of_tv(fs.last().field_type)
    }
}

/// The references of a program's schema definitions, in order; enums and
/// services contribute none.
pub open spec fn refs_of_defs(ds: Seq<DefinitionV>) -> Seq<SchemaRefV>
    decreases ds.len(),
{
    if ds.len() == 0 {
        Seq::empty()
    } else {
        refs_of_defs(ds.drop_last()) + (match ds.last() {
            DefinitionV::Schema(s) => refs_of_fields(s.fields),
            _ => Seq::empty(),
        })
    }
}

/// Resolution of a list of references: the qualified names in order, or
/// the first failure.
pub open spec fn resolve_refs(
    t: TypeTree,
    pkg: Seq<char>,
    file: Option<Seq<char>>,
    imports: Seq<Seq<char>>,
    refs: Seq<SchemaRefV>,
) -> Result<Seq<Seq<char>>, ResolutionV>
    decreases refs.len(),
{
    if refs.len() == 0 {
        Result::Ok(Seq::empty())
    } else {
        match resolve_refs(t, pkg, file, imports, refs.drop_last()) {
            Result::Ok(qs) => match spec_resolve(t, pkg, file, imports, refs.last()) {
                ResolutionV::Found(q) => Result::Ok(qs.push(q)),
                other => Result::Err(other),
            },
            Result::Err(e) => Result::Err(e),
        }
    }
}

/// Adding names to a set one by one, keeping first occurrences.
pub open spec fn add_names(acc: Seq<Seq<char>>, qs: Seq<Seq<char>>) -> Seq<Seq<char>>
    decreases qs.len(),
{
    if qs.len() == 0 {
        acc
    } else {
        let prev = add_names(acc, qs.drop_last());
        if prev.contains(qs.last()) {
            prev
        } else {
            prev.push(qs.last())
        }
    }
}

/// Resolving a concatenation: the left part first, then the right.
pub proof fn lemma_resolve_refs_concat(
    t: TypeTree,
    pkg: Seq<char>,
    file: Option<Seq<char>>,
    imports: Seq<Seq<char>>,
    a: Seq<SchemaRefV>,
    b: Seq<SchemaRefV>,
)
    ensures
        resolve_refs(t, pkg, file, imports, a + b) == (match resolve_refs(
            t,
            pkg,
            file,
            imports,
            a,
        ) {
            Result::Ok(qs) => match resolve_refs(t, pkg, file, imports, b) {
                Result::Ok(qs2) => Result::<Seq<Seq<char>>, ResolutionV>::Ok(qs + qs2),
                Result::Err(e) => Result::Err(e),
            },
            Result::Err(e) => Result::Err(e),
        }),
    decreases b.len(),
{
    if b.len() == 0 {
        assert(a + b =~= a);
        match resolve_refs(t, pkg, file, imports, a) {
            Result::Ok(qs) => {
                assert(qs + Seq::<Seq<char>>::empty() =~= qs);
            },
            Result::Err(_) => {},
        }
    } else {
        lemma_resolve_refs_concat(t, pkg, file, imports, a, b.drop_last());
        assert((a + b).drop_last() =~= a + b.drop_last());
        assert((a + b).last() == b.last());
        match resolve_refs(t, pkg, file, imports, a) {
            Result::Ok(qs) => {
                match resolve_refs(t, pkg, file, imports, b.drop_last()) {
                    Result::Ok(qs2) => {
                        match spec_resolve(t, pkg, file, imports, b.last()) {
                            ResolutionV::Found(q) => {
                                assert((qs + qs2).push(q) =~= qs + qs2.push(q));
                            },
                            _ => {},
                        }
                    },
                    Result::Err(_) => {},
                }
            },
            Result::Err(_) => {},
        }
    }
}

/// Adding a concatenation of names is adding one part after the other.
pub proof fn lemma_add_names_concat(acc: Seq<Seq<char>>, a: Seq<Seq<char>>, b: Seq<Seq<char>>)
    ensures
        add_names(acc, a + b) == add_names(add_names(acc, a), b),
    decreases b.len(),
{
    if b.len() == 0 {
        assert(a + b =~= a);
    } else {
        lemma_add_names_concat(acc, a, b.drop_last());
        assert((a + b).drop_last() =~= a + b.drop_last());
        assert((a + b).last() == b.last());
    }
}

/// Every candidate an unqualified import search returns is an existing node.
pub proof fn lemma_candidates_have_nodes(
    t: TypeTree,
    files: Seq<Seq<char>>,
    name: Seq<char>,
    q: Seq<char>,
)
    requires
        crate::resolve::import_candidates(t, files, name).contains(q),
    ensures
        t.has_node(q),
    decreases files.len(),
{
    let cands = crate::resolve::import_candidates(t, files, name);
    if files.len() > 0 {
        let prev = crate::resolve::import_candidates(t, files.drop_last(), name);
        if prev.contains(q) {
            lemma_candidates_have_nodes(t, files.drop_last(), name, q);
        } else {
            let i = choose|i: int| 0 <= i < cands.len() && cands[i] == q;
            if i < prev.len() {
                assert(prev[i] == cands[i]);
                assert(prev.contains(q));
            }
        }
    }
}

/// A reference that resolves names an existing node.
pub proof fn lemma_found_has_node(
    t: TypeTree,
    pkg: Seq<char>,
    file: Option<Seq<char>>,
    imports: Seq<Seq<char>>,
    r: SchemaRefV,
    q: Seq<char>,
)
    requires
        spec_resolve(t, pkg, file, imports, r) == ResolutionV::Found(q),
    ensures
        t.has_node(q),
{
    match r.package {
        Option::Some(_) => {},
        Option::None => {
            let local = crate::text::spec_qual(pkg, r.name);
            if pkg.len() > 0 && t.has_node(local) {
            } else if t.has_node(r.name) {
            } else {
                let files = crate::resolve::search_files(t, file, imports);
                let cands = crate::resolve::import_candidates(t, files, r.name);
                if cands.len() == 1 {
                    assert(cands.contains(cands[0]));
                    lemma_candidates_have_nodes(t, files, r.name, q);
                }
            }
        },
    }
}

/// The parts of a tree that resolution reads: the node keys, the
/// file-to-package map, and the import graph. Two trees that agree here
/// resolve every reference the same way.
pub open spec fn stable_eq(t1: TypeTree, t2: TypeTree) -> bool {
    &&& t1.nodes.key_seq() == t2.nodes.key_seq()
    &&& forall|f: Seq<char>| #[trigger] t1.file_package(f) == t2.file_package(f)
    &&& forall|f: Seq<char>| #[trigger] t1.import_edges(f) == t2.import_edges(f)
}

/// Import candidates and the tried list only read the stable parts.
pub proof fn lemma_candidates_stable(
    t1: TypeTree,
    t2: TypeTree,
    files: Seq<Seq<char>>,
    name: Seq<char>,
)
    requires
        stable_eq(t1, t2),
    ensures
        crate::resolve::import_candidates(t1, files, name) == crate::resolve::import_candidates(
            t2,
            files,
            name,
        ),
        crate::resolve::import_tried(t1, files, name) == crate::resolve::import_tried(
            t2,
            files,
            name,
        ),
    decreases files.len(),
{
    if files.len() > 0 {
        lemma_candidates_stable(t1, t2, files.drop_last(), name);
    }
}

/// Resolution only reads the stable parts of a tree.
pub proof fn lemma_resolve_stable(
    t1: TypeTree,
    t2: TypeTree,
    pkg: Seq<char>,
    file: Option<Seq<char>>,
    imports: Seq<Seq<char>>,
    r: SchemaRefV,
)
    requires
        stable_eq(t1, t2),
    ensures
        spec_resolve(t1, pkg, file, imports, r) == spec_resolve(t2, pkg, file, imports, r),
{
    match r.package {
        Option::Some(_) => {},
        Option::None => {
            let files = crate::resolve::search_files(t1, file, imports);
            assert(crate::resolve::search_files(t2, file, imports) == files);
            lemma_candidates_stable(t1, t2, files, r.name);
        },
    }
}

/// Resolving a reference list only reads the stable parts of a tree.
pub proof fn lemma_resolve_refs_stable(
    t1: TypeTree,
    t2: TypeTree,
    pkg: Seq<char>,
    file: Option<Seq<char>>,
    imports: Seq<Seq<char>>,
    refs: Seq<SchemaRefV>,
)
    requires
        stable_eq(t1, t2),
    ensures
        resolve_refs(t1, pkg, file, imports, refs) == resolve_refs(t2, pkg, file, imports, refs),
    decreases refs.len(),
{
    if refs.len() > 0 {
        lemma_resolve_refs_stable(t1, t2, pkg, file, imports, refs.drop_last());
        lemma_resolve_stable(t1, t2, pkg, file, imports, refs.last());
    }
}

/// The references of the definitions from index `d` on.
pub open spec fn refs_of_defs_from(ds: Seq<DefinitionV>, d: int) -> Seq<SchemaRefV>
    decreases ds.len() - d,
{
    if d < 0 || d >= ds.len() {
        Seq::empty()
    } else {
        (match ds[d] {
            DefinitionV::Schema(s) => refs_of_fields(s.fields),
            _ => Seq::empty(),
        }) + refs_of_defs_from(ds, d + 1)
    }
}

/// The references of the fields from index `f` on.
pub open spec fn refs_of_fields_from(fs: Seq<crate::ast::SchemaFieldV>, f: int) -> Seq<SchemaRefV>
    decreases fs.len() - f,
{
    if f < 0 || f >= fs.len() {
        Seq::empty()
    } else {
        refs_of_tv(fs[f].field_type) + refs_of_fields_from(fs, f + 1)
    }
}

/// A definition list's references split at `d`.
pub proof fn lemma_refs_of_defs_split(ds: Seq<DefinitionV>, d: int)
    requires
        0 <= d <= ds.len(),
    ensures
        refs_of_defs(ds) == refs_of_defs(ds.take(d)) + refs_of_defs_from(ds, d),
    decreases ds.len() - d,
{
    if d == ds.len() {
        assert(ds.take(d) =~= ds);
        assert(refs_of_defs(ds) + Seq::<SchemaRefV>::empty() =~= refs_of_defs(ds));
        assert(refs_of_defs_from(ds, d) =~= Seq::<SchemaRefV>::empty());
    } else {
        lemma_refs_of_defs_split(ds, d + 1);
        assert(ds.take(d + 1).drop_last() =~= ds.take(d));
        assert(ds.take(d + 1).last() == ds[d]);
        let piece = match ds[d] {
            DefinitionV::Schema(s) => refs_of_fields(s.fields),
            _ => Seq::<SchemaRefV>::empty(),
        };
        assert(refs_of_defs(ds.take(d + 1)) == refs_of_defs(ds.take(d)) + piece) by {
            match ds[d] {
                DefinitionV::Schema(_) => {},
                _ => {
                    assert(refs_of_defs(ds.take(d)) + Seq::<SchemaRefV>::empty() =~= refs_of_defs(
                        ds.take(d),
                    ));
                },
            }
        }
        assert((refs_of_defs(ds.take(d)) + piece) + refs_of_defs_from(ds, d + 1) =~= refs_of_defs(
            ds.take(d),
        ) + (piece + refs_of_defs_from(ds, d + 1)));
    }
}

/// A field list's references split at `f`.
pub proof fn lemma_refs_of_fields_split(fs: Seq<crate::ast::SchemaFieldV>, f: int)
    requires
        0 <= f <= fs.len(),
    ensures
        refs_of_fields(fs) == refs_of_fields(fs.take(f)) + refs_of_fields_from(fs, f),
    decreases fs.len() - f,
{
    if f == fs.len() {
        assert(fs.take(f) =~= fs);
        assert(refs_of_fields(fs) + Seq::<SchemaRefV>::empty() =~= refs_of_fields(fs));
    } else {
        lemma_refs_of_fields_split(fs, f + 1);
        assert(fs.take(f + 1).drop_last() =~= fs.take(f));
        assert(fs.take(f + 1).last() == fs[f]);
        assert(refs_of_fields(fs.take(f + 1)) == refs_of_fields(fs.take(f)) + refs_of_tv(
            fs[f].field_type,
        ));
        assert((refs_of_fields(fs.take(f)) + refs_of_tv(fs[f].field_type)) + refs_of_fields_from(
            fs,
            f + 1,
        ) =~= refs_of_fields(fs.take(f)) + (refs_of_tv(fs[f].field_type) + refs_of_fields_from(
            fs,
            f + 1,
        )));
    }
}

/// A node after the dependency pass: the same definition, now carrying the
/// resolved dependency edges, first occurrences kept in resolution order.
pub open spec fn deps_filled(n1: TypeNode, n2: TypeNode, qs: Seq<Seq<char>>) -> bool {
    &&& n2.qualified_name@ == n1.qualified_name@
    &&& n2.definition@ == n1.definition@
    &&& opt_view(n2.file_path) == opt_view(n1.file_path)
    &&& n2.span == n1.span
    &&& n2.dependencies.seq_view() == add_names(Seq::empty(), qs)
}

/// Whether a definition is a schema.
pub open spec fn is_schema_def(d: DefinitionV) -> bool {
    d matches DefinitionV::Schema(_)
}

/// Whether some declaration in `ds` is a schema with qualified name `q`.
pub open spec fn is_schema_qual(ds: Seq<DeclV>, q: Seq<char>) -> bool {
    exists|j: int|
        0 <= j < ds.len() && is_schema_def((#[trigger] ds[j]).def) && ds[j].qual
            == q
}

/// The dependency pass did its work for one declaration: a schema's node
/// carries its resolved edges, and a name the tree never had stays absent.
pub open spec fn decl_deps_done(t0: TypeTree, t1: TypeTree, d: DeclV) -> bool {
    match d.def {
        DefinitionV::Schema(s) => {
            let rr = resolve_refs(t0, d.pkg, d.file, d.imports, refs_of_fields(s.fields));
            &&& rr is Ok
            &&& (t0.has_node(d.qual) ==> (t1.nodes.spec_get(d.qual) matches Option::Some(n2) && (
            t0.nodes.spec_get(d.qual) matches Option::Some(n1) && deps_filled(n1, n2, rr->Ok_0))))
            &&& (!t0.has_node(d.qual) ==> t1.nodes.spec_get(d.qual) == t0.nodes.spec_get(d.qual))
        },
        _ => true,
    }
}

/// A tree holds the registration of a batch: its programs in order, the
/// file-to-package and import maps, and the package index.
pub open spec fn registered(t: TypeTree, bv: Seq<EntryV>) -> bool {
    &&& t.programs@.len() == bv.len()
    &&& forall|i: int|
        0 <= i < bv.len() ==> (#[trigger] t.programs@[i]).program@ == bv[i].program
    &&& forall|i: int|
        0 <= i < bv.len() ==> opt_view((#[trigger] t.programs@[i]).file_path) == bv[i].file
    &&& forall|i: int|
        0 <= i < bv.len() ==> ((#[trigger] t.programs@[i]).package_name matches Option::Some(p)
            && p@ == entry_pkg(bv[i]))
    &&& forall|f: Seq<char>| #[trigger] t.file_package(f) == crate::tree::reg_file_pkg(bv, f)
    &&& forall|f: Seq<char>| #[trigger] t.import_edges(f) == crate::tree::reg_imports(bv, f)
    &&& t.import_graph.key_seq() == crate::tree::reg_files(bv)
    &&& forall|p: Seq<char>|
        #[trigger] t.package_programs(p) == if crate::tree::reg_pkg_indices(bv, p).len() > 0 {
            Option::Some(crate::tree::reg_pkg_indices(bv, p))
        } else {
            Option::<Seq<usize>>::None
        }
}

/// The qualified names a file was recorded to define: those of the last
/// ingested program carrying that file.
pub open spec fn collect_file_types(bv: Seq<EntryV>, f: Seq<char>) -> Option<Seq<Seq<char>>>
    decreases bv.len(),
{
    if bv.len() == 0 {
        Option::None
    } else if bv.last().file == Option::Some(f) {
        Option::Some(decl_quals(decls_of_entry(bv.last())))
    } else {
        collect_file_types(bv.drop_last(), f)
    }
}

/// A tree holds the collected declarations of a batch: one node per
/// declaration, in order, under globally distinct qualified names.
pub open spec fn collected(t: TypeTree, bv: Seq<EntryV>) -> bool {
    let ds = decls_of(bv);
    &&& quals_distinct(ds)
    &&& t.nodes.key_seq() == decl_quals(ds)
    &&& t.nodes.val_seq().len() == ds.len()
    &&& forall|j: int|
        0 <= j < ds.len() ==> {
            let n = #[trigger] t.nodes.val_seq()[j];
            n.qualified_name@ == ds[j].qual && n.definition@ == ds[j].def && opt_view(n.file_path)
                == ds[j].file
        }
    &&& forall|f: Seq<char>| #[trigger] t.file_types(f) == collect_file_types(bv, f)
}

/// A tree holds the resolved dependency edges of a batch: each schema node
/// carries the names its fields resolve to, and every other node carries
/// none.
pub open spec fn deps_built(t: TypeTree, bv: Seq<EntryV>) -> bool {
    let ds = decls_of(bv);
    forall|j: int|
        0 <= j < ds.len() ==> match (#[trigger] ds[j]).def {
            DefinitionV::Schema(s) => (resolve_refs(
                t,
                ds[j].pkg,
                ds[j].file,
                ds[j].imports,
                refs_of_fields(s.fields),
            ) matches Ok(qs) && t.nodes.val_seq()[j].dependencies.seq_view() == add_names(
                Seq::<Seq<char>>::empty(),
                qs,
            )),
            _ => t.nodes.val_seq()[j].dependencies.seq_view() == Seq::<Seq<char>>::empty(),
        }
}

/// Everything a successful build promises: the registration, the collected
/// nodes, the resolved dependency edges, well-formedness, and an acyclic
/// dependency graph.
pub open spec fn built_from(t: TypeTree, bv: Seq<EntryV>) -> bool {
    &&& t.wf()
    &&& registered(t, bv)
    &&& collected(t, bv)
    &&& deps_built(t, bv)
    &&& crate::cycles::dep_acyclic(t)
}

/// A batch can be built at all.
pub open spec fn build_succeeds(bv: Seq<EntryV>) -> bool {
    exists|t: TypeTree| built_from(t, bv)
}

/// The first dependency-resolution failure over a batch, program by
/// program, in order.
pub open spec fn batch_deps_err(t: TypeTree, bv: Seq<EntryV>) -> Option<ResolutionV>
    decreases bv.len(),
{
    if bv.len() == 0 {
        Option::None
    } else {
        match batch_deps_err(t, bv.drop_last()) {
            Option::Some(e) => Option::Some(e),
            Option::None => {
                let last = bv.last();
                match resolve_refs(
                    t,
                    entry_pkg(last),
                    last.file,
                    last.program.imports,
                    refs_of_defs(last.program.definitions),
                ) {
                    Result::Ok(_) => Option::None,
                    Result::Err(e) => Option::Some(e),
                }
            },
        }
    }
}

/// How a failed build reads: the first duplicate, else the first unresolved
/// reference, else a dependency cycle.
pub open spec fn build_error_matches(bv: Seq<EntryV>, e: TypeTreeError) -> bool {
    let ds = decls_of(bv);
    if !quals_distinct(ds) {
        e matches TypeTreeError::DuplicateType { qualified_name, .. } && exists|k1: int, k2: int|
            0 <= k1 < k2 < ds.len() && (#[trigger] ds[k1]).qual == (#[trigger] ds[k2]).qual && ds[k2].qual
                == qualified_name@
    } else {
        exists|t: TypeTree|
            {
                &&& #[trigger] t.wf()
                &&& registered(t, bv)
                &&& collected(t, bv)
                &&& match batch_deps_err(t, bv) {
                    Option::Some(bad) => res_err_matches(bad, e),
                    Option::None => {
                        &&& deps_built(t, bv)
                        &&& (e matches TypeTreeError::CircularDependency { path } && exists|
                            c: Seq<Seq<char>>,
                        |
                            #[trigger] crate::cycles::dep_cycle(t, c) && path@ == crate::text::spec_join(
                                c,
                                " -> "@,
                            ))
                    },
                }
            }
    }
}

/// A collision-free extension of a distinct declaration list is distinct.
proof fn lemma_distinct_extend(a: Seq<DeclV>, b: Seq<DeclV>)
    requires
        quals_distinct(a),
        no_collision(decl_quals(a), b),
    ensures
        quals_distinct(a + b),
{
    assert forall|i: int, j: int| 0 <= i < j < (a + b).len() implies ((a + b)[i]).qual != ((a
        + b)[j]).qual by {
        if j < a.len() {
            assert((a + b)[i] == a[i] && (a + b)[j] == a[j]);
        } else if i >= a.len() {
            assert((a + b)[i] == b[i - a.len()] && (a + b)[j] == b[j - a.len()]);
        } else {
            assert((a + b)[i] == a[i] && (a + b)[j] == b[j - a.len()]);
            assert(decl_quals(a)[i] == a[i].qual);
            if a[i].qual == b[j - a.len()].qual {
                assert(decl_quals(a).contains(b[j - a.len()].qual));
            }
        }
    }
}

/// Distinctness restricts to both parts of a concatenation.
proof fn lemma_distinct_parts(a: Seq<DeclV>, b: Seq<DeclV>)
    requires
        quals_distinct(a + b),
    ensures
        quals_distinct(a),
        quals_distinct(b),
{
    assert forall|i: int, j: int| 0 <= i < j < a.len() implies (#[trigger] a[i]).qual != (
    #[trigger] a[j]).qual by {
        assert((a + b)[i] == a[i] && (a + b)[j] == a[j]);
    }
    assert forall|i: int, j: int| 0 <= i < j < b.len() implies (#[trigger] b[i]).qual != (
    #[trigger] b[j]).qual by {
        assert((a + b)[a.len() + i] == b[i] && (a + b)[a.len() + j] == b[j]);
    }
}

impl TypeTree {
    /// Registers one program of a batch: stores it under the next index,
    /// records its package, and — when it carries a file — the file's
    /// package and resolved imports.
    #[verifier::loop_isolation(false)]
    pub(crate) fn register(&mut self, program: Program, file_path: Option<String>)
        requires
            old(self).wf(),
        ensures
            final(self).wf(),
            final(self).nodes == old(self).nodes,
            final(self).file_to_types == old(self).file_to_types,
            final(self).programs@.len() == old(self).programs@.len() + 1,
            forall|i: int|
                0 <= i < old(self).programs@.len() ==> final(self).programs@[i] == old(
                    self,
                ).programs@[i],
            final(self).programs@.last().program@ == program@,
            opt_view(final(self).programs@.last().file_path) == opt_view(file_path),
            final(self).programs@.last().package_name matches Option::Some(p) && p@
                == crate::ast::spec_package_string(program@),
            forall|f: Seq<char>|
                #[trigger] final(self).file_package(f) == (match file_path {
                    Option::Some(fp) => if f == fp@ {
                        Option::Some(crate::ast::spec_package_string(program@))
                    } else {
                        old(self).file_package(f)
                    },
                    Option::None => old(self).file_package(f),
                }),
            forall|f: Seq<char>|
                #[trigger] final(self).import_edges(f) == (match file_path {
                    Option::Some(fp) => if f == fp@ {
                        Option::Some(
                            crate::tree::resolved_imports(fp@, program@.imports),
                        )
                    } else {
                        old(self).import_edges(f)
                    },
                    Option::None => old(self).import_edges(f),
                }),
            final(self).import_graph.key_seq() == (match file_path {
                Option::Some(fp) => if old(self).import_graph.spec_contains_key(fp@) {
                    old(self).import_graph.key_seq()
                } else {
                    old(self).import_graph.key_seq().push(fp@)
                },
                Option::None => old(self).import_graph.key_seq(),
            }),
            forall|p: Seq<char>|
                #[trigger] final(self).package_programs(p) == if p
                    == crate::ast::spec_package_string(program@) {
                    Option::Some(
                        match old(self).package_programs(p) {
                            Option::Some(v) => v.push(old(self).programs@.len() as usize),
                            Option::None => seq![old(self).programs@.len() as usize],
                        },
                    )
                } else {
                    old(self).package_programs(p)
                },
    {
        let ghost pv = program@;
        let package_name = program.package_string();
        let program_index = self.programs.len();

        // Extend the list of programs declaring this package.
        let mut indices: Vec<usize> = match self.package_to_programs.get(package_name.as_str()) {
            Option::Some(v) => crate::tree::clone_usizes(v),
            Option::None => Vec::new(),
        };
        indices.push(program_index);
        let ghost idxs = indices@;
        proof {
            crate::collections::lemma_first_index_props(
                self.package_to_programs.key_seq(),
                package_name@,
            );
            assert forall|j: int| 0 <= j < idxs.len() implies idxs[j] <= old(
                self,
            ).programs@.len() by {
                if j < idxs.len() - 1 {
                    let fi = crate::collections::first_index(
                        self.package_to_programs.key_seq(),
                        package_name@,
                    );
                    assert(self.package_to_programs.val_seq()[fi]@[j] < self.programs@.len());
                }
            }
        }

        match &file_path {
            Option::Some(fp) => {
                // Resolve the program's imports against this file.
                let mut imported_files: Vec<String> = Vec::new();
                let mut i: usize = 0;
                while i < program.imports.len()
                    invariant
                        0 <= i <= program.imports@.len(),
                        program@ == pv,
                        imported_files@.len() == i,
                        forall|j: int|
                            0 <= j < i ==> imported_files@[j]@ == crate::text::spec_resolve_import(
                                fp@,
                                pv.imports[j],
                            ),
                    decreases program.imports@.len() - i,
                {
                    let resolved = crate::text::resolve_import(
                        fp.as_str(),
                        program.imports[i].path.as_str(),
                    );
                    proof {
                        assert(pv.imports[i as int] == program.imports@[i as int]@);
                    }
                    imported_files.push(resolved);
                    i += 1;
                }
                proof {
                    assert(views_of(imported_files@) =~= crate::tree::resolved_imports(
                        fp@,
                        pv.imports,
                    ));
                }
                self.file_to_package.insert(copy_string(fp), copy_string(&package_name));
                self.import_graph.insert(copy_string(fp), imported_files);
            },
            Option::None => {},
        }

        let ghost pkg_v = package_name@;
        self.programs.push(
            crate::tree::ProgramInfo {
                program,
                file_path,
                package_name: Option::Some(package_name.clone()),
            },
        );
        self.package_to_programs.insert(package_name, indices);

        proof {
            assert forall|i: int, j: int|
                0 <= i < self.package_to_programs.spec_len() && 0 <= j
                    < self.package_to_programs.val_seq()[i]@.len()
                    implies #[trigger] self.package_to_programs.val_seq()[i]@[j]
                < self.programs@.len() by {
                let old_map = old(self).package_to_programs;
                crate::collections::lemma_first_index_props(old_map.key_seq(), pkg_v);
                if old_map.spec_contains_key(pkg_v) {
                    let fi = crate::collections::first_index(old_map.key_seq(), pkg_v);
                    if i == fi {
                        assert(self.package_to_programs.val_seq()[i]@ == idxs);
                    } else {
                        assert(self.package_to_programs.val_seq()[i] == old_map.val_seq()[i]);
                        assert(old_map.val_seq()[i]@[j] < old(self).programs@.len());
                    }
                } else {
                    if i == old_map.spec_len() {
                        assert(self.package_to_programs.val_seq()[i]@ == idxs);
                    } else {
                        assert(self.package_to_programs.val_seq()[i] == old_map.val_seq()[i]);
                        assert(old_map.val_seq()[i]@[j] < old(self).programs@.len());
                    }
                }
            }
            assert forall|p: Seq<char>|
                #[trigger] self.package_programs(p) == if p == crate::ast::spec_package_string(
                    pv,
                ) {
                    Option::Some(
                        match old(self).package_programs(p) {
                            Option::Some(v) => v.push(old(self).programs@.len() as usize),
                            Option::None => seq![old(self).programs@.len() as usize],
                        },
                    )
                } else {
                    old(self).package_programs(p)
                } by {
                if p == crate::ast::spec_package_string(pv) {
                    match old(self).package_programs(p) {
                        Option::Some(v) => {
                            assert(self.package_programs(p) == Option::Some(v.push(program_index)));
                        },
                        Option::None => {
                            assert(self.package_programs(p) == Option::Some(seq![program_index]));
                        },
                    }
                }
            }
        }
    }
}

/// The declarations of a batch prefix are a prefix of the batch's
/// declarations.
proof fn lemma_batch_decls_prefix(bv: Seq<EntryV>, i: int)
    requires
        0 <= i <= bv.len(),
    ensures
        decls_of(bv.take(i)).len() <= decls_of(bv).len(),
        decls_of(bv).take(decls_of(bv.take(i)).len() as int) == decls_of(bv.take(i)),
    decreases bv.len() - i,
{
    let full = decls_of(bv);
    let part = decls_of(bv.take(i));
    if i == bv.len() {
        assert(bv.take(i) =~= bv);
        assert(full.take(part.len() as int) =~= part);
    } else {
        lemma_batch_decls_prefix(bv, i + 1);
        let part1 = decls_of(bv.take(i + 1));
        assert(bv.take(i + 1).drop_last() =~= bv.take(i));
        assert(bv.take(i + 1).last() == bv[i]);
        assert(part1 == part + decls_of_entry(bv[i]));
        assert(full.take(part.len() as int) =~= part1.take(part.len() as int));
        assert(part1.take(part.len() as int) =~= part);
    }
}

/// Where the first collision sits: at a declaration that repeats an
/// existing or an earlier name.
proof fn lemma_first_collision_props(keys: Seq<Seq<char>>, ds: Seq<DeclV>)
    ensures
        first_collision(keys, ds) >= 0 ==> ({
            let ci = first_collision(keys, ds);
            &&& ci < ds.len()
            &&& (keys.contains(ds[ci].qual) || decl_quals(ds.take(ci)).contains(ds[ci].qual))
        }),
    decreases ds.len(),
{
    if ds.len() > 0 {
        lemma_first_collision_props(keys, ds.drop_last());
        let ci = first_collision(keys, ds);
        if ci >= 0 {
            if first_collision(keys, ds.drop_last()) >= 0 {
                assert(ds.drop_last()[ci] == ds[ci]);
                assert(ds.drop_last().take(ci) =~= ds.take(ci));
            } else {
                assert(ci == ds.len() - 1);
                assert(ds.take(ci) =~= ds.drop_last());
            }
        }
    }
}

/// A first error over a prefix stays the first error of the whole batch.
proof fn lemma_batch_err_extend(t: TypeTree, bv: Seq<EntryV>, k: int)
    requires
        0 <= k <= bv.len(),
        batch_deps_err(t, bv.take(k)) is Some,
    ensures
        batch_deps_err(t, bv) == batch_deps_err(t, bv.take(k)),
    decreases bv.len() - k,
{
    if k == bv.len() {
        assert(bv.take(k) =~= bv);
    } else {
        assert(bv.take(k + 1).drop_last() =~= bv.take(k));
        assert(bv.take(k + 1).last() == bv[k]);
        lemma_batch_err_extend(t, bv, k + 1);
    }
}

/// The first batch error only reads the stable parts of a tree.
proof fn lemma_batch_deps_err_stable(t1: TypeTree, t2: TypeTree, bv: Seq<EntryV>)
    requires
        stable_eq(t1, t2),
    ensures
        batch_deps_err(t1, bv) == batch_deps_err(t2, bv),
    decreases bv.len(),
{
    if bv.len() > 0 {
        lemma_batch_deps_err_stable(t1, t2, bv.drop_last());
        let last = bv.last();
        lemma_resolve_refs_stable(
            t1,
            t2,
            entry_pkg(last),
            last.file,
            last.program.imports,
            refs_of_defs(last.program.definitions),
        );
    }
}

/// Copies a node's definition; the copy has the same view.
fn clone_definition(d: &TypeDefinition) -> (r: TypeDefinition)
    ensures
        r@ == d@,
{
    match d {
        TypeDefinition::Schema(s) => TypeDefinition::Schema(s.clone()),
        TypeDefinition::Enum(e) => TypeDefinition::Enum(e.clone()),
    }
}

impl TypeTree {
    /// Walks one field type, resolving each schema reference it contains
    /// and adding the resolved qualified name to `dependencies`. Wrappers
    /// are transparent; primitives contribute nothing. On an error the set
    /// may hold the names resolved before it.
    #[verifier::loop_isolation(false)]
    pub fn collect_type_dependencies(
        &self,
        type_with_span: &TypeWithSpan,
        current_program: &Program,
        dependencies: &mut NameSet,
    ) -> (r: Result<(), TypeTreeError>)
        ensures
            ({
                let res = resolve_refs(
                    *self,
                    crate::ast::spec_package_string(current_program@),
                    crate::resolve::prog_file(self.programs@, current_program@),
                    current_program@.imports,
                    refs_of_tv(type_with_span@),
                );
                match r {
                    Result::Ok(_) => res matches Result::Ok(qs) && final(dependencies).seq_view() == add_names(old(dependencies).seq_view(), qs),
                    Result::Err(e) => res matches Result::Err(bad) && res_err_matches(bad, e),
                }
            }),
            old(dependencies).wf() ==> final(dependencies).wf(),
            forall|q: Seq<char>|
                #[trigger] final(dependencies).spec_contains(q) ==> old(dependencies).spec_contains(q) || self.has_node(q),
    {
        let current_package = current_program.package_string();
        let current_file = self.find_file_for_program(current_program);
        proof {
            assert(current_program@.imports =~= current_program.imports@.map_values(
                |s: crate::ast::ImportStmt| s@,
            ));
        }
        self.collect_deps_of_type(
            type_with_span,
            &current_package,
            &current_file,
            &current_program.imports,
            dependencies,
        )
    }

    /// The recursive worker behind `collect_type_dependencies`, with the
    /// resolution context already fixed.
    pub(crate) fn collect_deps_of_type(
        &self,
        type_with_span: &TypeWithSpan,
        current_package: &String,
        current_file: &Option<String>,
        raw_imports: &Vec<crate::ast::ImportStmt>,
        dependencies: &mut NameSet,
    ) -> (r: Result<(), TypeTreeError>)
        ensures
            ({
                let res = resolve_refs(
                    *self,
                    current_package@,
                    opt_view(*current_file),
                    raw_imports@.map_values(|s: crate::ast::ImportStmt| s@),
                    refs_of_tv(type_with_span@),
                );
                match r {
                    Result::Ok(_) => res matches Result::Ok(qs) && final(dependencies).seq_view() == add_names(old(dependencies).seq_view(), qs),
                    Result::Err(e) => res matches Result::Err(bad) && res_err_matches(bad, e),
                }
            }),
            old(dependencies).wf() ==> final(dependencies).wf(),
            forall|q: Seq<char>|
                #[trigger] final(dependencies).spec_contains(q) ==> old(dependencies).spec_contains(q) || self.has_node(q),
        decreases *type_with_span,
    {
        let ghost ctx_file = opt_view(*current_file);
        let ghost raw_v = raw_imports@.map_values(|s: crate::ast::ImportStmt| s@);
        match &type_with_span.type_value {
            crate::ast::Type::Primitive(_) => {
                proof {
                    assert(add_names(old(dependencies).seq_view(), Seq::<Seq<char>>::empty())
                        == old(dependencies).seq_view());
                }
                Result::Ok(())
            },
            crate::ast::Type::Option(inner) => {
                let res = self.collect_deps_of_type(
                    &**inner,
                    current_package,
                    current_file,
                    raw_imports,
                    dependencies,
                );
                proof {
                    assert(refs_of_tv(type_with_span@) == refs_of_tv((**inner)@));
                }
                res
            },
            crate::ast::Type::Vec(inner) => {
                let res = self.collect_deps_of_type(
                    &**inner,
                    current_package,
                    current_file,
                    raw_imports,
                    dependencies,
                );
                proof {
                    assert(refs_of_tv(type_with_span@) == refs_of_tv((**inner)@));
                }
                res
            },
            crate::ast::Type::SchemaRef(schema_ref) => {
                let ghost refs = refs_of_tv(type_with_span@);
                proof {
                    assert(refs =~= seq![schema_ref@]);
                    assert(refs.drop_last() =~= Seq::<SchemaRefV>::empty());
                    assert(refs.last() == schema_ref@);
                }
                match self.resolve_ref_in(schema_ref, current_package, current_file, raw_imports) {
                    Result::Ok(q) => {
                        let ghost qv = q@;
                        dependencies.add(q);
                        proof {
                            crate::passes::lemma_found_has_node(
                                *self,
                                current_package@,
                                ctx_file,
                                raw_v,
                                schema_ref@,
                                qv,
                            );
                            let qs = seq![qv];
                            assert(qs.drop_last() =~= Seq::<Seq<char>>::empty());
                            assert(resolve_refs(
                                *self,
                                current_package@,
                                ctx_file,
                                raw_v,
                                Seq::<SchemaRefV>::empty(),
                            ) == Result::<Seq<Seq<char>>, ResolutionV>::Ok(Seq::<Seq<char>>::empty()));
                            assert(Seq::<Seq<char>>::empty().push(qv) =~= qs);
                            assert(resolve_refs(*self, current_package@, ctx_file, raw_v, refs)
                                == Result::<Seq<Seq<char>>, ResolutionV>::Ok(qs));
                            let acc = old(dependencies).seq_view();
                            assert(add_names(acc, Seq::<Seq<char>>::empty()) == acc);
                            crate::collections::lemma_first_index_contains(acc, qv);
                            if acc.contains(qv) {
                                assert(add_names(acc, qs) == acc);
                            } else {
                                assert(add_names(acc, qs) == acc.push(qv));
                            }
                        }
                        Result::Ok(())
                    },
                    Result::Err(e) => {
                        proof {
                            assert(resolve_refs(
                                *self,
                                current_package@,
                                ctx_file,
                                raw_v,
                                Seq::<SchemaRefV>::empty(),
                            ) == Result::<Seq<Seq<char>>, ResolutionV>::Ok(Seq::<Seq<char>>::empty()));
                        }
                        Result::Err(e)
                    },
                }
            },
        }
    }

    /// Resolves the field references of every schema of one program and
    /// fills the dependency edges of the schemas' nodes. The node set must
    /// already be complete: resolution sees every collected type. Stops at
    /// the first reference that fails to resolve.
    #[verifier::loop_isolation(false)]
    pub(crate) fn build_dependencies_from_program(
        &mut self,
        program: &Program,
        file_path: &Option<String>,
    ) -> (r: Result<(), TypeTreeError>)
        requires
            old(self).wf(),
            quals_distinct(decls_of_entry(entry_of(program@, opt_view(*file_path)))),
        ensures
            final(self).wf(),
            final(self).programs == old(self).programs,
            final(self).file_to_package == old(self).file_to_package,
            final(self).package_to_programs == old(self).package_to_programs,
            final(self).import_graph == old(self).import_graph,
            final(self).file_to_types == old(self).file_to_types,
            final(self).nodes.key_seq() == old(self).nodes.key_seq(),
            ({
                let e = entry_of(program@, opt_view(*file_path));
                let res = resolve_refs(
                    *old(self),
                    entry_pkg(e),
                    e.file,
                    e.program.imports,
                    refs_of_defs(e.program.definitions),
                );
                &&& ((r is Ok) == (res is Ok))
                &&& (r matches Err(err) ==> (res matches Err(bad) && res_err_matches(bad, err)))
                &&& (r is Ok ==> ({
                    let ds = decls_of_entry(e);
                    &&& forall|j: int|
                        0 <= j < ds.len() ==> decl_deps_done(*old(self), *final(self), #[trigger] ds[j])
                    &&& forall|q: Seq<char>|
                        !is_schema_qual(ds, q) ==> #[trigger] final(self).nodes.spec_get(q) == old(self).nodes.spec_get(q)
                }))
            }),
    {
        let ghost e = entry_of(program@, opt_view(*file_path));
        let ghost defs = program@.definitions;
        let ghost pkg_v = entry_pkg(e);
        let ghost raw_v = e.program.imports;
        let package_name = program.package_string();
        proof {
            assert(raw_v =~= program.imports@.map_values(|s: crate::ast::ImportStmt| s@));
        }

        let n = program.definitions.len();
        let mut d: usize = 0;
        while d < n
            invariant
                0 <= d <= n,
                self.wf(),
                self.programs == old(self).programs,
                self.file_to_package == old(self).file_to_package,
                self.package_to_programs == old(self).package_to_programs,
                self.import_graph == old(self).import_graph,
                self.file_to_types == old(self).file_to_types,
                self.nodes.key_seq() == old(self).nodes.key_seq(),
                resolve_refs(*old(self), pkg_v, e.file, raw_v, refs_of_defs(defs.take(d as int)))
                    is Ok,
                ({
                    let dsp = decls_of_defs(defs.take(d as int), pkg_v, e.file, raw_v);
                    &&& forall|j: int|
                        0 <= j < dsp.len() ==> decl_deps_done(*old(self), *self, #[trigger] dsp[j])
                    &&& forall|q: Seq<char>|
                        !is_schema_qual(dsp, q) ==> #[trigger] self.nodes.spec_get(q) == old(self).nodes.spec_get(q)
                }),
            decreases n - d,
        {
            let ghost dsp = decls_of_defs(defs.take(d as int), pkg_v, e.file, raw_v);
            let ghost dsp1 = decls_of_defs(defs.take(d + 1), pkg_v, e.file, raw_v);
            proof {
                assert(defs.take(d + 1).drop_last() =~= defs.take(d as int));
                assert(defs.take(d + 1).last() == defs[d as int]);
                assert(defs[d as int] == program.definitions@[d as int]@);
                lemma_decls_take_prefix(defs, pkg_v, e.file, raw_v, d as int);
                lemma_decls_take_prefix(defs, pkg_v, e.file, raw_v, d + 1);
            }
            match &program.definitions[d] {
                Definition::Schema(s) => {
                    let ghost decl = dsp1.last();
                    let ghost fields_v = s@.fields;
                    proof {
                        assert(dsp1 == dsp.push(decl));
                        assert(decl.def == DefinitionV::Schema(s@));
                        assert(decl.qual == spec_qual(pkg_v, s.name@));
                    }
                    let qualified = qualify(package_name.as_str(), s.name.as_str());
                    let mut deps = NameSet::new();
                    proof {
                        assert(refs_of_fields(fields_v.take(0)) =~= Seq::<SchemaRefV>::empty());
                        assert(add_names(Seq::<Seq<char>>::empty(), Seq::<Seq<char>>::empty())
                            == Seq::<Seq<char>>::empty());
                    }
                    let ghost tree_now = *self;
                    let nf = s.fields.len();
                    let mut f: usize = 0;
                    while f < nf
                        invariant
                            0 <= f <= nf,
                            nf == fields_v.len(),
                            *self == tree_now,
                            deps.wf(),
                            forall|q: Seq<char>|
                                #[trigger] deps.spec_contains(q) ==> self.has_node(q),
                            ({
                                let rr = resolve_refs(
                                    *old(self),
                                    pkg_v,
                                    e.file,
                                    raw_v,
                                    refs_of_fields(fields_v.take(f as int)),
                                );
                                rr is Ok && deps.seq_view() == add_names(
                                    Seq::<Seq<char>>::empty(),
                                    rr->Ok_0,
                                )
                            }),
                        decreases nf - f,
                    {
                        proof {
                            assert(fields_v.take(f + 1).drop_last() =~= fields_v.take(f as int));
                            assert(fields_v.take(f + 1).last() == fields_v[f as int]);
                            assert(fields_v[f as int] == s.fields@[f as int]@);
                        }
                        let ghost deps_pre = deps.seq_view();
                        match self.collect_deps_of_type(
                            &s.fields[f].field_type,
                            &package_name,
                            file_path,
                            &program.imports,
                            &mut deps,
                        ) {
                            Result::Ok(_) => {
                                proof {
                                    lemma_resolve_refs_stable(
                                        *self,
                                        *old(self),
                                        pkg_v,
                                        e.file,
                                        raw_v,
                                        refs_of_tv(fields_v[f as int].field_type),
                                    );
                                    lemma_resolve_refs_concat(
                                        *old(self),
                                        pkg_v,
                                        e.file,
                                        raw_v,
                                        refs_of_fields(fields_v.take(f as int)),
                                        refs_of_tv(fields_v[f as int].field_type),
                                    );
                                    let rr0 = resolve_refs(
                                        *old(self),
                                        pkg_v,
                                        e.file,
                                        raw_v,
                                        refs_of_fields(fields_v.take(f as int)),
                                    );
                                    let rtv = resolve_refs(
                                        *old(self),
                                        pkg_v,
                                        e.file,
                                        raw_v,
                                        refs_of_tv(fields_v[f as int].field_type),
                                    );
                                    lemma_add_names_concat(
                                        Seq::<Seq<char>>::empty(),
                                        rr0->Ok_0,
                                        rtv->Ok_0,
                                    );
                                    assert(refs_of_fields(fields_v.take(f + 1)) == refs_of_fields(
                                        fields_v.take(f as int),
                                    ) + refs_of_tv(fields_v[f as int].field_type));
                                }
                            },
                            Result::Err(err) => {
                                proof {
                                    lemma_resolve_refs_stable(
                                        *self,
                                        *old(self),
                                        pkg_v,
                                        e.file,
                                        raw_v,
                                        refs_of_tv(fields_v[f as int].field_type),
                                    );
                                    lemma_resolve_refs_concat(
                                        *old(self),
                                        pkg_v,
                                        e.file,
                                        raw_v,
                                        refs_of_tv(fields_v[f as int].field_type),
                                        refs_of_fields_from(fields_v, f + 1),
                                    );
                                    lemma_refs_of_fields_split(fields_v, f as int);
                                    assert(refs_of_fields_from(fields_v, f as int) == refs_of_tv(
                                        fields_v[f as int].field_type,
                                    ) + refs_of_fields_from(fields_v, f + 1));
                                    lemma_resolve_refs_concat(
                                        *old(self),
                                        pkg_v,
                                        e.file,
                                        raw_v,
                                        refs_of_fields(fields_v.take(f as int)),
                                        refs_of_fields_from(fields_v, f as int),
                                    );
                                    // schema-level failure lifts to the program level
                                    lemma_refs_of_defs_split(defs, d as int);
                                    lemma_refs_of_defs_split(defs, d + 1);
                                    assert(refs_of_defs_from(defs, d as int) == refs_of_fields(
                                        fields_v,
                                    ) + refs_of_defs_from(defs, d + 1));
                                    lemma_resolve_refs_concat(
                                        *old(self),
                                        pkg_v,
                                        e.file,
                                        raw_v,
                                        refs_of_fields(fields_v),
                                        refs_of_defs_from(defs, d + 1),
                                    );
                                    lemma_resolve_refs_concat(
                                        *old(self),
                                        pkg_v,
                                        e.file,
                                        raw_v,
                                        refs_of_defs(defs.take(d as int)),
                                        refs_of_defs_from(defs, d as int),
                                    );
                                    assert(defs.take(defs.len() as int) =~= defs);
                                }
                                return Result::Err(err);
                            },
                        }
                        f += 1;
                    }
                    proof {
                        assert(fields_v.take(nf as int) =~= fields_v);
                    }

                    // Store the resolved edges on the schema's node.
                    let ghost pre_nodes = self.nodes;
                    match self.nodes.get(qualified.as_str()) {
                        Option::Some(node) => {
                            let new_node = TypeNode {
                                qualified_name: copy_string(&node.qualified_name),
                                definition: clone_definition(&node.definition),
                                dependencies: deps,
                                span: node.span,
                                file_path: clone_opt_string(&node.file_path),
                            };
                            let ghost nodev = new_node;
                            self.nodes.insert(qualified, new_node);
                            proof {
                                crate::collections::lemma_first_index_props(
                                    pre_nodes.key_seq(),
                                    decl.qual,
                                );
                                let fi = crate::collections::first_index(
                                    pre_nodes.key_seq(),
                                    decl.qual,
                                );
                                assert(self.nodes.key_seq() == pre_nodes.key_seq());
                                // the previous value of this node was still the collected one
                                assert(!is_schema_qual(dsp, decl.qual)) by {
                                    if is_schema_qual(dsp, decl.qual) {
                                        let j = choose|j: int|
                                            0 <= j < dsp.len() && is_schema_def((#[trigger] dsp[j]).def) && dsp[j].qual
                                                == decl.qual;
                                        assert(dsp1[j] == dsp[j]);
                                        assert(dsp1[j].qual != dsp1[dsp.len() as int].qual);
                                    }
                                }
                                // well-formedness is preserved
                                assert forall|i: int|
                                    0 <= i < self.nodes.spec_len() implies (
                                #[trigger] self.nodes.val_seq()[i]).qualified_name@
                                    == self.nodes.key_seq()[i]
                                    && self.nodes.val_seq()[i].dependencies.wf() by {
                                    if i != fi {
                                        assert(self.nodes.val_seq()[i] == pre_nodes.val_seq()[i]);
                                    } else {
                                        assert(self.nodes.val_seq()[i] == nodev);
                                        assert(pre_nodes.val_seq()[fi].qualified_name@
                                            == pre_nodes.key_seq()[fi]);
                                    }
                                }
                                assert forall|i: int, dd: Seq<char>|
                                    0 <= i < self.nodes.spec_len()
                                        && #[trigger] self.nodes.val_seq()[i].dependencies.spec_contains(
                                        dd,
                                    ) implies self.nodes.spec_contains_key(dd) by {
                                    if i != fi {
                                        assert(self.nodes.val_seq()[i] == pre_nodes.val_seq()[i]);
                                    } else {
                                        assert(self.nodes.val_seq()[i] == nodev);
                                    }
                                }
                                // this declaration's work is done, others are untouched
                                assert(pre_nodes.spec_get(decl.qual) == old(self).nodes.spec_get(
                                    decl.qual,
                                ));
                                assert(decl_deps_done(*old(self), *self, decl)) by {
                                    lemma_decls_fields(defs.take(d + 1), pkg_v, e.file, raw_v);
                                    assert(decl.pkg == pkg_v && decl.file == e.file && decl.imports
                                        == raw_v);
                                }
                                assert forall|j: int| 0 <= j < dsp1.len() implies decl_deps_done(
                                    *old(self),
                                    *self,
                                    #[trigger] dsp1[j],
                                ) by {
                                    if j < dsp.len() {
                                        assert(dsp1[j] == dsp[j]);
                                        assert(decl_deps_done(*old(self), tree_now, dsp[j]));
                                        assert(dsp[j].qual != decl.qual);
                                    }
                                }
                                assert forall|q: Seq<char>|
                                    !is_schema_qual(dsp1, q) implies #[trigger] self.nodes.spec_get(
                                    q,
                                ) == old(self).nodes.spec_get(q) by {
                                    assert(dsp1[dsp.len() as int] == decl);
                                    assert(q != decl.qual);
                                    if is_schema_qual(dsp, q) {
                                        let j = choose|j: int|
                                            0 <= j < dsp.len() && is_schema_def((#[trigger] dsp[j]).def) && dsp[j].qual == q;
                                        assert(dsp1[j] == dsp[j]);
                                        assert(is_schema_qual(dsp1, q));
                                    }
                                }
                            }
                        },
                        Option::None => {
                            proof {
                                assert(!is_schema_qual(dsp, decl.qual)) by {
                                    if is_schema_qual(dsp, decl.qual) {
                                        let j = choose|j: int|
                                            0 <= j < dsp.len() && is_schema_def((#[trigger] dsp[j]).def) && dsp[j].qual
                                                == decl.qual;
                                        assert(dsp1[j] == dsp[j]);
                                        assert(dsp1[j].qual != dsp1[dsp.len() as int].qual);
                                    }
                                }
                                assert(decl_deps_done(*old(self), *self, decl)) by {
                                    lemma_decls_fields(defs.take(d + 1), pkg_v, e.file, raw_v);
                                }
                                assert forall|j: int| 0 <= j < dsp1.len() implies decl_deps_done(
                                    *old(self),
                                    *self,
                                    #[trigger] dsp1[j],
                                ) by {
                                    if j < dsp.len() {
                                        assert(dsp1[j] == dsp[j]);
                                    }
                                }
                                assert forall|q: Seq<char>|
                                    !is_schema_qual(dsp1, q) implies #[trigger] self.nodes.spec_get(
                                    q,
                                ) == old(self).nodes.spec_get(q) by {
                                    if is_schema_qual(dsp, q) {
                                        let j = choose|j: int|
                                            0 <= j < dsp.len() && is_schema_def((#[trigger] dsp[j]).def) && dsp[j].qual == q;
                                        assert(dsp1[j] == dsp[j]);
                                        assert(is_schema_qual(dsp1, q));
                                    }
                                }
                            }
                        },
                    }
                    proof {
                        lemma_resolve_refs_concat(
                            *old(self),
                            pkg_v,
                            e.file,
                            raw_v,
                            refs_of_defs(defs.take(d as int)),
                            refs_of_fields(fields_v),
                        );
                        assert(refs_of_defs(defs.take(d + 1)) == refs_of_defs(defs.take(d as int))
                            + refs_of_fields(fields_v));
                    }
                },
                Definition::Enum(_) => {
                    proof {
                        assert(dsp1 == dsp.push(dsp1.last()));
                        assert(refs_of_defs(defs.take(d + 1)) == refs_of_defs(defs.take(d as int))
                            + Seq::<SchemaRefV>::empty());
                        assert(refs_of_defs(defs.take(d + 1)) =~= refs_of_defs(
                            defs.take(d as int),
                        ));
                        lemma_resolve_refs_concat(
                            *old(self),
                            pkg_v,
                            e.file,
                            raw_v,
                            refs_of_defs(defs.take(d as int)),
                            Seq::<SchemaRefV>::empty(),
                        );
                        let ghost decl = dsp1.last();
                        assert forall|j: int| 0 <= j < dsp1.len() implies decl_deps_done(
                            *old(self),
                            *self,
                            #[trigger] dsp1[j],
                        ) by {
                            if j < dsp.len() {
                                assert(dsp1[j] == dsp[j]);
                            }
                        }
                        assert forall|q: Seq<char>|
                            !is_schema_qual(dsp1, q) implies #[trigger] self.nodes.spec_get(q)
                            == old(self).nodes.spec_get(q) by {
                            if is_schema_qual(dsp, q) {
                                let j = choose|j: int|
                                    0 <= j < dsp.len() && is_schema_def((#[trigger] dsp[j]).def) && dsp[j].qual == q;
                                assert(dsp1[j] == dsp[j]);
                                assert(is_schema_qual(dsp1, q));
                            }
                        }
                    }
                },
                Definition::Service(_) => {
                    proof {
                        assert(dsp1 == dsp);
                        assert(refs_of_defs(defs.take(d + 1)) =~= refs_of_defs(
                            defs.take(d as int),
                        ));
                    }
                },
            }
            d += 1;
        }
        proof {
            assert(defs.take(n as int) =~= defs);
        }
        Result::Ok(())
    }

    /// Builds a validated type tree from a batch of programs with their
    /// optional file paths: registration, collection under globally unique
    /// qualified names, dependency resolution, and the fatal cycle check,
    /// in that order. Returns the first error the batch produces.
    #[verifier::rlimit(100)]
    #[verifier::loop_isolation(false)]
    pub fn from_programs_with_paths(programs_with_paths: &[(Program, Option<String>)]) -> (r:
        Result<TypeTree, TypeTreeError>)
        ensures
            r matches Ok(t) ==> built_from(t, batch_view(programs_with_paths@)),
            r matches Err(e) ==> build_error_matches(batch_view(programs_with_paths@), e),
    {
        let ghost bv = batch_view(programs_with_paths@);
        let mut tree = TypeTree::new();
        let n = programs_with_paths.len();

        // Registration: stable indices, packages, files and imports.
        proof {
            assert(bv.take(0) =~= Seq::<EntryV>::empty());
            assert forall|f: Seq<char>| #[trigger] tree.file_package(f) is None by {
                crate::collections::lemma_first_index_props(tree.file_to_package.key_seq(), f);
            }
            assert forall|f: Seq<char>| #[trigger] tree.import_edges(f) is None by {
                crate::collections::lemma_first_index_props(tree.import_graph.key_seq(), f);
            }
            assert forall|p: Seq<char>| #[trigger] tree.package_programs(p) is None by {
                crate::collections::lemma_first_index_props(tree.package_to_programs.key_seq(), p);
            }
            assert(tree.import_graph.key_seq() =~= crate::tree::reg_files(bv.take(0)));
        }
        let mut i: usize = 0;
        while i < n
            invariant
                0 <= i <= n,
                n == bv.len(),
                bv == batch_view(programs_with_paths@),
                tree.wf(),
                registered(tree, bv.take(i as int)),
                tree.nodes.spec_len() == 0,
                tree.file_to_types.spec_len() == 0,
            decreases n - i,
        {
            let entry = &programs_with_paths[i];
            let program = entry.0.clone();
            let file_path = clone_opt_string(&entry.1);
            let ghost pre = tree;
            proof {
                assert(bv[i as int].program == entry.0@);
                assert(bv[i as int].file == opt_view(entry.1));
                assert(bv.take(i + 1).drop_last() =~= bv.take(i as int));
                assert(bv.take(i + 1).last() == bv[i as int]);
            }
            tree.register(program, file_path);
            proof {
                let bvp = bv.take(i + 1);
                let e = bv[i as int];
                assert forall|f: Seq<char>| #[trigger] tree.file_package(f)
                    == crate::tree::reg_file_pkg(bvp, f) by {
                    if e.file == Option::Some(f) {
                    } else {
                        assert(tree.file_package(f) == pre.file_package(f));
                    }
                }
                assert forall|f: Seq<char>| #[trigger] tree.import_edges(f)
                    == crate::tree::reg_imports(bvp, f) by {
                    if e.file == Option::Some(f) {
                    } else {
                        assert(tree.import_edges(f) == pre.import_edges(f));
                    }
                }
                assert(tree.import_graph.key_seq() == crate::tree::reg_files(bvp)) by {
                    match e.file {
                        Option::Some(f) => {
                            crate::collections::lemma_first_index_contains(
                                pre.import_graph.key_seq(),
                                f,
                            );
                        },
                        Option::None => {},
                    }
                }
                assert forall|p: Seq<char>| #[trigger] tree.package_programs(p)
                    == if crate::tree::reg_pkg_indices(bvp, p).len() > 0 {
                    Option::Some(crate::tree::reg_pkg_indices(bvp, p))
                } else {
                    Option::<Seq<usize>>::None
                } by {
                    if p == entry_pkg(e) {
                        match pre.package_programs(p) {
                            Option::Some(v) => {
                                assert(v == crate::tree::reg_pkg_indices(bv.take(i as int), p));
                                assert(crate::tree::reg_pkg_indices(bvp, p) =~= v.push(i));
                            },
                            Option::None => {
                                assert(crate::tree::reg_pkg_indices(bv.take(i as int), p).len()
                                    == 0);
                                assert(crate::tree::reg_pkg_indices(bvp, p) =~= seq![i]);
                            },
                        }
                    }
                }
            }
            i += 1;
        }
        proof {
            assert(bv.take(n as int) =~= bv);
        }

        // Collection: one node per schema or enum definition.
        proof {
            assert(decls_of(bv.take(0)) =~= Seq::<DeclV>::empty());
            assert(tree.nodes.key_seq() =~= decl_quals(decls_of(bv.take(0))));
            tree.nodes.lemma_val_len();
            assert forall|f: Seq<char>| #[trigger] tree.file_types(f) == collect_file_types(
                bv.take(0),
                f,
            ) by {
                crate::collections::lemma_first_index_props(tree.file_to_types.key_seq(), f);
            }
        }
        let mut i: usize = 0;
        while i < n
            invariant
                0 <= i <= n,
                n == bv.len(),
                bv == batch_view(programs_with_paths@),
                tree.wf(),
                registered(tree, bv),
                quals_distinct(decls_of(bv.take(i as int))),
                tree.nodes.key_seq() == decl_quals(decls_of(bv.take(i as int))),
                tree.nodes.val_seq().len() == decls_of(bv.take(i as int)).len(),
                forall|j: int|
                    0 <= j < decls_of(bv.take(i as int)).len() ==> node_matches_decl(
                        #[trigger] tree.nodes.val_seq()[j],
                        decls_of(bv.take(i as int))[j],
                    ),
                forall|f: Seq<char>|
                    #[trigger] tree.file_types(f) == collect_file_types(bv.take(i as int), f),
            decreases n - i,
        {
            let entry = &programs_with_paths[i];
            let program = entry.0.clone();
            let file_path = clone_opt_string(&entry.1);
            let ghost pre = tree;
            let ghost e = bv[i as int];
            let ghost dsp = decls_of(bv.take(i as int));
            let ghost dsi = decls_of_entry(e);
            proof {
                assert(bv[i as int].program == entry.0@);
                assert(bv[i as int].file == opt_view(entry.1));
                assert(program@ == e.program);
                assert(opt_view(file_path) == e.file);
                assert(entry_of(program@, opt_view(file_path)) == e);
                assert(bv.take(i + 1).drop_last() =~= bv.take(i as int));
                assert(bv.take(i + 1).last() == e);
                assert(decls_of(bv.take(i + 1)) == dsp + dsi);
            }
            match tree.collect_types_from_program(&program, &file_path) {
                Result::Ok(_) => {
                    proof {
                        assert(registered(tree, bv)) by {
                            assert forall|f: Seq<char>| #[trigger] tree.file_package(f)
                                == crate::tree::reg_file_pkg(bv, f) by {
                                assert(tree.file_package(f) == pre.file_package(f));
                            }
                            assert forall|f: Seq<char>| #[trigger] tree.import_edges(f)
                                == crate::tree::reg_imports(bv, f) by {
                                assert(tree.import_edges(f) == pre.import_edges(f));
                            }
                            assert forall|p: Seq<char>| #[trigger] tree.package_programs(p)
                                == if crate::tree::reg_pkg_indices(bv, p).len() > 0 {
                                Option::Some(crate::tree::reg_pkg_indices(bv, p))
                            } else {
                                Option::<Seq<usize>>::None
                            } by {
                                assert(tree.package_programs(p) == pre.package_programs(p));
                            }
                        }

                        let dsp1 = decls_of(bv.take(i + 1));
                        assert(decl_quals(dsp1) =~= decl_quals(dsp) + decl_quals(dsi));
                        assert(tree.nodes.key_seq() == decl_quals(dsp1));
                        tree.nodes.lemma_val_len();
                        lemma_distinct_extend(dsp, dsi);
                        assert forall|j: int| 0 <= j < dsp1.len() implies node_matches_decl(
                            #[trigger] tree.nodes.val_seq()[j],
                            dsp1[j],
                        ) by {
                            if j < dsp.len() {
                                assert(tree.nodes.val_seq()[j] == pre.nodes.val_seq()[j]);
                                assert(dsp1[j] == dsp[j]);
                            } else {
                                assert(dsp1[j] == dsi[j - dsp.len()]);
                                assert(node_matches_decl(
                                    tree.nodes.val_seq()[pre.nodes.spec_len() + (j - dsp.len())],
                                    dsi[j - dsp.len()],
                                ));
                                pre.nodes.lemma_val_len();
                            }
                        }
                        assert forall|f: Seq<char>| #[trigger] tree.file_types(f)
                            == collect_file_types(bv.take(i + 1), f) by {
                            match e.file {
                                Option::Some(_) => {},
                                Option::None => {
                                    assert(tree.file_types(f) == pre.file_types(f));
                                },
                            }
                        }
                    }
                },
                Result::Err(err) => {
                    proof {
                        let old_keys = decl_quals(dsp);
                        let ci = first_collision(old_keys, dsi);
                        lemma_first_collision_props(old_keys, dsi);
                        lemma_batch_decls_prefix(bv, i as int);
                        lemma_batch_decls_prefix(bv, i + 1);
                        let full = decls_of(bv);
                        let dsp1 = decls_of(bv.take(i + 1));
                        // map the collision into the whole batch
                        assert(forall|k: int|
                            0 <= k < dsp1.len() ==> #[trigger] full[k] == dsp1[k]);
                        assert(forall|k: int| 0 <= k < dsp.len() ==> #[trigger] dsp1[k] == dsp[k]);
                        assert(forall|k: int|
                            0 <= k < dsi.len() ==> #[trigger] dsp1[dsp.len() + k] == dsi[k]);
                        let k2 = dsp.len() + ci;
                        assert(full[k2] == dsi[ci]);
                        if old_keys.contains(dsi[ci].qual) {
                            let k1 = choose|k1: int|
                                0 <= k1 < old_keys.len() && old_keys[k1] == dsi[ci].qual;
                            assert(dsp[k1].qual == dsi[ci].qual);
                            assert(full[k1] == dsp[k1]);
                            assert(full[k1].qual == full[k2].qual && k1 < k2);
                        } else {
                            let j = choose|j: int|
                                0 <= j < decl_quals(dsi.take(ci)).len() && decl_quals(
                                    dsi.take(ci),
                                )[j] == dsi[ci].qual;
                            assert(dsi.take(ci)[j] == dsi[j]);
                            assert(full[dsp.len() + j].qual == full[k2].qual && dsp.len() + j
                                < k2);
                        }
                        assert(!quals_distinct(full));
                    }
                    return Result::Err(err);
                },
            }
            i += 1;
        }
        proof {
            assert(bv.take(n as int) =~= bv);
        }

        // Dependency resolution against the completed node set.
        let ghost ds = decls_of(bv);
        proof {
            assert(bv.take(0) =~= Seq::<EntryV>::empty());
            assert(decls_of(bv.take(0)) =~= Seq::<DeclV>::empty());
        }
        let mut i: usize = 0;
        while i < n
            invariant
                0 <= i <= n,
                n == bv.len(),
                bv == batch_view(programs_with_paths@),
                ds == decls_of(bv),
                tree.wf(),
                registered(tree, bv),
                collected(tree, bv),
                batch_deps_err(tree, bv.take(i as int)) is None,
                forall|j: int|
                    0 <= j < decls_of(bv.take(i as int)).len() ==> match (#[trigger] ds[j]).def {
                        DefinitionV::Schema(s) => (resolve_refs(
                            tree,
                            ds[j].pkg,
                            ds[j].file,
                            ds[j].imports,
                            refs_of_fields(s.fields),
                        ) matches Ok(qs) && tree.nodes.val_seq()[j].dependencies.seq_view()
                            == add_names(Seq::<Seq<char>>::empty(), qs)),
                        _ => tree.nodes.val_seq()[j].dependencies.seq_view() == Seq::<
                            Seq<char>,
                        >::empty(),
                    },
                forall|j: int|
                    decls_of(bv.take(i as int)).len() <= j < ds.len()
                        ==> #[trigger] tree.nodes.val_seq()[j].dependencies.seq_view() == Seq::<
                        Seq<char>,
                    >::empty(),
            decreases n - i,
        {
            let entry = &programs_with_paths[i];
            let program = entry.0.clone();
            let file_path = clone_opt_string(&entry.1);
            let ghost pre = tree;
            let ghost e = bv[i as int];
            let ghost dsp = decls_of(bv.take(i as int));
            let ghost dsi = decls_of_entry(e);
            proof {
                assert(bv[i as int].program == entry.0@);
                assert(bv[i as int].file == opt_view(entry.1));
                assert(entry_of(program@, opt_view(file_path)) == e);
                assert(bv.take(i + 1).drop_last() =~= bv.take(i as int));
                assert(bv.take(i + 1).last() == e);
                assert(decls_of(bv.take(i + 1)) == dsp + dsi);
                lemma_batch_decls_prefix(bv, i as int);
                lemma_batch_decls_prefix(bv, i + 1);
                assert(forall|k: int|
                    0 <= k < dsp.len() + dsi.len() ==> #[trigger] ds[k] == (dsp + dsi)[k]);
                lemma_distinct_parts(dsp, dsi);
                assert(quals_distinct(dsi));
            }
            match tree.build_dependencies_from_program(&program, &file_path) {
                Result::Ok(_) => {
                    proof {
                        assert(registered(tree, bv)) by {
                            assert forall|f: Seq<char>| #[trigger] tree.file_package(f)
                                == crate::tree::reg_file_pkg(bv, f) by {
                                assert(tree.file_package(f) == pre.file_package(f));
                            }
                            assert forall|f: Seq<char>| #[trigger] tree.import_edges(f)
                                == crate::tree::reg_imports(bv, f) by {
                                assert(tree.import_edges(f) == pre.import_edges(f));
                            }
                            assert forall|p: Seq<char>| #[trigger] tree.package_programs(p)
                                == if crate::tree::reg_pkg_indices(bv, p).len() > 0 {
                                Option::Some(crate::tree::reg_pkg_indices(bv, p))
                            } else {
                                Option::<Seq<usize>>::None
                            } by {
                                assert(tree.package_programs(p) == pre.package_programs(p));
                            }
                        }

                        lemma_step_deps_done(pre, tree, bv, i as int);
                    }
                },
                Result::Err(err) => {
                    proof {
                        // the failure is the batch's first dependency error
                        assert(batch_deps_err(pre, bv.take(i + 1)) is Some);
                        lemma_batch_err_extend(pre, bv, i + 1);
                        let bad = batch_deps_err(pre, bv)->Some_0;
                        assert(res_err_matches(bad, err));
                        assert(build_error_matches(bv, err)) by {
                            assert(pre.wf() && registered(pre, bv) && collected(pre, bv));
                            assert(batch_deps_err(pre, bv) == Option::Some(bad));
                        }
                    }
                    return Result::Err(err);
                },
            }
            i += 1;
        }
        proof {
            assert(bv.take(n as int) =~= bv);
            assert(deps_built(tree, bv));
        }

        // Fatal cycle check over the resolved dependency graph.
        match tree.validate_no_cycles() {
            Result::Ok(_) => {
                proof {
                    assert(built_from(tree, bv));
                }
                Result::Ok(tree)
            },
            Result::Err(err) => {
                proof {
                    assert(build_error_matches(bv, err)) by {
                        assert(tree.wf() && registered(tree, bv) && collected(tree, bv));
                        assert(batch_deps_err(tree, bv) is None);
                        assert(deps_built(tree, bv));
                    }
                }
                Result::Err(err)
            },
        }
    }

    /// Builds a validated type tree from programs without file paths.
    #[verifier::loop_isolation(false)]
    pub fn from_programs(programs: &[Program]) -> (r: Result<TypeTree, TypeTreeError>)
        ensures
            r matches Ok(t) ==> built_from(t, batch_of_programs(programs@)),
            r matches Err(e) ==> build_error_matches(batch_of_programs(programs@), e),
    {
        let mut pairs: Vec<(Program, Option<String>)> = Vec::new();
        let mut i: usize = 0;
        while i < programs.len()
            invariant
                0 <= i <= programs@.len(),
                pairs@.len() == i,
                forall|j: int|
                    0 <= j < i ==> (#[trigger] pairs@[j]).0@ == programs@[j]@ && pairs@[j].1
                        is None,
            decreases programs@.len() - i,
        {
            pairs.push((programs[i].clone(), Option::None));
            i += 1;
        }
        proof {
            assert(batch_view(pairs@) =~= batch_of_programs(programs@));
        }
        TypeTree::from_programs_with_paths(pairs.as_slice())
    }
}

/// The batch a bare program list makes: every entry fileless.
pub open spec fn batch_of_programs(ps: Seq<Program>) -> Seq<EntryV> {
    ps.map_values(|p: Program| EntryV { program: p@, file: Option::None })
}

/// One dependency-pass step preserves the batch invariants: the processed
/// prefix grows by the program's declarations.
proof fn lemma_step_deps_done(pre: TypeTree, now: TypeTree, bv: Seq<EntryV>, i: int)
    requires
        0 <= i < bv.len(),
        pre.wf(),
        now.wf(),
        collected(pre, bv),
        ({
            let e = bv[i];
            let ds = decls_of(bv);
            let dsp = decls_of(bv.take(i));
            &&& batch_deps_err(pre, bv.take(i)) is None
            &&& resolve_refs(
                pre,
                entry_pkg(e),
                e.file,
                e.program.imports,
                refs_of_defs(e.program.definitions),
            ) is Ok
            &&& now.nodes.key_seq() == pre.nodes.key_seq()
            &&& (forall|f: Seq<char>| #[trigger] now.file_package(f) == pre.file_package(f))
            &&& (forall|f: Seq<char>| #[trigger] now.import_edges(f) == pre.import_edges(f))
            &&& now.programs == pre.programs
            &&& now.file_to_types == pre.file_to_types
            &&& now.package_to_programs == pre.package_to_programs
            &&& (forall|j: int|
                0 <= j < decls_of_entry(e).len() ==> decl_deps_done(
                    pre,
                    now,
                    #[trigger] decls_of_entry(e)[j],
                ))
            &&& (forall|q: Seq<char>|
                !is_schema_qual(decls_of_entry(e), q) ==> #[trigger] now.nodes.spec_get(q)
                    == pre.nodes.spec_get(q))
            &&& (forall|j: int|
                0 <= j < dsp.len() ==> match (#[trigger] ds[j]).def {
                    DefinitionV::Schema(s) => (resolve_refs(
                        pre,
                        ds[j].pkg,
                        ds[j].file,
                        ds[j].imports,
                        refs_of_fields(s.fields),
                    ) matches Ok(qs) && pre.nodes.val_seq()[j].dependencies.seq_view()
                        == add_names(Seq::<Seq<char>>::empty(), qs)),
                    _ => pre.nodes.val_seq()[j].dependencies.seq_view() == Seq::<
                        Seq<char>,
                    >::empty(),
                })
            &&& (forall|j: int|
                dsp.len() <= j < ds.len()
                    ==> #[trigger] pre.nodes.val_seq()[j].dependencies.seq_view() == Seq::<
                    Seq<char>,
                >::empty())
        }),
    ensures
        collected(now, bv),
        batch_deps_err(now, bv.take(i + 1)) is None,
        ({
            let ds = decls_of(bv);
            let dsp1 = decls_of(bv.take(i + 1));
            &&& (forall|j: int|
                0 <= j < dsp1.len() ==> match (#[trigger] ds[j]).def {
                    DefinitionV::Schema(s) => (resolve_refs(
                        now,
                        ds[j].pkg,
                        ds[j].file,
                        ds[j].imports,
                        refs_of_fields(s.fields),
                    ) matches Ok(qs) && now.nodes.val_seq()[j].dependencies.seq_view()
                        == add_names(Seq::<Seq<char>>::empty(), qs)),
                    _ => now.nodes.val_seq()[j].dependencies.seq_view() == Seq::<
                        Seq<char>,
                    >::empty(),
                })
            &&& (forall|j: int|
                dsp1.len() <= j < ds.len()
                    ==> #[trigger] now.nodes.val_seq()[j].dependencies.seq_view() == Seq::<
                    Seq<char>,
                >::empty())
        }),
{
    let e = bv[i];
    let ds = decls_of(bv);
    let dsp = decls_of(bv.take(i));
    let dsi = decls_of_entry(e);
    let dsp1 = decls_of(bv.take(i + 1));
    assert(bv.take(i + 1).drop_last() =~= bv.take(i));
    assert(bv.take(i + 1).last() == e);
    assert(dsp1 == dsp + dsi);
    lemma_batch_decls_prefix(bv, i);
    lemma_batch_decls_prefix(bv, i + 1);
    assert(forall|k: int| 0 <= k < dsp1.len() ==> #[trigger] ds[k] == dsp1[k]);
    assert(stable_eq(pre, now));
    pre.nodes.lemma_val_len();
    now.nodes.lemma_val_len();

    // positions of this program's declarations within the batch
    assert forall|k: int| 0 <= k < ds.len() implies crate::collections::first_index(
        decl_quals(ds),
        (#[trigger] ds[k]).qual,
    ) == k by {
        assert(decl_quals(ds)[k] == ds[k].qual);
        assert forall|m: int| 0 <= m < k implies decl_quals(ds)[m] != ds[k].qual by {
            assert(ds[m].qual != ds[k].qual);
        }
        crate::collections::lemma_first_index_at(decl_quals(ds), ds[k].qual, k);
    }

    // every untouched name keeps its node value, position-wise
    assert forall|j: int|
        0 <= j < ds.len() && !is_schema_qual(dsi, ds[j].qual) implies #[trigger] now.nodes.val_seq()[j]
        == pre.nodes.val_seq()[j] by {
        assert(now.nodes.spec_get(ds[j].qual) == pre.nodes.spec_get(ds[j].qual));
        assert(crate::collections::first_index(now.nodes.key_seq(), ds[j].qual) == j);
    }

    // collected is preserved: changed nodes keep name, definition and file
    assert forall|j: int| 0 <= j < ds.len() implies ({
        let nd = #[trigger] now.nodes.val_seq()[j];
        nd.qualified_name@ == ds[j].qual && nd.definition@ == ds[j].def && opt_view(nd.file_path)
            == ds[j].file
    }) by {
        if is_schema_qual(dsi, ds[j].qual) {
            let k = choose|k: int|
                0 <= k < dsi.len() && is_schema_def((#[trigger] dsi[k]).def) && dsi[k].qual
                    == ds[j].qual;
            assert(decl_deps_done(pre, now, dsi[k]));
            assert(ds[dsp.len() + k] == dsi[k]);
            assert(dsp.len() + k == j) by {
                assert(ds[dsp.len() + k].qual == ds[j].qual);
                if dsp.len() + k != j {
                    assert(ds[dsp.len() + k].qual != ds[j].qual);
                }
            }
            assert(pre.nodes.spec_contains_key(ds[j].qual)) by {
                crate::collections::lemma_first_index_at(decl_quals(ds), ds[j].qual, j);
            }
            match dsi[k].def {
                DefinitionV::Schema(_) => {
                    assert(now.nodes.spec_get(ds[j].qual) matches Option::Some(n2) && (
                    pre.nodes.spec_get(ds[j].qual) matches Option::Some(n1) && deps_filled(
                        n1,
                        n2,
                        resolve_refs(
                            pre,
                            dsi[k].pkg,
                            dsi[k].file,
                            dsi[k].imports,
                            refs_of_fields(match dsi[k].def {
                                DefinitionV::Schema(s) => s.fields,
                                _ => Seq::empty(),
                            }),
                        )->Ok_0,
                    )));
                    assert(now.nodes.val_seq()[j] == now.nodes.spec_get(ds[j].qual)->Some_0);
                    assert(pre.nodes.val_seq()[j] == pre.nodes.spec_get(ds[j].qual)->Some_0);
                },
                _ => {},
            }
        } else {
            assert(now.nodes.val_seq()[j] == pre.nodes.val_seq()[j]);
        }
    }

    // the processed prefix now includes this program's declarations
    assert forall|j: int| 0 <= j < dsp1.len() implies match (#[trigger] ds[j]).def {
        DefinitionV::Schema(s) => (resolve_refs(
            now,
            ds[j].pkg,
            ds[j].file,
            ds[j].imports,
            refs_of_fields(s.fields),
        ) matches Ok(qs) && now.nodes.val_seq()[j].dependencies.seq_view() == add_names(
            Seq::<Seq<char>>::empty(),
            qs,
        )),
        _ => now.nodes.val_seq()[j].dependencies.seq_view() == Seq::<Seq<char>>::empty(),
    } by {
        match ds[j].def {
            DefinitionV::Schema(s) => {
                lemma_resolve_refs_stable(
                    pre,
                    now,
                    ds[j].pkg,
                    ds[j].file,
                    ds[j].imports,
                    refs_of_fields(s.fields),
                );
                if j < dsp.len() {
                    assert(!is_schema_qual(dsi, ds[j].qual)) by {
                        if is_schema_qual(dsi, ds[j].qual) {
                            let k = choose|k: int|
                                0 <= k < dsi.len() && is_schema_def((#[trigger] dsi[k]).def)
                                    && dsi[k].qual == ds[j].qual;
                            assert(ds[dsp.len() + k].qual == ds[j].qual);
                        }
                    }
                    assert(now.nodes.val_seq()[j] == pre.nodes.val_seq()[j]);
                } else {
                    let k = j - dsp.len();
                    assert(dsi[k] == ds[j]);
                    assert(decl_deps_done(pre, now, dsi[k]));
                    assert(pre.nodes.spec_contains_key(ds[j].qual)) by {
                        crate::collections::lemma_first_index_at(decl_quals(ds), ds[j].qual, j);
                    }
                    assert(now.nodes.val_seq()[j] == now.nodes.spec_get(ds[j].qual)->Some_0);
                    assert(pre.nodes.val_seq()[j] == pre.nodes.spec_get(ds[j].qual)->Some_0);
                    // this program's resolution succeeded, so the declaration's did
                    lemma_prog_ok_decl_ok(pre, e, k);
                }
            },
            _ => {
                if j < dsp.len() {
                    assert(!is_schema_qual(dsi, ds[j].qual)) by {
                        if is_schema_qual(dsi, ds[j].qual) {
                            let k = choose|k: int|
                                0 <= k < dsi.len() && is_schema_def((#[trigger] dsi[k]).def)
                                    && dsi[k].qual == ds[j].qual;
                            assert(ds[dsp.len() + k].qual == ds[j].qual);
                        }
                    }
                    assert(now.nodes.val_seq()[j] == pre.nodes.val_seq()[j]);
                } else {
                    assert(!is_schema_qual(dsi, ds[j].qual)) by {
                        if is_schema_qual(dsi, ds[j].qual) {
                            let k = choose|k: int|
                                0 <= k < dsi.len() && is_schema_def((#[trigger] dsi[k]).def)
                                    && dsi[k].qual == ds[j].qual;
                            assert(ds[dsp.len() + k].qual == ds[j].qual);
                            assert(dsp.len() + k == j) by {
                                if dsp.len() + k != j {
                                    assert(ds[dsp.len() + k].qual != ds[j].qual);
                                }
                            }
                            assert(dsi[k] == ds[j]);
                        }
                    }
                    assert(now.nodes.val_seq()[j] == pre.nodes.val_seq()[j]);
                }
            },
        }
    }

    // names beyond the new prefix are still untouched
    assert forall|j: int|
        dsp1.len() <= j < ds.len() implies #[trigger] now.nodes.val_seq()[j].dependencies.seq_view()
        == Seq::<Seq<char>>::empty() by {
        assert(!is_schema_qual(dsi, ds[j].qual)) by {
            if is_schema_qual(dsi, ds[j].qual) {
                let k = choose|k: int|
                    0 <= k < dsi.len() && is_schema_def((#[trigger] dsi[k]).def) && dsi[k].qual
                        == ds[j].qual;
                assert(ds[dsp.len() + k].qual == ds[j].qual);
                assert(dsp.len() + k < dsp1.len());
            }
        }
        assert(now.nodes.val_seq()[j] == pre.nodes.val_seq()[j]);
    }

    // no error so far, including this program
    assert(batch_deps_err(now, bv.take(i + 1)) is None) by {
        lemma_batch_deps_err_stable(pre, now, bv.take(i + 1));
        lemma_batch_deps_err_stable(pre, now, bv.take(i));
    }

    assert(collected(now, bv)) by {
        assert(quals_distinct(ds));
        assert(now.nodes.key_seq() == decl_quals(ds));
        assert(now.nodes.val_seq().len() == ds.len());
        assert forall|f: Seq<char>| #[trigger] now.file_types(f) == collect_file_types(bv, f) by {
            assert(now.file_types(f) == pre.file_types(f));
            assert(pre.file_types(f) == collect_file_types(bv, f));
        }
    }
}

/// When a whole program resolves, each of its schema declarations does.
proof fn lemma_prog_ok_decl_ok(t: TypeTree, e: EntryV, k: int)
    requires
        0 <= k < decls_of_entry(e).len(),
        resolve_refs(
            t,
            entry_pkg(e),
            e.file,
            e.program.imports,
            refs_of_defs(e.program.definitions),
        ) is Ok,
    ensures
        match decls_of_entry(e)[k].def {
            DefinitionV::Schema(s) => resolve_refs(
                t,
                decls_of_entry(e)[k].pkg,
                decls_of_entry(e)[k].file,
                decls_of_entry(e)[k].imports,
                refs_of_fields(s.fields),
            ) is Ok,
            _ => true,
        },
{
    let dsi = decls_of_entry(e);
    lemma_decls_fields(e.program.definitions, entry_pkg(e), e.file, e.program.imports);
    assert(e.program.definitions.take(e.program.definitions.len() as int)
        =~= e.program.definitions);
    assert(decls_of_defs(
        e.program.definitions.take(e.program.definitions.len() as int),
        entry_pkg(e),
        e.file,
        e.program.imports,
    ) == dsi);
    lemma_decl_from_def(t, e, e.program.definitions.len() as int, k);
    assert(dsi[k].pkg == entry_pkg(e) && dsi[k].file == e.file && dsi[k].imports
        == e.program.imports);
}

/// A schema declaration's reference list sits inside its program's; if the
/// whole list resolves, so does the declaration's slice. Works down the
/// definitions of the prefix `defs.take(d)`.
proof fn lemma_decl_from_def(t: TypeTree, e: EntryV, d: int, k: int)
    requires
        0 <= d <= e.program.definitions.len(),
        0 <= k < decls_of_defs(
            e.program.definitions.take(d),
            entry_pkg(e),
            e.file,
            e.program.imports,
        ).len(),
        resolve_refs(
            t,
            entry_pkg(e),
            e.file,
            e.program.imports,
            refs_of_defs(e.program.definitions.take(d)),
        ) is Ok,
    ensures
        match decls_of_defs(
            e.program.definitions.take(d),
            entry_pkg(e),
            e.file,
            e.program.imports,
        )[k].def {
            DefinitionV::Schema(s) => resolve_refs(
                t,
                entry_pkg(e),
                e.file,
                e.program.imports,
                refs_of_fields(s.fields),
            ) is Ok,
            _ => true,
        },
    decreases d,
{
    let defs = e.program.definitions;
    let pkg = entry_pkg(e);
    let dsd = decls_of_defs(defs.take(d), pkg, e.file, e.program.imports);
    assert(d > 0);
    assert(defs.take(d).drop_last() =~= defs.take(d - 1));
    assert(defs.take(d).last() == defs[d - 1]);
    let prev = decls_of_defs(defs.take(d - 1), pkg, e.file, e.program.imports);
    lemma_resolve_refs_concat(
        t,
        pkg,
        e.file,
        e.program.imports,
        refs_of_defs(defs.take(d - 1)),
        match defs[d - 1] {
            DefinitionV::Schema(s) => refs_of_fields(s.fields),
            _ => Seq::empty(),
        },
    );
    assert(refs_of_defs(defs.take(d)) == refs_of_defs(defs.take(d - 1)) + (match defs[d - 1] {
        DefinitionV::Schema(s) => refs_of_fields(s.fields),
        _ => Seq::<SchemaRefV>::empty(),
    })) by {
        match defs[d - 1] {
            DefinitionV::Schema(_) => {},
            _ => {
                assert(refs_of_defs(defs.take(d - 1)) + Seq::<SchemaRefV>::empty()
                    =~= refs_of_defs(defs.take(d - 1)));
            },
        }
    }
    if k < prev.len() {
        assert(dsd[k] == prev[k]);
        lemma_decl_from_def(t, e, d - 1, k);
    } else {
        assert(k == dsd.len() - 1);
        assert(dsd[k] == dsd.last());
    }
}

} // verus!
