//! Schema-reference resolution: turning a `SchemaRef` written in a field
//! into the qualified name of an existing node, following the search order
//! of the language:
//!
//! 1. a qualified reference `pkg.Name` must name an existing node, and must
//!    be accessible from the referencing file when that file is known;
//! 2. an unqualified reference tries the current package, then the root
//!    package, and finally the packages of the directly imported files: a
//!    single match wins, several distinct matches are ambiguous, none is an
//!    error listing every candidate that was tried.

use vstd::prelude::*;
use vstd::string::StringExecFns;
use crate::ast::{
    Definition, DefinitionV, ImportStmt, Program, ProgramV, SchemaRef, SchemaRefV, TypeWithSpan,
    TypeV, join_dotted, spec_package_string,
};
use crate::collections::NameSet;
use crate::errors::TypeTreeError;
use crate::text::{
    clone_strings, contains_string, copy_str, copy_string, prefix_before_last, qualify, spec_join,
    spec_prefix_before_last, spec_qual, str_eq, string_eq, views_of, join_strings,
};
use crate::tree::{ProgramInfo, TypeTree};

verus! {

/// The outcome of resolving one schema reference.
pub enum ResolutionV {
    /// The reference names this existing node.
    Found(Seq<char>),
    /// No node matches; the payload is the full diagnostic name, with the
    /// attempted candidates for an unqualified reference.
    NotFound(Seq<char>),
    /// The node exists but the referencing file may not use it.
    NotAccessible { qual: Seq<char>, from: Seq<char> },
    /// Several imported packages define the name.
    Ambiguous { name: Seq<char>, candidates: Seq<Seq<char>> },
}

impl TypeTree {
    /// The resolved imports of file `f`, or no edges for an unknown file.
    pub open spec fn edges_or_empty(self, f: Seq<char>) -> Seq<Seq<char>> {
        match self.import_edges(f) {
            Option::Some(es) => es,
            Option::None => Seq::empty(),
        }
    }

    /// Whether the type named `q` may be referenced from `from_file`: its
    /// package is the file's own package, or the package of a directly
    /// imported file.
    pub open spec fn spec_accessible(self, from_file: Seq<char>, q: Seq<char>) -> bool {
        let tp = spec_prefix_before_last(q, '.');
        ||| self.file_package(from_file) == Option::Some(tp)
        ||| exists|k: int|
            0 <= k < self.edges_or_empty(from_file).len() && self.file_package(
                #[trigger] self.edges_or_empty(from_file)[k],
            ) == Option::Some(tp)
    }
}

/// The files an unqualified reference searches: the resolved imports of the
/// referencing file when it is known, else the raw import strings of the
/// referencing program.
pub open spec fn search_files(
    t: TypeTree,
    cur_file: Option<Seq<char>>,
    raw_imports: Seq<Seq<char>>,
) -> Seq<Seq<char>> {
    match cur_file {
        Option::Some(f) => t.edges_or_empty(f),
        Option::None => raw_imports,
    }
}

/// The distinct existing candidates `pkg(file).name` contributed by the
/// searched files, in search order.
pub open spec fn import_candidates(t: TypeTree, files: Seq<Seq<char>>, name: Seq<char>) -> Seq<
    Seq<char>,
>
    decreases files.len(),
{
    if files.len() == 0 {
        Seq::empty()
    } else {
        let prev = import_candidates(t, files.drop_last(), name);
        match t.file_package(files.last()) {
            Option::Some(p) => {
                let q = spec_qual(p, name);
                if t.has_node(q) && !prev.contains(q) {
                    prev.push(q)
                } else {
                    prev
                }
            },
            Option::None => prev,
        }
    }
}

/// Every qualified name the searched files made us try, existing or not,
/// in search order; for the not-found diagnostic.
pub open spec fn import_tried(t: TypeTree, files: Seq<Seq<char>>, name: Seq<char>) -> Seq<
    Seq<char>,
>
    decreases files.len(),
{
    if files.len() == 0 {
        Seq::empty()
    } else {
        let prev = import_tried(t, files.drop_last(), name);
        match t.file_package(files.last()) {
            Option::Some(p) => prev.push(spec_qual(p, name)),
            Option::None => prev,
        }
    }
}

/// Everything an unqualified resolution tried, in order: the local package
/// candidate, the bare root name, then the import candidates.
pub open spec fn tried_quals(
    t: TypeTree,
    cur_pkg: Seq<char>,
    files: Seq<Seq<char>>,
    name: Seq<char>,
) -> Seq<Seq<char>> {
    let locals: Seq<Seq<char>> = if cur_pkg.len() > 0 {
        seq![spec_qual(cur_pkg, name)]
    } else {
        Seq::empty()
    };
    locals + seq![name] + import_tried(t, files, name)
}

/// The diagnostic for an unqualified name that resolves nowhere:
/// `name (tried: a, b, c)`.
pub open spec fn not_found_message(
    t: TypeTree,
    cur_pkg: Seq<char>,
    files: Seq<Seq<char>>,
    name: Seq<char>,
) -> Seq<char> {
    name + " (tried: "@ + spec_join(tried_quals(t, cur_pkg, files, name), ", "@) + ")"@
}

/// Resolution of one schema reference, in the context of the referencing
/// program's package, its file (when known) and its raw import strings.
pub open spec fn spec_resolve(
    t: TypeTree,
    cur_pkg: Seq<char>,
    cur_file: Option<Seq<char>>,
    raw_imports: Seq<Seq<char>>,
    r: SchemaRefV,
) -> ResolutionV {
    match r.package {
        Option::Some(segs) => {
            let q = spec_qual(join_dotted(segs), r.name);
            if !t.has_node(q) {
                ResolutionV::NotFound(q)
            } else {
                match cur_file {
                    Option::Some(f) => if !t.spec_accessible(f, q) {
                        ResolutionV::NotAccessible { qual: q, from: f }
                    } else {
                        ResolutionV::Found(q)
                    },
                    Option::None => ResolutionV::Found(q),
                }
            }
        },
        Option::None => {
            let local = spec_qual(cur_pkg, r.name);
            if cur_pkg.len() > 0 && t.has_node(local) {
                ResolutionV::Found(local)
            } else if t.has_node(r.name) {
                ResolutionV::Found(r.name)
            } else {
                let files = search_files(t, cur_file, raw_imports);
                let cands = import_candidates(t, files, r.name);
                if cands.len() == 1 {
                    ResolutionV::Found(cands[0])
                } else if cands.len() > 1 {
                    ResolutionV::Ambiguous { name: r.name, candidates: cands }
                } else {
                    ResolutionV::NotFound(not_found_message(t, cur_pkg, files, r.name))
                }
            }
        },
    }
}

/// How a resolution outcome other than `Found` reads as an error value.
pub open spec fn res_err_matches(res: ResolutionV, e: TypeTreeError) -> bool {
    match res {
        ResolutionV::Found(_) => false,
        ResolutionV::NotFound(msg) => e matches TypeTreeError::TypeNotFound { name } && name@
            == msg,
        ResolutionV::NotAccessible { qual, from } => e matches TypeTreeError::TypeNotAccessible {
            qualified_name,
            from_file,
        } && qualified_name@ == qual && from_file@ == from,
        ResolutionV::Ambiguous { name: n, candidates: cs } => e
            matches TypeTreeError::AmbiguousTypeReference { name, candidates } && name@ == n
            && views_of(candidates@) == cs,
    }
}

/// How a resolution outcome reads as the result of the resolver.
pub open spec fn resolution_matches(res: ResolutionV, r: Result<String, TypeTreeError>) -> bool {
    match res {
        ResolutionV::Found(q) => r matches Result::Ok(s) && s@ == q,
        _ => r matches Result::Err(e) && res_err_matches(res, e),
    }
}

/// The name a definition declares.
pub open spec fn name_of_def(d: DefinitionV) -> Seq<char> {
    match d {
        DefinitionV::Schema(s) => s.name,
        DefinitionV::Enum(e) => e.name,
        DefinitionV::Service(n) => n,
    }
}

/// The names of a program's definitions, in order.
pub open spec fn def_names(ds: Seq<DefinitionV>) -> Seq<Seq<char>> {
    ds.map_values(|d: DefinitionV| name_of_def(d))
}

/// Program identity for joining a program value back to its registration:
/// the declared package together with the names of the definitions, in
/// order. Spans and field details do not participate. Under the global
/// uniqueness of qualified names, any program declaring at least one type
/// is identified uniquely.
pub open spec fn same_identity(a: ProgramV, b: ProgramV) -> bool {
    spec_package_string(a) == spec_package_string(b) && def_names(a.definitions) == def_names(
        b.definitions,
    )
}

/// Whether some program of `infos` matches `p`'s identity.
pub open spec fn prog_found(infos: Seq<ProgramInfo>, p: ProgramV) -> bool
    decreases infos.len(),
{
    if infos.len() == 0 {
        false
    } else {
        prog_found(infos.drop_last(), p) || same_identity(infos.last().program@, p)
    }
}

/// The file of the first registered program with the same identity as `p`,
/// when that program carries one.
pub open spec fn prog_file(infos: Seq<ProgramInfo>, p: ProgramV) -> Option<Seq<char>>
    decreases infos.len(),
{
    if infos.len() == 0 {
        Option::None
    } else if prog_found(infos.drop_last(), p) {
        prog_file(infos.drop_last(), p)
    } else if same_identity(infos.last().program@, p) {
        match infos.last().file_path {
            Option::Some(f) => Option::Some(f@),
            Option::None => Option::None,
        }
    } else {
        Option::None
    }
}

/// The name a definition declares.
pub fn definition_name(d: &Definition) -> (r: &String)
    ensures
        r@ == name_of_def(d@),
{
    match d {
        Definition::Schema(s) => &s.name,
        Definition::Enum(e) => &e.name,
        Definition::Service(s) => &s.name,
    }
}

/// Whether two programs have the same identity: the same package string
/// and the same definition names, in order.
pub fn same_program_identity(a: &Program, b: &Program) -> (r: bool)
    ensures
        r == same_identity(a@, b@),
{
    let pa = a.package_string();
    let pb = b.package_string();
    if !string_eq(&pa, &pb) {
        return false;
    }
    if a.definitions.len() != b.definitions.len() {
        proof {
            assert(def_names(a@.definitions).len() != def_names(b@.definitions).len());
        }
        return false;
    }
    let n = a.definitions.len();
    let mut i: usize = 0;
    while i < n
        invariant
            0 <= i <= n,
            n == a.definitions@.len(),
            n == b.definitions@.len(),
            forall|j: int|
                0 <= j < i ==> def_names(a@.definitions)[j] == def_names(b@.definitions)[j],
        decreases n - i,
    {
        if !str_eq(definition_name(&a.definitions[i]).as_str(), definition_name(
            &b.definitions[i],
        ).as_str()) {
            proof {
                assert(def_names(a@.definitions)[i as int] != def_names(b@.definitions)[i as int]);
            }
            return false;
        }
        i += 1;
    }
    proof {
        assert(def_names(a@.definitions) =~= def_names(b@.definitions));
    }
    true
}

impl TypeTree {
    /// The file of the first registered program with the same identity as
    /// `program`, when it carries one.
    pub(crate) fn find_file_for_program(&self, program: &Program) -> (r: Option<String>)
        ensures
            match r {
                Option::Some(f) => prog_file(self.programs@, program@) == Option::Some(f@),
                Option::None => prog_file(self.programs@, program@) is None,
            },
    {
        let n = self.programs.len();
        let mut i: usize = 0;
        while i < n
            invariant
                0 <= i <= n,
                n == self.programs@.len(),
                !prog_found(self.programs@.take(i as int), program@),
            decreases n - i,
        {
            proof {
                assert(self.programs@.take(i + 1).drop_last() =~= self.programs@.take(i as int));
                assert(self.programs@.take(i + 1).last() == self.programs@[i as int]);
            }
            if same_program_identity(&self.programs[i].program, program) {
                proof {
                    lemma_prog_file_extend(self.programs@, program@, i as int);
                }
                match &self.programs[i].file_path {
                    Option::Some(f) => {
                        return Option::Some(copy_string(f));
                    },
                    Option::None => {
                        return Option::None;
                    },
                }
            }
            i += 1;
        }
        proof {
            assert(self.programs@.take(n as int) =~= self.programs@);
            lemma_prog_file_not_found(self.programs@, program@);
        }
        Option::None
    }

    /// Whether the type named `qualified_type_name` may be referenced from
    /// `from_file`: same package, or the package of a direct import.
    #[verifier::loop_isolation(false)]
    pub fn is_type_accessible(&self, from_file: &str, qualified_type_name: &str) -> (r: bool)
        ensures
            r == self.spec_accessible(from_file@, qualified_type_name@),
    {
        let type_package = prefix_before_last(qualified_type_name, '.');

        match self.file_to_package.get(from_file) {
            Option::Some(p) => {
                if string_eq(p, &type_package) {
                    return true;
                }
            },
            Option::None => {},
        }

        match self.import_graph.get(from_file) {
            Option::Some(imported) => {
                let ghost edges = self.edges_or_empty(from_file@);
                let n = imported.len();
                let mut i: usize = 0;
                while i < n
                    invariant
                        0 <= i <= n,
                        n == imported@.len(),
                        edges == views_of(imported@),
                        forall|k: int|
                            0 <= k < i ==> self.file_package(#[trigger] edges[k]) != Option::Some(
                                type_package@,
                            ),
                        self.file_package(from_file@) != Option::Some(type_package@),
                    decreases n - i,
                {
                    match self.file_to_package.get(imported[i].as_str()) {
                        Option::Some(p) => {
                            if string_eq(p, &type_package) {
                                proof {
                                    assert(edges[i as int] == imported@[i as int]@);
                                    assert(self.file_to_package.spec_get(imported@[i as int]@)
                                        == Option::Some(*p));
                                    assert(p@ == type_package@);
                                    assert(self.file_package(imported@[i as int]@)
                                        == Option::Some(type_package@));
                                    assert(self.file_package(
                                        self.edges_or_empty(from_file@)[i as int],
                                    ) == Option::Some(type_package@));
                                }
                                return true;
                            }
                        },
                        Option::None => {},
                    }
                    i += 1;
                }
            },
            Option::None => {},
        }
        false
    }

    /// Resolves one schema reference in an explicit context: the current
    /// package, the current file when known, and the raw import strings of
    /// the referencing program.
    #[verifier::loop_isolation(false)]
    pub(crate) fn resolve_ref_in(
        &self,
        schema_ref: &SchemaRef,
        current_package: &String,
        current_file: &Option<String>,
        raw_imports: &Vec<ImportStmt>,
    ) -> (r: Result<String, TypeTreeError>)
        ensures
            resolution_matches(
                spec_resolve(
                    *self,
                    current_package@,
                    match *current_file {
                        Option::Some(f) => Option::Some(f@),
                        Option::None => Option::None,
                    },
                    raw_imports@.map_values(|s: ImportStmt| s@),
                    schema_ref@,
                ),
                r,
            ),
    {
        let ghost cur_file_v: Option<Seq<char>> = match current_file {
            Option::Some(f) => Option::Some(f@),
            Option::None => Option::None,
        };
        let ghost raw_v = raw_imports@.map_values(|s: ImportStmt| s@);
        match &schema_ref.package {
            Option::Some(package_path) => {
                let pkg_str = package_path.to_string();
                let qualified = qualify(pkg_str.as_str(), schema_ref.name.as_str());
                if !self.nodes.contains_key(qualified.as_str()) {
                    return Result::Err(TypeTreeError::TypeNotFound { name: qualified });
                }
                match current_file {
                    Option::Some(f) => {
                        if !self.is_type_accessible(f.as_str(), qualified.as_str()) {
                            return Result::Err(
                                TypeTreeError::TypeNotAccessible {
                                    qualified_name: qualified,
                                    from_file: copy_string(f),
                                },
                            );
                        }
                        Result::Ok(qualified)
                    },
                    Option::None => Result::Ok(qualified),
                }
            },
            Option::None => {
                if current_package.as_str().unicode_len() > 0 {
                    let local = qualify(current_package.as_str(), schema_ref.name.as_str());
                    if self.nodes.contains_key(local.as_str()) {
                        return Result::Ok(local);
                    }
                }
                if self.nodes.contains_key(schema_ref.name.as_str()) {
                    return Result::Ok(copy_string(&schema_ref.name));
                }

                // The files whose packages the reference may come from.
                let files: Vec<String> = match current_file {
                    Option::Some(f) => match self.import_graph.get(f.as_str()) {
                        Option::Some(v) => clone_strings(v),
                        Option::None => Vec::new(),
                    },
                    Option::None => {
                        let mut raw: Vec<String> = Vec::new();
                        let mut i: usize = 0;
                        while i < raw_imports.len()
                            invariant
                                0 <= i <= raw_imports@.len(),
                                raw@.len() == i,
                                forall|j: int| 0 <= j < i ==> raw@[j]@ == raw_imports@[j]@,
                            decreases raw_imports@.len() - i,
                        {
                            raw.push(copy_string(&raw_imports[i].path));
                            i += 1;
                        }
                        raw
                    },
                };
                let ghost files_v = search_files(*self, cur_file_v, raw_v);
                proof {
                    assert(views_of(files@) =~= files_v);
                }

                // Collect the distinct existing candidates, in import order.
                let mut candidates: Vec<String> = Vec::new();
                let n = files.len();
                let mut i: usize = 0;
                while i < n
                    invariant
                        0 <= i <= n,
                        n == files@.len(),
                        views_of(files@) == files_v,
                        views_of(candidates@) == import_candidates(
                            *self,
                            files_v.take(i as int),
                            schema_ref@.name,
                        ),
                    decreases n - i,
                {
                    proof {
                        assert(files_v.take(i + 1).drop_last() =~= files_v.take(i as int));
                        assert(files_v.take(i + 1).last() == files_v[i as int]);
                        assert(files_v[i as int] == files@[i as int]@);
                    }
                    match self.file_to_package.get(files[i].as_str()) {
                        Option::Some(p) => {
                            let q = qualify(p.as_str(), schema_ref.name.as_str());
                            if self.nodes.contains_key(q.as_str()) && !contains_string(
                                &candidates,
                                q.as_str(),
                            ) {
                                candidates.push(q);
                                proof {
                                    assert(views_of(candidates@) =~= import_candidates(
                                        *self,
                                        files_v.take(i + 1),
                                        schema_ref@.name,
                                    ));
                                }
                            }
                        },
                        Option::None => {},
                    }
                    i += 1;
                }
                proof {
                    assert(files_v.take(n as int) =~= files_v);
                }

                if candidates.len() == 1 {
                    return Result::Ok(copy_string(&candidates[0]));
                }
                if candidates.len() > 1 {
                    return Result::Err(
                        TypeTreeError::AmbiguousTypeReference {
                            name: copy_string(&schema_ref.name),
                            candidates,
                        },
                    );
                }

                // Nothing matched: report everything that was tried.
                let mut tried: Vec<String> = Vec::new();
                if current_package.as_str().unicode_len() > 0 {
                    tried.push(qualify(current_package.as_str(), schema_ref.name.as_str()));
                }
                tried.push(copy_string(&schema_ref.name));
                let ghost head = tried@;

                let mut tail: Vec<String> = Vec::new();
                proof {
                    assert(views_of(tail@) =~= import_tried(
                        *self,
                        files_v.take(0),
                        schema_ref@.name,
                    ));
                }
                let mut i: usize = 0;
                while i < n
                    invariant
                        0 <= i <= n,
                        views_of(tail@) == import_tried(
                            *self,
                            files_v.take(i as int),
                            schema_ref@.name,
                        ),
                    decreases n - i,
                {
                    proof {
                        assert(files_v.take(i + 1).drop_last() =~= files_v.take(i as int));
                        assert(files_v.take(i + 1).last() == files_v[i as int]);
                        assert(files_v[i as int] == files@[i as int]@);
                    }
                    match self.file_to_package.get(files[i].as_str()) {
                        Option::Some(p) => {
                            let q = qualify(p.as_str(), schema_ref.name.as_str());
                            let ghost qv = q@;
                            let ghost pre = tail@;
                            tail.push(q);
                            proof {
                                assert(self.file_package(files_v[i as int]) == Option::Some(p@));
                                assert(views_of(tail@) =~= views_of(pre).push(qv));
                                assert(views_of(tail@) =~= import_tried(
                                    *self,
                                    files_v.take(i + 1),
                                    schema_ref@.name,
                                ));
                            }
                        },
                        Option::None => {
                            proof {
                                assert(self.file_package(files_v[i as int]) is None);
                                assert(views_of(tail@) =~= import_tried(
                                    *self,
                                    files_v.take(i + 1),
                                    schema_ref@.name,
                                ));
                            }
                        },
                    }
                    i += 1;
                }
                let ghost head_tail = tail@;
                tried.append(&mut tail);
                proof {
                    assert(files_v.take(n as int) =~= files_v);
                    assert(views_of(tried@) =~= views_of(head) + views_of(head_tail));
                    assert(views_of(tried@) =~= tried_quals(
                        *self,
                        current_package@,
                        files_v,
                        schema_ref@.name,
                    ));
                }
                let mut msg = copy_string(&schema_ref.name);
                msg.append(" (tried: ");
                let joined = join_strings(&tried, ", ");
                msg.append(joined.as_str());
                msg.append(")");
                Result::Err(TypeTreeError::TypeNotFound { name: msg })
            },
        }
    }

    /// Resolves a schema reference in the context of the program that wrote
    /// it. The program's file, found by identity among the registered
    /// programs, decides which imports are searched and whether
    /// accessibility is checked.
    pub fn resolve_schema_reference(&self, schema_ref: &SchemaRef, current_program: &Program) -> (r:
        Result<String, TypeTreeError>)
        ensures
            resolution_matches(
                spec_resolve(
                    *self,
                    spec_package_string(current_program@),
                    prog_file(self.programs@, current_program@),
                    current_program@.imports,
                    schema_ref@,
                ),
                r,
            ),
    {
        let current_package = current_program.package_string();
        let current_file = self.find_file_for_program(current_program);
        proof {
            assert(current_program@.imports =~= current_program.imports@.map_values(
                |s: ImportStmt| s@,
            ));
        }
        self.resolve_ref_in(schema_ref, &current_package, &current_file, &current_program.imports)
    }
}

/// The first identity match decides `prog_file`, whatever follows it.
proof fn lemma_prog_file_extend(infos: Seq<ProgramInfo>, p: ProgramV, i: int)
    requires
        0 <= i < infos.len(),
        !prog_found(infos.take(i), p),
        same_identity(infos[i].program@, p),
    ensures
        prog_file(infos, p) == match infos[i].file_path {
            Option::Some(f) => Option::Some(f@),
            Option::None => Option::<Seq<char>>::None,
        },
    decreases infos.len(),
{
    if infos.len() == i + 1 {
        assert(infos.take(i) =~= infos.drop_last());
    } else {
        assert(infos.drop_last().take(i) =~= infos.take(i));
        assert(infos.drop_last()[i] == infos[i]);
        lemma_prog_file_extend(infos.drop_last(), p, i);
        lemma_prog_found_at(infos.drop_last(), p, i);
    }
}

/// Identity matched at index `i` implies it is found in the whole list.
proof fn lemma_prog_found_at(infos: Seq<ProgramInfo>, p: ProgramV, i: int)
    requires
        0 <= i < infos.len(),
        same_identity(infos[i].program@, p),
    ensures
        prog_found(infos, p),
    decreases infos.len(),
{
    if i == infos.len() - 1 {
    } else {
        assert(infos.drop_last()[i] == infos[i]);
        lemma_prog_found_at(infos.drop_last(), p, i);
    }
}

/// When no program matches the identity, no file is found.
proof fn lemma_prog_file_not_found(infos: Seq<ProgramInfo>, p: ProgramV)
    requires
        !prog_found(infos, p),
    ensures
        prog_file(infos, p) is None,
{
}

} // verus!
