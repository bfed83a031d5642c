//! The type tree: every ingested program, the file-to-package and import
//! maps derived from the batch, and one node per collected schema or enum
//! definition, keyed by its globally unique qualified name.

use vstd::prelude::*;
use vstd::string::StrSliceExecFns;
use crate::ast::{Definition, EnumDef, Program, ProgramV, SchemaDef, Span, spec_package_string};
use crate::collections::{NameMap, NameSet};
use crate::errors::TypeTreeError;
use crate::text::{
    copy_str, copy_string, prefix_before_last, resolve_import, spec_prefix_before_last,
    spec_resolve_import, string_eq, views_of,
};
use crate::ast::DefinitionV;

verus! {

/// A schema or enum definition owned by a type node.
#[derive(Debug)]
pub enum TypeDefinition {
    Schema(SchemaDef),
    Enum(EnumDef),
}

impl View for TypeDefinition {
    type V = DefinitionV;

    open spec fn view(&self) -> DefinitionV {
        match *self {
            TypeDefinition::Schema(s) => DefinitionV::Schema(s@),
            TypeDefinition::Enum(e) => DefinitionV::Enum(e@),
        }
    }
}

/// One vertex of the type graph: a definition under its qualified name,
/// with the resolved outgoing dependency edges.
#[derive(Debug)]
pub struct TypeNode {
    /// The globally unique `package.Name` identity of this type.
    pub qualified_name: String,
    /// The schema or enum definition itself.
    pub definition: TypeDefinition,
    /// Qualified names this type depends on; empty until the dependency
    /// resolution pass fills it, and always empty for enums.
    pub dependencies: NameSet,
    /// Where the definition was written, for diagnostics.
    pub span: Span,
    /// The file that defines this type, when the batch supplied one.
    pub file_path: Option<String>,
}

/// One ingested program with its file identity.
#[derive(Debug)]
pub struct ProgramInfo {
    /// The program itself.
    pub program: Program,
    /// The file path the program was loaded from, if any.
    pub file_path: Option<String>,
    /// The package the program declares; the empty string is the root.
    pub package_name: Option<String>,
}

/// A consistent graph of fully qualified type definitions built from a
/// batch of programs, plus the import graph over their files.
pub struct TypeTree {
    /// Map from qualified type name to its node.
    pub nodes: NameMap<TypeNode>,
    /// Map from file path to the package that file declares.
    pub file_to_package: NameMap<String>,
    /// Map from package name to the indices of the programs declaring it.
    pub package_to_programs: NameMap<Vec<usize>>,
    /// All ingested programs, in ingestion order.
    pub programs: Vec<ProgramInfo>,
    /// Map from file path to its resolved imports, in statement order.
    pub import_graph: NameMap<Vec<String>>,
    /// Map from file path to the qualified names it defines, in order.
    pub file_to_types: NameMap<Vec<String>>,
}

/// The view of one batch entry: a program and its optional file path.
pub struct EntryV {
    pub program: ProgramV,
    pub file: Option<Seq<char>>,
}

/// The view of an input batch.
pub open spec fn batch_view(b: Seq<(Program, Option<String>)>) -> Seq<EntryV> {
    b.map_values(
        |e: (Program, Option<String>)|
            EntryV {
                program: e.0@,
                file: match e.1 {
                    Option::Some(f) => Option::Some(f@),
                    Option::None => Option::None,
                },
            },
    )
}

/// The package string an entry declares.
pub open spec fn entry_pkg(e: EntryV) -> Seq<char> {
    spec_package_string(e.program)
}

/// The entry's imports, each resolved against its file.
pub open spec fn resolved_imports(file: Seq<char>, imports: Seq<Seq<char>>) -> Seq<Seq<char>> {
    imports.map_values(|imp: Seq<char>| spec_resolve_import(file, imp))
}

/// The package registered for file `f` after ingesting `b`: that of the
/// last entry carrying `f`.
pub open spec fn reg_file_pkg(b: Seq<EntryV>, f: Seq<char>) -> Option<Seq<char>>
    decreases b.len(),
{
    if b.len() == 0 {
        Option::None
    } else if b.last().file == Option::Some(f) {
        Option::Some(entry_pkg(b.last()))
    } else {
        reg_file_pkg(b.drop_last(), f)
    }
}

/// The resolved import list registered for file `f` after ingesting `b`.
pub open spec fn reg_imports(b: Seq<EntryV>, f: Seq<char>) -> Option<Seq<Seq<char>>>
    decreases b.len(),
{
    if b.len() == 0 {
        Option::None
    } else if b.last().file == Option::Some(f) {
        Option::Some(resolved_imports(f, b.last().program.imports))
    } else {
        reg_imports(b.drop_last(), f)
    }
}

/// The distinct file paths of `b`, in first-appearance order.
pub open spec fn reg_files(b: Seq<EntryV>) -> Seq<Seq<char>>
    decreases b.len(),
{
    if b.len() == 0 {
        Seq::empty()
    } else {
        let prev = reg_files(b.drop_last());
        match b.last().file {
            Option::Some(f) => if prev.contains(f) {
                prev
            } else {
                prev.push(f)
            },
            Option::None => prev,
        }
    }
}

/// The programs of `infos` that carry a file path, each paired with it,
/// in ingestion order.
pub open spec fn with_paths(infos: Seq<ProgramInfo>) -> Seq<(Seq<char>, ProgramInfo)>
    decreases infos.len(),
{
    if infos.len() == 0 {
        Seq::empty()
    } else {
        let prev = with_paths(infos.drop_last());
        match infos.last().file_path {
            Option::Some(f) => prev.push((f@, infos.last())),
            Option::None => prev,
        }
    }
}

/// The indices of the entries of `b` that declare package `p`, ascending.
pub open spec fn reg_pkg_indices(b: Seq<EntryV>, p: Seq<char>) -> Seq<usize>
    decreases b.len(),
{
    if b.len() == 0 {
        Seq::empty()
    } else {
        let prev = reg_pkg_indices(b.drop_last(), p);
        if entry_pkg(b.last()) == p {
            prev.push((b.len() - 1) as usize)
        } else {
            prev
        }
    }
}

impl TypeTree {
    /// The package declared by file `f`, if `f` was ingested.
    pub open spec fn file_package(self, f: Seq<char>) -> Option<Seq<char>> {
        match self.file_to_package.spec_get(f) {
            Option::Some(p) => Option::Some(p@),
            Option::None => Option::None,
        }
    }

    /// The resolved imports of file `f`, if `f` was ingested.
    pub open spec fn import_edges(self, f: Seq<char>) -> Option<Seq<Seq<char>>> {
        match self.import_graph.spec_get(f) {
            Option::Some(v) => Option::Some(views_of(v@)),
            Option::None => Option::None,
        }
    }

    /// The qualified names defined in file `f`, if `f` was ingested.
    pub open spec fn file_types(self, f: Seq<char>) -> Option<Seq<Seq<char>>> {
        match self.file_to_types.spec_get(f) {
            Option::Some(v) => Option::Some(views_of(v@)),
            Option::None => Option::None,
        }
    }

    /// The program indices registered for package `p`, if any.
    pub open spec fn package_programs(self, p: Seq<char>) -> Option<Seq<usize>> {
        match self.package_to_programs.spec_get(p) {
            Option::Some(v) => Option::Some(v@),
            Option::None => Option::None,
        }
    }

    /// Whether a node with qualified name `q` exists.
    pub open spec fn has_node(self, q: Seq<char>) -> bool {
        self.nodes.spec_contains_key(q)
    }

    /// The dependency edges of node `q`, if it exists.
    pub open spec fn node_deps(self, q: Seq<char>) -> Option<Seq<Seq<char>>> {
        match self.nodes.spec_get(q) {
            Option::Some(n) => Option::Some(n.dependencies.seq_view()),
            Option::None => Option::None,
        }
    }

    /// Well-formedness: all maps have distinct keys, every node is keyed by
    /// its own qualified name and its dependency edges point at existing
    /// nodes, the import graph and the file-to-package map know exactly the
    /// same files, and program indices are in range.
    pub open spec fn wf(self) -> bool {
        &&& self.nodes.wf()
        &&& self.file_to_package.wf()
        &&& self.package_to_programs.wf()
        &&& self.import_graph.wf()
        &&& self.file_to_types.wf()
        &&& forall|i: int|
            0 <= i < self.nodes.spec_len() ==> (#[trigger] self.nodes.val_seq()[i]).qualified_name@
                == self.nodes.key_seq()[i]
        &&& forall|i: int|
            0 <= i < self.nodes.spec_len() ==> (#[trigger] self.nodes.val_seq()[i]).dependencies.wf()
        &&& forall|i: int, d: Seq<char>|
            0 <= i < self.nodes.spec_len() && #[trigger] self.nodes.val_seq()[i].dependencies.spec_contains(
                d,
            ) ==> self.nodes.spec_contains_key(d)
        &&& forall|f: Seq<char>|
            #[trigger] self.import_graph.spec_contains_key(f)
                == self.file_to_package.spec_contains_key(f)
        &&& forall|i: int, j: int|
            0 <= i < self.package_to_programs.spec_len() && 0 <= j
                < self.package_to_programs.val_seq()[i]@.len()
                ==> #[trigger] self.package_to_programs.val_seq()[i]@[j] < self.programs@.len()
    }

    /// Creates a new empty type tree.
    pub fn new() -> (r: TypeTree)
        ensures
            r.nodes.spec_len() == 0,
            r.file_to_package.spec_len() == 0,
            r.package_to_programs.spec_len() == 0,
            r.programs@.len() == 0,
            r.import_graph.spec_len() == 0,
            r.file_to_types.spec_len() == 0,
            r.wf(),
    {
        let r = TypeTree {
            nodes: NameMap::new(),
            file_to_package: NameMap::new(),
            package_to_programs: NameMap::new(),
            programs: Vec::new(),
            import_graph: NameMap::new(),
            file_to_types: NameMap::new(),
        };
        proof {
            crate::collections::lemma_first_index_absent(r.nodes.key_seq(), arbitrary());
        }
        r
    }

    /// Registers one program under an explicit file path: stores it with a
    /// stable index, records its declared package for the file, and resolves
    /// its import statements into the import graph. Types are not collected
    /// here; registration precedes the two resolution passes.
    pub fn add_program_with_path(&mut self, program: Program, file_path: String) -> (r: Result<
        (),
        TypeTreeError,
    >)
        requires
            old(self).wf(),
        ensures
            r is Ok,
            final(self).wf(),
            final(self).nodes == old(self).nodes,
            final(self).file_to_types == old(self).file_to_types,
            final(self).programs@.len() == old(self).programs@.len() + 1,
            forall|i: int|
                0 <= i < old(self).programs@.len() ==> final(self).programs@[i] == old(self).programs@[i],
            final(self).programs@.last().program@ == program@,
            final(self).programs@.last().file_path matches Option::Some(f) && f@ == file_path@,
            final(self).programs@.last().package_name matches Option::Some(p) && p@
                == spec_package_string(program@),
            forall|f: Seq<char>|
                #[trigger] final(self).file_package(f) == if f == file_path@ {
                    Option::Some(spec_package_string(program@))
                } else {
                    old(self).file_package(f)
                },
            forall|f: Seq<char>|
                #[trigger] final(self).import_edges(f) == if f == file_path@ {
                    Option::Some(resolved_imports(file_path@, program@.imports))
                } else {
                    old(self).import_edges(f)
                },
            final(self).import_graph.key_seq() == if old(self).import_graph.spec_contains_key(
                file_path@,
            ) {
                old(self).import_graph.key_seq()
            } else {
                old(self).import_graph.key_seq().push(file_path@)
            },
            forall|p: Seq<char>|
                #[trigger] final(self).package_programs(p) == if p == spec_package_string(
                    program@,
                ) {
                    Option::Some(
                        match old(self).package_programs(p) {
                            Option::Some(v) => v.push(old(self).programs@.len() as usize),
                            Option::None => seq![old(self).programs@.len() as usize],
                        },
                    )
                } else {
                    old(self).package_programs(p)
                },
    {
        let ghost pv = program@;
        let package_name = program.package_string();
        let program_index = self.programs.len();

        // Resolve the program's imports against this file.
        let mut imported_files: Vec<String> = Vec::new();
        let mut i: usize = 0;
        while i < program.imports.len()
            invariant
                0 <= i <= program.imports@.len(),
                program@ == pv,
                imported_files@.len() == i,
                forall|j: int|
                    0 <= j < i ==> imported_files@[j]@ == spec_resolve_import(
                        file_path@,
                        pv.imports[j],
                    ),
            decreases program.imports@.len() - i,
        {
            let resolved = resolve_import(file_path.as_str(), program.imports[i].path.as_str());
            proof {
                assert(pv.imports[i as int] == program.imports@[i as int]@);
            }
            imported_files.push(resolved);
            i += 1;
        }
        proof {
            assert(views_of(imported_files@) =~= resolved_imports(file_path@, pv.imports));
        }

        // Extend the list of programs declaring this package.
        let mut indices: Vec<usize> = match self.package_to_programs.get(package_name.as_str()) {
            Option::Some(v) => clone_usizes(v),
            Option::None => Vec::new(),
        };
        indices.push(program_index);
        let ghost idxs = indices@;
        proof {
            crate::collections::lemma_first_index_props(
                self.package_to_programs.key_seq(),
                package_name@,
            );
            assert forall|j: int| 0 <= j < idxs.len() implies idxs[j] <= old(self).programs@.len() by {
                if j < idxs.len() - 1 {
                    let fi = crate::collections::first_index(
                        self.package_to_programs.key_seq(),
                        package_name@,
                    );
                    assert(self.package_to_programs.val_seq()[fi]@[j] < self.programs@.len());
                }
            }
        }

        self.programs.push(
            ProgramInfo {
                program,
                file_path: Option::Some(copy_string(&file_path)),
                package_name: Option::Some(copy_string(&package_name)),
            },
        );
        self.file_to_package.insert(copy_string(&file_path), copy_string(&package_name));
        self.package_to_programs.insert(package_name, indices);
        self.import_graph.insert(file_path, imported_files);

        proof {
            assert forall|i: int, j: int|
                0 <= i < self.package_to_programs.spec_len() && 0 <= j
                    < self.package_to_programs.val_seq()[i]@.len()
                    implies #[trigger] self.package_to_programs.val_seq()[i]@[j]
                < self.programs@.len() by {
                let old_map = old(self).package_to_programs;
                crate::collections::lemma_first_index_props(old_map.key_seq(), package_name@);
                if old_map.spec_contains_key(package_name@) {
                    let fi = crate::collections::first_index(old_map.key_seq(), package_name@);
                    if i == fi {
                        assert(self.package_to_programs.val_seq()[i]@ == idxs);
                    } else {
                        assert(self.package_to_programs.val_seq()[i] == old_map.val_seq()[i]);
                        assert(old_map.val_seq()[i]@[j] < old(self).programs@.len());
                    }
                } else {
                    if i == old_map.spec_len() {
                        assert(self.package_to_programs.val_seq()[i]@ == idxs);
                    } else {
                        assert(self.package_to_programs.val_seq()[i] == old_map.val_seq()[i]);
                        assert(old_map.val_seq()[i]@[j] < old(self).programs@.len());
                    }
                }
            }
            assert forall|p: Seq<char>|
                #[trigger] self.package_programs(p) == if p == spec_package_string(pv) {
                    Option::Some(
                        match old(self).package_programs(p) {
                            Option::Some(v) => v.push(old(self).programs@.len() as usize),
                            Option::None => seq![old(self).programs@.len() as usize],
                        },
                    )
                } else {
                    old(self).package_programs(p)
                } by {
                if p == spec_package_string(pv) {
                    match old(self).package_programs(p) {
                        Option::Some(v) => {
                            assert(self.package_programs(p) == Option::Some(v.push(program_index)));
                        },
                        Option::None => {
                            assert(self.package_programs(p) == Option::Some(seq![program_index]));
                        },
                    }
                }
            }
        }
        Ok(())
    }

    /// The resolved form of one import string, relative to the importing
    /// file, by pure string arithmetic (see `spec_resolve_import`).
    pub fn resolve_import_path(&self, importing_file: &str, import_path: &str) -> (r: String)
        ensures
            r@ == spec_resolve_import(importing_file@, import_path@),
    {
        resolve_import(importing_file, import_path)
    }

    /// Looks a type node up by qualified name.
    pub fn get_type(&self, qualified_name: &str) -> (r: Option<&TypeNode>)
        ensures
            match r {
                Option::Some(n) => self.nodes.spec_get(qualified_name@) == Option::Some(*n),
                Option::None => !self.has_node(qualified_name@),
            },
    {
        self.nodes.get(qualified_name)
    }

    /// All type nodes, keyed by qualified name.
    pub fn get_all_types(&self) -> (r: &NameMap<TypeNode>)
        ensures
            *r == self.nodes,
    {
        &self.nodes
    }

    /// The dependency set of a type, if the type exists.
    pub fn get_dependencies(&self, qualified_name: &str) -> (r: Option<&NameSet>)
        ensures
            match r {
                Option::Some(d) => self.node_deps(qualified_name@) == Option::Some(d.seq_view()),
                Option::None => !self.has_node(qualified_name@),
            },
    {
        match self.nodes.get(qualified_name) {
            Option::Some(node) => Option::Some(&node.dependencies),
            Option::None => Option::None,
        }
    }

    /// Whether a type with this qualified name exists.
    pub fn has_type(&self, qualified_name: &str) -> (r: bool)
        ensures
            r == self.has_node(qualified_name@),
    {
        self.nodes.contains_key(qualified_name)
    }

    /// The package a file declares, if the file was ingested.
    pub fn get_package_for_file(&self, file_path: &str) -> (r: Option<&String>)
        ensures
            match r {
                Option::Some(p) => self.file_package(file_path@) == Option::Some(p@),
                Option::None => self.file_package(file_path@) is None,
            },
    {
        self.file_to_package.get(file_path)
    }

    /// All ingested programs, in ingestion order.
    pub fn get_all_program_infos(&self) -> (r: &Vec<ProgramInfo>)
        ensures
            *r == self.programs,
    {
        &self.programs
    }

    /// The programs that declare a package, in ingestion order.
    pub fn get_programs_for_package(&self, package_name: &str) -> (r: Vec<&Program>)
        requires
            self.wf(),
        ensures
            match self.package_programs(package_name@) {
                Option::Some(idxs) => r@.len() == idxs.len() && (forall|k: int|
                    0 <= k < idxs.len() ==> *(#[trigger] r@[k]) == self.programs@[idxs[k] as int].program),
                Option::None => r@.len() == 0,
            },
    {
        let mut out: Vec<&Program> = Vec::new();
        match self.package_to_programs.get(package_name) {
            Option::Some(indices) => {
                let ghost idxs = indices@;
                let mut i: usize = 0;
                proof {
                    crate::collections::lemma_first_index_props(
                        self.package_to_programs.key_seq(),
                        package_name@,
                    );
                }
                while i < indices.len()
                    invariant
                        0 <= i <= idxs.len(),
                        indices@ == idxs,
                        out@.len() == i,
                        forall|j: int| 0 <= j < idxs.len() ==> idxs[j] < self.programs@.len(),
                        forall|k: int|
                            0 <= k < i ==> *(#[trigger] out@[k]) == self.programs@[idxs[k] as int].program,
                    decreases idxs.len() - i,
                {
                    out.push(&self.programs[indices[i]].program);
                    i += 1;
                }
            },
            Option::None => {},
        }
        out
    }

    /// The programs that were registered with a file path, each paired with
    /// that path, in ingestion order.
    pub fn get_programs_with_paths(&self) -> (r: Vec<(String, &ProgramInfo)>)
        ensures
            r@.len() == with_paths(self.programs@).len(),
            forall|k: int|
                0 <= k < r@.len() ==> (#[trigger] r@[k]).0@ == with_paths(self.programs@)[k].0 && *(
                r@[k]).1 == with_paths(self.programs@)[k].1,
    {
        let mut out: Vec<(String, &ProgramInfo)> = Vec::new();
        let mut i: usize = 0;
        while i < self.programs.len()
            invariant
                0 <= i <= self.programs@.len(),
                out@.len() == with_paths(self.programs@.take(i as int)).len(),
                forall|k: int|
                    0 <= k < out@.len() ==> (#[trigger] out@[k]).0@ == with_paths(
                        self.programs@.take(i as int),
                    )[k].0 && *(out@[k]).1 == with_paths(self.programs@.take(i as int))[k].1,
            decreases self.programs@.len() - i,
        {
            proof {
                assert(self.programs@.take(i + 1).drop_last() =~= self.programs@.take(i as int));
                assert(self.programs@.take(i + 1).last() == self.programs@[i as int]);
            }
            let info = &self.programs[i];
            match &info.file_path {
                Option::Some(path) => {
                    out.push((copy_string(path), info));
                },
                Option::None => {},
            }
            i += 1;
        }
        proof {
            assert(self.programs@.take(self.programs@.len() as int) =~= self.programs@);
        }
        out
    }

    /// The package part of a qualified name: everything before the last
    /// dot, or the empty string for a root-package name.
    pub fn extract_package_from_qualified_name(&self, qualified_name: &str) -> (r: String)
        ensures
            r@ == spec_prefix_before_last(qualified_name@, '.'),
    {
        prefix_before_last(qualified_name, '.')
    }

    /// The first ingested file that declares the given package.
    pub fn find_file_for_package(&self, package_name: &str) -> (r: Option<String>)
        ensures
            match r {
                Option::Some(f) => exists|i: int|
                    {
                        &&& 0 <= i < self.file_to_package.spec_len()
                        &&& f@ == self.file_to_package.key_seq()[i]
                        &&& (#[trigger] self.file_to_package.val_seq()[i])@ == package_name@
                        &&& forall|j: int|
                            0 <= j < i ==> (#[trigger] self.file_to_package.val_seq()[j])@
                                != package_name@
                    },
                Option::None => forall|j: int|
                    0 <= j < self.file_to_package.spec_len() ==> (
                    #[trigger] self.file_to_package.val_seq()[j])@ != package_name@,
            },
    {
        let n = self.file_to_package.len();
        let mut i: usize = 0;
        while i < n
            invariant
                0 <= i <= n,
                n == self.file_to_package.spec_len(),
                forall|j: int|
                    0 <= j < i ==> (#[trigger] self.file_to_package.val_seq()[j])@
                        != package_name@,
            decreases n - i,
        {
            if string_eq(self.file_to_package.val_at(i), &copy_str(package_name)) {
                return Option::Some(copy_string(self.file_to_package.key_at(i)));
            }
            i += 1;
        }
        Option::None
    }
}

/// Copies a vector of indices.
pub(crate) fn clone_usizes(v: &Vec<usize>) -> (r: Vec<usize>)
    ensures
        r@ == v@,
{
    let mut out: Vec<usize> = Vec::new();
    let mut i: usize = 0;
    while i < v.len()
        invariant
            0 <= i <= v@.len(),
            out@.len() == i,
            forall|j: int| 0 <= j < i ==> out@[j] == v@[j],
        decreases v@.len() - i,
    {
        out.push(v[i]);
        i += 1;
    }
    proof {
        assert(out@ =~= v@);
    }
    out
}

} // verus!
