//! Advisory import validation: a cycle among the files short-circuits, and
//! otherwise every import edge whose resolved path no ingested file matches
//! is reported, citing the literal import string that produced it.

use vstd::prelude::*;
use crate::collections::lemma_first_index_props;
use crate::cycles::{import_acyclic, import_cycle};
use crate::errors::ImportValidationError;
use crate::text::{
    copy_str, copy_string, spec_resolve_import, str_eq, views_of,
};
use crate::tree::{ProgramInfo, TypeTree};

verus! {

/// The unresolved targets of one file's import list, each paired with the
/// importing file, in statement order.
pub open spec fn missing_in_list(t: TypeTree, f: Seq<char>, es: Seq<Seq<char>>) -> Seq<
    (Seq<char>, Seq<char>),
>
    decreases es.len(),
{
    if es.len() == 0 {
        Seq::empty()
    } else {
        let prev = missing_in_list(t, f, es.drop_last());
        if t.file_to_package.spec_contains_key(es.last()) {
            prev
        } else {
            prev.push((f, es.last()))
        }
    }
}

/// The unresolved import edges of the first `i` files of the import graph,
/// in graph order.
pub open spec fn missing_entries(t: TypeTree, i: int) -> Seq<(Seq<char>, Seq<char>)>
    decreases i,
{
    if i <= 0 {
        Seq::empty()
    } else {
        missing_entries(t, i - 1) + missing_in_list(
            t,
            t.import_graph.key_seq()[i - 1],
            views_of(t.import_graph.val_seq()[i - 1]@),
        )
    }
}

/// All unresolved import edges of the tree.
pub open spec fn missing_imports(t: TypeTree) -> Seq<(Seq<char>, Seq<char>)> {
    missing_entries(t, t.import_graph.spec_len() as int)
}

/// The first import statement of `imports` that resolves to `resolved`
/// against file `f`.
pub open spec fn first_import_match(
    imports: Seq<Seq<char>>,
    f: Seq<char>,
    resolved: Seq<char>,
) -> Option<Seq<char>>
    decreases imports.len(),
{
    if imports.len() == 0 {
        Option::None
    } else {
        match first_import_match(imports.drop_last(), f, resolved) {
            Option::Some(o) => Option::Some(o),
            Option::None => {
                if spec_resolve_import(f, imports.last()) == resolved {
                    Option::Some(imports.last())
                } else {
                    Option::None
                }
            },
        }
    }
}

/// The literal import string behind a resolved path: the first matching
/// import statement of the first program registered under file `f`.
pub open spec fn find_orig(
    infos: Seq<ProgramInfo>,
    f: Seq<char>,
    resolved: Seq<char>,
) -> Option<Seq<char>>
    decreases infos.len(),
{
    if infos.len() == 0 {
        Option::None
    } else {
        match find_orig(infos.drop_last(), f, resolved) {
            Option::Some(o) => Option::Some(o),
            Option::None => {
                if infos.last().file_path matches Option::Some(fp) && fp@ == f {
                    first_import_match(infos.last().program@.imports, f, resolved)
                } else {
                    Option::None
                }
            },
        }
    }
}

/// The import string cited for an unresolved edge: the recovered original,
/// or the resolved path itself when no statement matches.
pub open spec fn cited_import(t: TypeTree, f: Seq<char>, resolved: Seq<char>) -> Seq<char> {
    match find_orig(t.programs@, f, resolved) {
        Option::Some(o) => o,
        Option::None => resolved,
    }
}

/// What one reported missing-import error says.
pub open spec fn missing_matches(t: TypeTree, m: (Seq<char>, Seq<char>), e: ImportValidationError) -> bool {
    e matches ImportValidationError::FileNotFound { import_path, from_file, resolved_path }
        && from_file@ == m.0 && resolved_path@ == m.1 && import_path@ == cited_import(t, m.0, m.1)
}

impl TypeTree {
    /// Recovers the literal import string of the first program registered
    /// under `file_path` that resolves to `resolved_path`.
    #[verifier::loop_isolation(false)]
    pub(crate) fn find_original_import(&self, file_path: &str, resolved_path: &str) -> (r: Option<
        String,
    >)
        ensures
            match r {
                Option::Some(o) => find_orig(self.programs@, file_path@, resolved_path@)
                    == Option::Some(o@),
                Option::None => find_orig(self.programs@, file_path@, resolved_path@) is None,
            },
    {
        let n = self.programs.len();
        let mut i: usize = 0;
        while i < n
            invariant
                0 <= i <= n,
                n == self.programs@.len(),
                find_orig(self.programs@.take(i as int), file_path@, resolved_path@) is None,
            decreases n - i,
        {
            proof {
                assert(self.programs@.take(i + 1).drop_last() =~= self.programs@.take(i as int));
                assert(self.programs@.take(i + 1).last() == self.programs@[i as int]);
            }
            let info = &self.programs[i];
            let matches_file = match &info.file_path {
                Option::Some(fp) => str_eq(fp.as_str(), file_path),
                Option::None => false,
            };
            if matches_file {
                let ghost imps = info.program@.imports;
                let ni = info.program.imports.len();
                let mut j: usize = 0;
                while j < ni
                    invariant
                        0 <= j <= ni,
                        ni == imps.len(),
                        imps == info.program@.imports,
                        first_import_match(imps.take(j as int), file_path@, resolved_path@)
                            is None,
                    decreases ni - j,
                {
                    proof {
                        assert(imps.take(j + 1).drop_last() =~= imps.take(j as int));
                        assert(imps.take(j + 1).last() == imps[j as int]);
                        assert(imps[j as int] == info.program.imports@[j as int]@);
                    }
                    let test = crate::text::resolve_import(
                        file_path,
                        info.program.imports[j].path.as_str(),
                    );
                    if str_eq(test.as_str(), resolved_path) {
                        proof {
                            lemma_first_import_extend(imps, file_path@, resolved_path@, j as int);
                            lemma_find_orig_at(
                                self.programs@,
                                file_path@,
                                resolved_path@,
                                i as int,
                            );
                        }
                        return Option::Some(copy_string(&info.program.imports[j].path));
                    }
                    j += 1;
                }
                proof {
                    assert(imps.take(ni as int) =~= imps);
                }
            }
            i += 1;
        }
        proof {
            assert(self.programs@.take(n as int) =~= self.programs@);
        }
        Option::None
    }

    /// Validates every import edge. A cycle among the files is reported
    /// alone, since it would make per-edge diagnostics redundant; otherwise
    /// each import that resolves to no ingested file yields one error,
    /// citing the literal import string.
    #[verifier::loop_isolation(false)]
    pub fn validate_imports(&self) -> (r: Result<(), Vec<ImportValidationError>>)
        requires
            self.wf(),
        ensures
            !import_acyclic(*self) ==> (r matches Err(es) && es@.len() == 1 && (es@[0]
                matches ImportValidationError::CircularImport { cycle } && import_cycle(
                *self,
                views_of(cycle@),
            ))),
            import_acyclic(*self) ==> ({
                let missing = missing_imports(*self);
                &&& ((r is Ok) == (missing.len() == 0))
                &&& (r matches Err(es) ==> es@.len() == missing.len() && (forall|k: int|
                    0 <= k < missing.len() ==> missing_matches(*self, missing[k], #[trigger] es@[k])))
            }),
    {
        match self.detect_circular_imports() {
            Option::Some(cycle) => {
                let mut errors: Vec<ImportValidationError> = Vec::new();
                errors.push(ImportValidationError::CircularImport { cycle });
                return Result::Err(errors);
            },
            Option::None => {},
        }

        let mut errors: Vec<ImportValidationError> = Vec::new();
        let n = self.import_graph.len();
        let mut i: usize = 0;
        while i < n
            invariant
                0 <= i <= n,
                n == self.import_graph.spec_len(),
                errors@.len() == missing_entries(*self, i as int).len(),
                forall|k: int|
                    0 <= k < errors@.len() ==> missing_matches(
                        *self,
                        missing_entries(*self, i as int)[k],
                        #[trigger] errors@[k],
                    ),
            decreases n - i,
        {
            let file = self.import_graph.key_at(i);
            let edges = self.import_graph.val_at(i);
            let ghost fv = self.import_graph.key_seq()[i as int];
            let ghost evs = views_of(edges@);
            let ne = edges.len();
            let mut k: usize = 0;
            while k < ne
                invariant
                    0 <= k <= ne,
                    ne == evs.len(),
                    evs == views_of(edges@),
                    errors@.len() == (missing_entries(*self, i as int) + missing_in_list(
                        *self,
                        fv,
                        evs.take(k as int),
                    )).len(),
                    forall|m: int|
                        0 <= m < errors@.len() ==> missing_matches(
                            *self,
                            (missing_entries(*self, i as int) + missing_in_list(
                                *self,
                                fv,
                                evs.take(k as int),
                            ))[m],
                            #[trigger] errors@[m],
                        ),
                decreases ne - k,
            {
                proof {
                    assert(evs.take(k + 1).drop_last() =~= evs.take(k as int));
                    assert(evs.take(k + 1).last() == evs[k as int]);
                    assert(evs[k as int] == edges@[k as int]@);
                }
                let target = &edges[k];
                if !self.file_to_package.contains_key(target.as_str()) {
                    let original = self.find_original_import(file.as_str(), target.as_str());
                    let import_path = match original {
                        Option::Some(o) => o,
                        Option::None => copy_string(target),
                    };
                    errors.push(
                        ImportValidationError::FileNotFound {
                            import_path,
                            from_file: copy_string(file),
                            resolved_path: copy_string(target),
                        },
                    );
                    proof {
                        let pre = missing_entries(*self, i as int) + missing_in_list(
                            *self,
                            fv,
                            evs.take(k as int),
                        );
                        let post = missing_entries(*self, i as int) + missing_in_list(
                            *self,
                            fv,
                            evs.take(k + 1),
                        );
                        assert(post =~= pre.push((fv, evs[k as int])));
                    }
                }
                k += 1;
            }
            proof {
                assert(evs.take(ne as int) =~= evs);
                assert(missing_entries(*self, i + 1) == missing_entries(*self, i as int)
                    + missing_in_list(*self, fv, evs));
            }
            i += 1;
        }

        if errors.is_empty() {
            Result::Ok(())
        } else {
            Result::Err(errors)
        }
    }
}

/// A matching import at `j`, with no earlier match, decides the recovered
/// string.
proof fn lemma_first_import_extend(imports: Seq<Seq<char>>, f: Seq<char>, resolved: Seq<char>, j: int)
    requires
        0 <= j < imports.len(),
        first_import_match(imports.take(j), f, resolved) is None,
        spec_resolve_import(f, imports[j]) == resolved,
    ensures
        first_import_match(imports, f, resolved) == Option::Some(imports[j]),
    decreases imports.len(),
{
    if j == imports.len() - 1 {
        assert(imports.take(j) =~= imports.drop_last());
    } else {
        assert(imports.drop_last().take(j) =~= imports.take(j));
        assert(imports.drop_last()[j] == imports[j]);
        lemma_first_import_extend(imports.drop_last(), f, resolved, j);
    }
}

/// A recovery that succeeds at program `i`, with no earlier success,
/// decides `find_orig`.
proof fn lemma_find_orig_at(infos: Seq<ProgramInfo>, f: Seq<char>, resolved: Seq<char>, i: int)
    requires
        0 <= i < infos.len(),
        find_orig(infos.take(i), f, resolved) is None,
        infos[i].file_path matches Option::Some(fp) && fp@ == f,
        first_import_match(infos[i].program@.imports, f, resolved) is Some,
    ensures
        find_orig(infos, f, resolved) == first_import_match(infos[i].program@.imports, f, resolved),
    decreases infos.len(),
{
    if i == infos.len() - 1 {
        assert(infos.take(i) =~= infos.drop_last());
    } else {
        assert(infos.drop_last().take(i) =~= infos.take(i));
        assert(infos.drop_last()[i] == infos[i]);
        lemma_find_orig_at(infos.drop_last(), f, resolved, i);
    }
}

} // verus!
