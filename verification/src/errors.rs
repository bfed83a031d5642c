//! The error values the resolver returns. Every failure carries enough
//! context (qualified name, file, candidate list, or full cycle path) to
//! point at the offending declaration.

use vstd::prelude::*;

verus! {

/// A fatal error from building or querying a type tree.
#[derive(Debug)]
pub enum TypeTreeError {
    /// The type-dependency graph contains a cycle; `path` is the
    /// arrow-joined chain of qualified names, ending where it starts.
    CircularDependency { path: String },
    /// A schema reference names a type that no program defines. For an
    /// unqualified reference, `name` also lists every candidate that was
    /// tried.
    TypeNotFound { name: String },
    /// A referenced type exists but is neither in the referencing file's
    /// package nor in the package of a directly imported file.
    TypeNotAccessible { qualified_name: String, from_file: String },
    /// The import graph contains a cycle of files, ending where it starts.
    CircularImport { cycle: Vec<String> },
    /// An import statement could not be resolved to any file.
    UnresolvableImport { import_path: String, from_file: String },
    /// Two definitions produce the same qualified name; the files that hold
    /// the earlier and the later definition are named when known.
    DuplicateType {
        qualified_name: String,
        existing_file: Option<String>,
        new_file: Option<String>,
    },
    /// An unqualified reference matches types in more than one imported
    /// package; `candidates` lists every distinct match in import order.
    AmbiguousTypeReference { name: String, candidates: Vec<String> },
}

/// An advisory error from `validate_imports`.
#[derive(Debug)]
pub enum ImportValidationError {
    /// An import resolves to a path that no ingested program has;
    /// `import_path` is the literal string written in the source.
    FileNotFound { import_path: String, from_file: String, resolved_path: String },
    /// The import graph contains a cycle of files, ending where it starts.
    CircularImport { cycle: Vec<String> },
}

} // verus!
