//! The abstract syntax of a parsed Glass program: packages, imports, and
//! schema / enum / service definitions. The resolver consumes these values
//! as immutable input; a parser or a test constructs them.
//!
//! Every node carries a [`Span`] for diagnostics. Spans never participate in
//! the identity of a value: the view (`@`) of each node omits them, and all
//! resolver semantics are stated over views.

use vstd::prelude::*;
use vstd::string::StringExecFns;
use crate::text::{copy_string, views_of};

verus! {

/// A source-location range: `(line, column)` of the first and one-past-last
/// position. Carried for diagnostics only.
#[derive(Clone, Copy, Debug)]
pub struct Span {
    pub start: (usize, usize),
    pub end: (usize, usize),
}

impl Span {
    /// A placeholder span for values constructed outside a source file.
    pub fn dummy() -> (r: Span)
        ensures
            r == (Span { start: (0usize, 0usize), end: (0usize, 0usize) }),
    {
        Span { start: (0, 0), end: (0, 0) }
    }
}

/// An ordered, dot-separated package path, such as `com.example.user`.
#[derive(Debug)]
pub struct PackagePath {
    pub segments: Vec<String>,
    pub span: Span,
}

impl View for PackagePath {
    type V = Seq<Seq<char>>;

    open spec fn view(&self) -> Seq<Seq<char>> {
        views_of(self.segments@)
    }
}

/// The canonical string form of a package path: segments joined with `.`.
pub open spec fn join_dotted(segs: Seq<Seq<char>>) -> Seq<char>
    decreases segs.len(),
{
    if segs.len() == 0 {
        Seq::empty()
    } else if segs.len() == 1 {
        segs[0]
    } else {
        join_dotted(segs.drop_last()) + seq!['.'] + segs.last()
    }
}

impl PackagePath {
    /// The canonical dotted string form of this path.
    pub fn to_string(&self) -> (r: String)
        ensures
            r@ == join_dotted(self@),
    {
        let mut out = String::new();
        let mut i: usize = 0;
        while i < self.segments.len()
            invariant
                0 <= i <= self.segments@.len(),
                out@ == join_dotted(self@.take(i as int)),
            decreases self.segments@.len() - i,
        {
            if i > 0 {
                out.append(".");
                proof {
                    reveal_strlit(".");
                }
            }
            out.append(self.segments[i].as_str());
            proof {
                let dv = self@;
                assert(dv.take(i + 1).drop_last() =~= dv.take(i as int));
                assert(dv.take(i + 1).last() == dv[i as int]);
            }
            i += 1;
        }
        proof {
            assert(self@.take(self.segments@.len() as int) =~= self@);
        }
        out
    }
}

impl Clone for PackagePath {
    fn clone(&self) -> (r: Self)
        ensures
            r@ == self@,
    {
        let mut segments: Vec<String> = Vec::new();
        let mut i: usize = 0;
        while i < self.segments.len()
            invariant
                0 <= i <= self.segments@.len(),
                segments@.len() == i,
                forall|j: int| 0 <= j < i ==> segments@[j] == self.segments@[j],
            decreases self.segments@.len() - i,
        {
            segments.push(self.segments[i].clone());
            i += 1;
        }
        proof {
            assert(segments@ =~= self.segments@);
        }
        PackagePath { segments, span: self.span }
    }
}

/// A `package com.example;` declaration at the head of a program.
#[derive(Debug)]
pub struct PackageDecl {
    pub path: PackagePath,
    pub span: Span,
}

impl View for PackageDecl {
    type V = Seq<Seq<char>>;

    open spec fn view(&self) -> Seq<Seq<char>> {
        self.path@
    }
}

impl Clone for PackageDecl {
    fn clone(&self) -> (r: Self)
        ensures
            r@ == self@,
    {
        PackageDecl { path: self.path.clone(), span: self.span }
    }
}

/// An `import "some/file.glass";` statement. The path is the literal string
/// written in the source, before any resolution.
#[derive(Debug)]
pub struct ImportStmt {
    pub path: String,
    pub span: Span,
}

impl View for ImportStmt {
    type V = Seq<char>;

    open spec fn view(&self) -> Seq<char> {
        self.path@
    }
}

impl Clone for ImportStmt {
    fn clone(&self) -> (r: Self)
        ensures
            r@ == self@,
    {
        ImportStmt { path: copy_string(&self.path), span: self.span }
    }
}

/// The built-in scalar types of the language.
#[derive(Clone, Copy, Debug, PartialEq, Eq, Structural)]
pub enum PrimitiveType {
    String,
    U8,
    U16,
    U32,
    U64,
    U128,
    I8,
    I16,
    I32,
    I64,
    I128,
    F32,
    F64,
    Bool,
}

/// A reference to a schema or enum by name, optionally qualified with an
/// explicit package path.
#[derive(Debug)]
pub struct SchemaRef {
    pub package: Option<PackagePath>,
    pub name: String,
    pub span: Span,
}

/// The span-free identity of a [`SchemaRef`].
pub struct SchemaRefV {
    pub package: Option<Seq<Seq<char>>>,
    pub name: Seq<char>,
}

impl View for SchemaRef {
    type V = SchemaRefV;

    open spec fn view(&self) -> SchemaRefV {
        SchemaRefV {
            package: match self.package {
                Option::Some(p) => Option::Some(p@),
                Option::None => Option::None,
            },
            name: self.name@,
        }
    }
}

impl Clone for SchemaRef {
    fn clone(&self) -> (r: Self)
        ensures
            r@ == self@,
    {
        SchemaRef {
            package: match &self.package {
                Option::Some(p) => Option::Some(p.clone()),
                Option::None => Option::None,
            },
            name: copy_string(&self.name),
            span: self.span,
        }
    }
}

/// A field type: a primitive, an `option<..>` or `vec<..>` wrapper, or a
/// reference to another schema or enum.
#[derive(Debug)]
pub enum Type {
    Primitive(PrimitiveType),
    Option(Box<TypeWithSpan>),
    Vec(Box<TypeWithSpan>),
    SchemaRef(SchemaRef),
}

/// A [`Type`] together with the span it was written at.
#[derive(Debug)]
pub struct TypeWithSpan {
    pub type_value: Type,
    pub span: Span,
}

/// The span-free identity of a [`Type`].
pub enum TypeV {
    Primitive(PrimitiveType),
    Option(Box<TypeV>),
    Vec(Box<TypeV>),
    SchemaRef(SchemaRefV),
}

/// The span-free view of a type, descending through wrappers.
pub open spec fn type_view(t: Type) -> TypeV
    decreases t,
{
    match t {
        Type::Primitive(p) => TypeV::Primitive(p),
        Type::Option(inner) => TypeV::Option(Box::new(type_view((*inner).type_value))),
        Type::Vec(inner) => TypeV::Vec(Box::new(type_view((*inner).type_value))),
        Type::SchemaRef(r) => TypeV::SchemaRef(r@),
    }
}

impl View for Type {
    type V = TypeV;

    open spec fn view(&self) -> TypeV {
        type_view(*self)
    }
}

impl View for TypeWithSpan {
    type V = TypeV;

    open spec fn view(&self) -> TypeV {
        type_view(self.type_value)
    }
}

/// Deep copy of a type; the clone has the same span-free view.
fn clone_type(t: &Type) -> (r: Type)
    ensures
        r@ == t@,
    decreases *t,
{
    match t {
        Type::Primitive(p) => Type::Primitive(*p),
        Type::Option(inner) => Type::Option(Box::new(clone_type_with_span(inner))),
        Type::Vec(inner) => Type::Vec(Box::new(clone_type_with_span(inner))),
        Type::SchemaRef(r) => Type::SchemaRef(r.clone()),
    }
}

/// Deep copy of a type with its span.
fn clone_type_with_span(t: &TypeWithSpan) -> (r: TypeWithSpan)
    ensures
        r@ == t@,
    decreases *t,
{
    TypeWithSpan { type_value: clone_type(&t.type_value), span: t.span }
}

impl Clone for Type {
    fn clone(&self) -> (r: Self)
        ensures
            r@ == self@,
    {
        clone_type(self)
    }
}

impl Clone for TypeWithSpan {
    fn clone(&self) -> (r: Self)
        ensures
            r@ == self@,
    {
        clone_type_with_span(self)
    }
}

/// One named field of a schema.
#[derive(Debug)]
pub struct SchemaField {
    pub name: String,
    pub field_type: TypeWithSpan,
    pub span: Span,
}

/// The span-free identity of a [`SchemaField`].
pub struct SchemaFieldV {
    pub name: Seq<char>,
    pub field_type: TypeV,
}

impl View for SchemaField {
    type V = SchemaFieldV;

    open spec fn view(&self) -> SchemaFieldV {
        SchemaFieldV { name: self.name@, field_type: self.field_type@ }
    }
}

impl Clone for SchemaField {
    fn clone(&self) -> (r: Self)
        ensures
            r@ == self@,
    {
        SchemaField {
            name: copy_string(&self.name),
            field_type: self.field_type.clone(),
            span: self.span,
        }
    }
}

/// A `schema Name { field: type; ... }` definition.
#[derive(Debug)]
pub struct SchemaDef {
    pub name: String,
    pub fields: Vec<SchemaField>,
    pub span: Span,
}

/// The span-free identity of a [`SchemaDef`].
pub struct SchemaDefV {
    pub name: Seq<char>,
    pub fields: Seq<SchemaFieldV>,
}

impl View for SchemaDef {
    type V = SchemaDefV;

    open spec fn view(&self) -> SchemaDefV {
        SchemaDefV {
            name: self.name@,
            fields: self.fields@.map_values(|f: SchemaField| f@),
        }
    }
}

impl Clone for SchemaDef {
    fn clone(&self) -> (r: Self)
        ensures
            r@ == self@,
    {
        let mut fields: Vec<SchemaField> = Vec::new();
        let mut i: usize = 0;
        while i < self.fields.len()
            invariant
                0 <= i <= self.fields@.len(),
                fields@.len() == i,
                forall|j: int| 0 <= j < i ==> fields@[j]@ == self.fields@[j]@,
            decreases self.fields@.len() - i,
        {
            fields.push(self.fields[i].clone());
            i += 1;
        }
        proof {
            assert(fields@.map_values(|f: SchemaField| f@) =~= self.fields@.map_values(
                |f: SchemaField| f@,
            ));
        }
        SchemaDef { name: copy_string(&self.name), fields, span: self.span }
    }
}

/// An `enum Name { Variant, ... }` definition. Enums hold only variant
/// names, so they never contribute dependency edges.
#[derive(Debug)]
pub struct EnumDef {
    pub name: String,
    pub variants: Vec<String>,
    pub span: Span,
}

/// The span-free identity of an [`EnumDef`].
pub struct EnumDefV {
    pub name: Seq<char>,
    pub variants: Seq<Seq<char>>,
}

impl View for EnumDef {
    type V = EnumDefV;

    open spec fn view(&self) -> EnumDefV {
        EnumDefV { name: self.name@, variants: views_of(self.variants@) }
    }
}

impl Clone for EnumDef {
    fn clone(&self) -> (r: Self)
        ensures
            r@ == self@,
    {
        let mut variants: Vec<String> = Vec::new();
        let mut i: usize = 0;
        while i < self.variants.len()
            invariant
                0 <= i <= self.variants@.len(),
                variants@.len() == i,
                forall|j: int| 0 <= j < i ==> variants@[j] == self.variants@[j],
            decreases self.variants@.len() - i,
        {
            variants.push(self.variants[i].clone());
            i += 1;
        }
        proof {
            assert(variants@ =~= self.variants@);
        }
        EnumDef { name: copy_string(&self.name), variants, span: self.span }
    }
}

/// A `service Name { ... }` definition. Services are not part of the type
/// graph; the resolver only records that one was declared.
#[derive(Debug)]
pub struct ServiceDef {
    pub name: String,
    pub span: Span,
}

impl View for ServiceDef {
    type V = Seq<char>;

    open spec fn view(&self) -> Seq<char> {
        self.name@
    }
}

impl Clone for ServiceDef {
    fn clone(&self) -> (r: Self)
        ensures
            r@ == self@,
    {
        ServiceDef { name: copy_string(&self.name), span: self.span }
    }
}

/// One top-level definition of a program.
#[derive(Debug)]
pub enum Definition {
    Schema(SchemaDef),
    Enum(EnumDef),
    Service(ServiceDef),
}

/// The span-free identity of a [`Definition`].
pub enum DefinitionV {
    Schema(SchemaDefV),
    Enum(EnumDefV),
    Service(Seq<char>),
}

impl View for Definition {
    type V = DefinitionV;

    open spec fn view(&self) -> DefinitionV {
        match *self {
            Definition::Schema(s) => DefinitionV::Schema(s@),
            Definition::Enum(e) => DefinitionV::Enum(e@),
            Definition::Service(s) => DefinitionV::Service(s@),
        }
    }
}

impl Clone for Definition {
    fn clone(&self) -> (r: Self)
        ensures
            r@ == self@,
    {
        match self {
            Definition::Schema(s) => Definition::Schema(s.clone()),
            Definition::Enum(e) => Definition::Enum(e.clone()),
            Definition::Service(s) => Definition::Service(s.clone()),
        }
    }
}

/// One parsed source file: an optional package declaration, the import
/// statements in source order, and the top-level definitions in source order.
#[derive(Debug)]
pub struct Program {
    pub package: Option<PackageDecl>,
    pub imports: Vec<ImportStmt>,
    pub definitions: Vec<Definition>,
    pub span: Span,
}

/// The span-free identity of a [`Program`].
pub struct ProgramV {
    pub package: Option<Seq<Seq<char>>>,
    pub imports: Seq<Seq<char>>,
    pub definitions: Seq<DefinitionV>,
}

impl View for Program {
    type V = ProgramV;

    open spec fn view(&self) -> ProgramV {
        ProgramV {
            package: match self.package {
                Option::Some(d) => Option::Some(d@),
                Option::None => Option::None,
            },
            imports: self.imports@.map_values(|s: ImportStmt| s@),
            definitions: self.definitions@.map_values(|d: Definition| d@),
        }
    }
}

impl Clone for Program {
    fn clone(&self) -> (r: Self)
        ensures
            r@ == self@,
    {
        let package = match &self.package {
            Option::Some(d) => Option::Some(d.clone()),
            Option::None => Option::None,
        };
        let mut imports: Vec<ImportStmt> = Vec::new();
        let mut i: usize = 0;
        while i < self.imports.len()
            invariant
                0 <= i <= self.imports@.len(),
                imports@.len() == i,
                forall|j: int| 0 <= j < i ==> imports@[j]@ == self.imports@[j]@,
            decreases self.imports@.len() - i,
        {
            imports.push(self.imports[i].clone());
            i += 1;
        }
        let mut definitions: Vec<Definition> = Vec::new();
        let mut k: usize = 0;
        while k < self.definitions.len()
            invariant
                0 <= k <= self.definitions@.len(),
                definitions@.len() == k,
                forall|j: int| 0 <= j < k ==> definitions@[j]@ == self.definitions@[j]@,
            decreases self.definitions@.len() - k,
        {
            definitions.push(self.definitions[k].clone());
            k += 1;
        }
        proof {
            assert(imports@.map_values(|s: ImportStmt| s@) =~= self.imports@.map_values(
                |s: ImportStmt| s@,
            ));
            assert(definitions@.map_values(|d: Definition| d@) =~= self.definitions@.map_values(
                |d: Definition| d@,
            ));
        }
        Program { package, imports, definitions, span: self.span }
    }
}

/// The declared package of a program, as its canonical dotted string; the
/// empty string stands for the root package.
pub open spec fn spec_package_string(p: ProgramV) -> Seq<char> {
    match p.package {
        Option::Some(segs) => join_dotted(segs),
        Option::None => Seq::empty(),
    }
}

impl Program {
    /// The declared package of this program as a string; a program without
    /// a `package` declaration is in the root package, the empty string.
    pub fn package_string(&self) -> (r: String)
        ensures
            r@ == spec_package_string(self@),
    {
        match &self.package {
            Option::Some(d) => d.path.to_string(),
            Option::None => String::new(),
        }
    }
}

} // verus!
