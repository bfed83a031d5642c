use glass_resolver::ast::{
    Definition, ImportStmt, PackageDecl, PackagePath, PrimitiveType, Program, SchemaDef,
    SchemaField, SchemaRef, Span, Type, TypeWithSpan,
};
use glass_resolver::errors::{ImportValidationError, TypeTreeError};
use glass_resolver::tree::TypeTree;

fn s_package(package_name: &str) -> Option<PackageDecl> {
    Some(PackageDecl {
        path: PackagePath {
            segments: package_name.split('.').map(String::from).collect(),
            span: Span::dummy(),
        },
        span: Span::dummy(),
    })
}

fn s_field(name: &str, ty: Type) -> SchemaField {
    SchemaField {
        name: name.to_string(),
        field_type: TypeWithSpan { type_value: ty, span: Span::dummy() },
        span: Span::dummy(),
    }
}

fn s_ref(package: Option<&str>, name: &str) -> Type {
    Type::SchemaRef(SchemaRef {
        package: package.map(|p| PackagePath {
            segments: p.split('.').map(String::from).collect(),
            span: Span::dummy(),
        }),
        name: name.to_string(),
        span: Span::dummy(),
    })
}

fn s_program(package_name: &str, imports: Vec<&str>, schemas: Vec<(&str, Vec<(&str, Type)>)>) -> Program {
    Program {
        package: s_package(package_name),
        imports: imports
            .into_iter()
            .map(|p| ImportStmt { path: p.to_string(), span: Span::dummy() })
            .collect(),
        definitions: schemas
            .into_iter()
            .map(|(name, fields)| {
                Definition::Schema(SchemaDef {
                    name: name.to_string(),
                    fields: fields.into_iter().map(|(n, t)| s_field(n, t)).collect(),
                    span: Span::dummy(),
                })
            })
            .collect(),
        span: Span::dummy(),
    }
}

#[test]
fn scenario_simple_success() {
    let program = s_program(
        "com.example",
        vec![],
        vec![(
            "User",
            vec![
                ("id", Type::Primitive(PrimitiveType::String)),
                ("name", Type::Primitive(PrimitiveType::String)),
            ],
        )],
    );
    let tree = TypeTree::from_programs(&[program]).unwrap();
    assert!(tree.get_type("com.example.User").is_some());
    assert!(tree.get_dependencies("com.example.User").unwrap().is_empty());
}

#[test]
fn scenario_dependency_order() {
    let program = s_program(
        "pkg",
        vec![],
        vec![
            ("C", vec![("b", s_ref(Some("pkg"), "B"))]),
            ("B", vec![("a", s_ref(Some("pkg"), "A"))]),
            ("A", vec![]),
        ],
    );
    let tree = TypeTree::from_programs(&[program]).unwrap();
    let subset = vec!["pkg.A".to_string(), "pkg.B".to_string(), "pkg.C".to_string()];
    let order = tree.get_generation_order(&subset).unwrap();
    let pos = |name: &str| order.iter().position(|x| x == name).unwrap();
    assert_eq!(order.len(), 3);
    assert!(pos("pkg.A") < pos("pkg.B"));
    assert!(pos("pkg.B") < pos("pkg.C"));
}

#[test]
fn scenario_ambiguous_unqualified_reference() {
    let p1 = s_program("P1", vec![], vec![("Foo", vec![])]);
    let p2 = s_program("P2", vec![], vec![("Foo", vec![])]);
    let user = s_program(
        "app",
        vec!["p1.glass", "p2.glass"],
        vec![("Holder", vec![("f", s_ref(None, "Foo"))])],
    );
    let result = TypeTree::from_programs_with_paths(&[
        (p1, Some("p1.glass".to_string())),
        (p2, Some("p2.glass".to_string())),
        (user, Some("user.glass".to_string())),
    ]);
    match result {
        Err(TypeTreeError::AmbiguousTypeReference { name, candidates }) => {
            assert_eq!(name, "Foo");
            assert_eq!(candidates, vec!["P1.Foo".to_string(), "P2.Foo".to_string()]);
        }
        _ => panic!("Expected AmbiguousTypeReference error"),
    }
}

#[test]
fn scenario_circular_import() {
    let a = s_program("pa", vec!["b.glass"], vec![]);
    let b = s_program("pb", vec!["a.glass"], vec![]);
    let mut tree = TypeTree::new();
    tree.add_program_with_path(a, "a.glass".to_string()).unwrap();
    tree.add_program_with_path(b, "b.glass".to_string()).unwrap();
    let errors = tree.validate_imports().unwrap_err();
    assert_eq!(errors.len(), 1);
    match &errors[0] {
        ImportValidationError::CircularImport { cycle } => {
            assert!(cycle.contains(&"a.glass".to_string()));
            assert!(cycle.contains(&"b.glass".to_string()));
            assert_eq!(cycle.first(), cycle.last());
        }
        _ => panic!("Expected CircularImport error"),
    }
}

#[test]
fn scenario_unreachable_relative_import() {
    // a relative import keeps its literal spelling in the diagnostic,
    // not the resolved path
    let main = s_program("m", vec!["./missing.glass"], vec![]);
    let mut tree = TypeTree::new();
    tree.add_program_with_path(main, "dir/main.glass".to_string()).unwrap();
    let errors = tree.validate_imports().unwrap_err();
    assert_eq!(errors.len(), 1);
    match &errors[0] {
        ImportValidationError::FileNotFound { import_path, from_file, resolved_path } => {
            assert_eq!(import_path, "./missing.glass");
            assert_eq!(from_file, "dir/main.glass");
            assert_eq!(resolved_path, "dir/./missing.glass");
        }
        _ => panic!("Expected FileNotFound error"),
    }
}

#[test]
fn duplicate_qualified_name_fails() {
    let first = s_program("com.example", vec![], vec![("User", vec![])]);
    let second = s_program("com.example", vec![], vec![("User", vec![])]);
    let result = TypeTree::from_programs_with_paths(&[
        (first, Some("a.glass".to_string())),
        (second, Some("b.glass".to_string())),
    ]);
    match result {
        Err(TypeTreeError::DuplicateType { qualified_name, existing_file, new_file }) => {
            assert_eq!(qualified_name, "com.example.User");
            assert_eq!(existing_file, Some("a.glass".to_string()));
            assert_eq!(new_file, Some("b.glass".to_string()));
        }
        _ => panic!("Expected DuplicateType error"),
    }
}

#[test]
fn root_package_uses_bare_names() {
    let program = Program {
        package: None,
        imports: vec![],
        definitions: vec![
            Definition::Schema(SchemaDef {
                name: "Config".to_string(),
                fields: vec![],
                span: Span::dummy(),
            }),
            Definition::Schema(SchemaDef {
                name: "Holder".to_string(),
                fields: vec![s_field("c", s_ref(None, "Config"))],
                span: Span::dummy(),
            }),
        ],
        span: Span::dummy(),
    };
    let tree = TypeTree::from_programs(&[program]).unwrap();
    assert!(tree.has_type("Config"));
    assert!(tree.has_type("Holder"));
    let deps = tree.get_dependencies("Holder").unwrap();
    assert!(deps.contains("Config"));
}

#[test]
fn deep_wrappers_make_one_edge() {
    // option<vec<option<Leaf>>> contributes the same single edge as Leaf
    let leaf = s_program("w", vec![], vec![("Leaf", vec![])]);
    let wrapped = Type::Option(Box::new(TypeWithSpan {
        type_value: Type::Vec(Box::new(TypeWithSpan {
            type_value: Type::Option(Box::new(TypeWithSpan {
                type_value: s_ref(Some("w"), "Leaf"),
                span: Span::dummy(),
            })),
            span: Span::dummy(),
        })),
        span: Span::dummy(),
    }));
    let holder = s_program("w", vec![], vec![("Holder", vec![("x", wrapped)])]);
    let tree = TypeTree::from_programs(&[leaf, holder]).unwrap();
    let deps = tree.get_dependencies("w.Holder").unwrap();
    assert_eq!(deps.len(), 1);
    assert!(deps.contains("w.Leaf"));
}

#[test]
fn unknown_type_not_found_lists_candidates() {
    let lib = s_program("lib", vec![], vec![("Known", vec![])]);
    let user = s_program(
        "app",
        vec!["lib.glass"],
        vec![("H", vec![("x", s_ref(None, "Mystery"))])],
    );
    let result = TypeTree::from_programs_with_paths(&[
        (lib, Some("lib.glass".to_string())),
        (user, Some("app.glass".to_string())),
    ]);
    match result {
        Err(TypeTreeError::TypeNotFound { name }) => {
            assert_eq!(name, "Mystery (tried: app.Mystery, Mystery, lib.Mystery)");
        }
        _ => panic!("Expected TypeNotFound error"),
    }
}

#[test]
fn inaccessible_qualified_reference_fails() {
    // hidden.Secret exists, but app.glass neither shares its package nor
    // imports its file
    let hidden = s_program("hidden", vec![], vec![("Secret", vec![])]);
    let user = s_program(
        "app",
        vec![],
        vec![("H", vec![("x", s_ref(Some("hidden"), "Secret"))])],
    );
    let result = TypeTree::from_programs_with_paths(&[
        (hidden, Some("hidden.glass".to_string())),
        (user, Some("app.glass".to_string())),
    ]);
    match result {
        Err(TypeTreeError::TypeNotAccessible { qualified_name, from_file }) => {
            assert_eq!(qualified_name, "hidden.Secret");
            assert_eq!(from_file, "app.glass");
        }
        _ => panic!("Expected TypeNotAccessible error"),
    }
}

#[test]
fn import_path_arithmetic() {
    let tree = TypeTree::new();
    assert_eq!(tree.resolve_import_path("dir/main.glass", "/abs/file.glass"), "abs/file.glass");
    assert_eq!(tree.resolve_import_path("dir/main.glass", "plain/file.glass"), "plain/file.glass");
    assert_eq!(tree.resolve_import_path("dir/main.glass", "./sib.glass"), "dir/./sib.glass");
    assert_eq!(tree.resolve_import_path("dir/sub/main.glass", "../up.glass"), "dir/sub/../up.glass");
    assert_eq!(tree.resolve_import_path("main.glass", "./sib.glass"), "./sib.glass");
}

#[test]
fn extract_package_splits_at_last_dot() {
    let tree = TypeTree::new();
    assert_eq!(tree.extract_package_from_qualified_name("com.example.User"), "com.example");
    assert_eq!(tree.extract_package_from_qualified_name("User"), "");
}

#[test]
fn validate_type_references_collects_all_errors() {
    // one good reference, two bad ones: both bad ones are reported
    let lib = s_program("lib", vec![], vec![("Known", vec![])]);
    let user = s_program(
        "app",
        vec!["lib.glass"],
        vec![(
            "H",
            vec![
                ("good", s_ref(Some("lib"), "Known")),
                ("bad1", s_ref(Some("lib"), "Ghost1")),
                ("bad2", s_ref(None, "Ghost2")),
            ],
        )],
    );
    let mut tree = TypeTree::new();
    tree.add_program_with_path(lib, "lib.glass".to_string()).unwrap();
    let user_for_check = s_program(
        "app",
        vec!["lib.glass"],
        vec![(
            "H",
            vec![
                ("good", s_ref(Some("lib"), "Known")),
                ("bad1", s_ref(Some("lib"), "Ghost1")),
                ("bad2", s_ref(None, "Ghost2")),
            ],
        )],
    );
    tree.add_program_with_path(user, "app.glass".to_string()).unwrap();
    // register the types so the good reference can resolve
    let valid_tree = TypeTree::from_programs_with_paths(&[
        (s_program("lib", vec![], vec![("Known", vec![])]), Some("lib.glass".to_string())),
        (
            s_program(
                "app",
                vec!["lib.glass"],
                vec![("H", vec![("good", s_ref(Some("lib"), "Known"))])],
            ),
            Some("app.glass".to_string()),
        ),
    ])
    .unwrap();
    let ok = valid_tree.validate_type_references(&s_program(
        "app",
        vec!["lib.glass"],
        vec![("H", vec![("good", s_ref(Some("lib"), "Known"))])],
    ));
    assert!(ok.is_ok());

    let errors = tree.validate_type_references(&user_for_check).unwrap_err();
    assert_eq!(errors.len(), 3);
    match &errors[0] {
        TypeTreeError::TypeNotAccessible { .. } | TypeTreeError::TypeNotFound { .. } => {}
        _ => panic!("Expected a resolution error"),
    }
}

#[test]
fn generation_order_reports_cycles() {
    // build a valid tree, then ask for an order over a subset that the
    // caller names twice; duplicates are collapsed
    let program = s_program(
        "g",
        vec![],
        vec![("A", vec![]), ("B", vec![("a", s_ref(Some("g"), "A"))])],
    );
    let tree = TypeTree::from_programs(&[program]).unwrap();
    let order = tree
        .get_generation_order(&vec!["g.B".to_string(), "g.A".to_string(), "g.B".to_string()])
        .unwrap();
    assert_eq!(order.len(), 2);
    assert!(order.iter().position(|x| x == "g.A") < order.iter().position(|x| x == "g.B"));
}
