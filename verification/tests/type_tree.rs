use glass_resolver::ast::{
    Definition, EnumDef, ImportStmt, PackageDecl, PackagePath, PrimitiveType, Program, SchemaDef,
    SchemaField, SchemaRef, Span, Type, TypeWithSpan,
};
use glass_resolver::errors::{ImportValidationError, TypeTreeError};
use glass_resolver::tree::{TypeDefinition, TypeTree};

fn package_decl(package_name: &str) -> Option<PackageDecl> {
    Some(PackageDecl {
        path: PackagePath {
            segments: package_name.split('.').map(String::from).collect(),
            span: Span::dummy(),
        },
        span: Span::dummy(),
    })
}

fn prim(p: PrimitiveType) -> Type {
    Type::Primitive(p)
}

fn field(name: &str, ty: Type) -> SchemaField {
    SchemaField {
        name: name.to_string(),
        field_type: TypeWithSpan { type_value: ty, span: Span::dummy() },
        span: Span::dummy(),
    }
}

fn schema_def(name: &str, fields: Vec<SchemaField>) -> SchemaDef {
    SchemaDef { name: name.to_string(), fields, span: Span::dummy() }
}

fn schema_ref(package: Option<&str>, name: &str) -> SchemaRef {
    SchemaRef {
        package: package.map(|p| PackagePath {
            segments: p.split('.').map(String::from).collect(),
            span: Span::dummy(),
        }),
        name: name.to_string(),
        span: Span::dummy(),
    }
}

fn import_stmt(path: &str) -> ImportStmt {
    ImportStmt { path: path.to_string(), span: Span::dummy() }
}

fn create_test_program(package_name: &str, schema_name: &str, fields: Vec<(&str, Type)>) -> Program {
    let schema_fields = fields.into_iter().map(|(name, ty)| field(name, ty)).collect();
    Program {
        package: package_decl(package_name),
        imports: vec![],
        definitions: vec![Definition::Schema(SchemaDef {
            name: schema_name.to_string(),
            fields: schema_fields,
            span: Span::dummy(),
        })],
        span: Span::dummy(),
    }
}

fn create_test_enum_program(package_name: &str, enum_name: &str, variants: Vec<&str>) -> Program {
    Program {
        package: package_decl(package_name),
        imports: vec![],
        definitions: vec![Definition::Enum(EnumDef {
            name: enum_name.to_string(),
            variants: variants.into_iter().map(String::from).collect(),
            span: Span::dummy(),
        })],
        span: Span::dummy(),
    }
}

#[test]
fn test_empty_type_tree() {
    let tree = TypeTree::new();
    assert!(tree.get_all_types().is_empty());
}

#[test]
fn test_file_to_package_mapping() {
    let tree = TypeTree::new();
    assert_eq!(tree.get_package_for_file("some/file.glass"), None);
}

#[test]
fn test_from_programs_single_schema() {
    let program = create_test_program(
        "com.example",
        "User",
        vec![
            ("id", prim(PrimitiveType::String)),
            ("name", prim(PrimitiveType::String)),
        ],
    );

    let result = TypeTree::from_programs(&[program]);
    assert!(result.is_ok());

    let tree = result.unwrap();

    let qualified_name = "com.example.User";
    let type_node = tree.get_type(qualified_name);
    assert!(type_node.is_some());

    let type_node = type_node.unwrap();
    match &type_node.definition {
        TypeDefinition::Schema(schema_def) => {
            assert_eq!(schema_def.name, "User");
            assert_eq!(schema_def.fields.len(), 2);
            assert_eq!(schema_def.fields[0].name, "id");
            assert_eq!(schema_def.fields[1].name, "name");
        }
        _ => panic!("Expected schema definition"),
    }

    assert!(type_node.dependencies.is_empty());
}

#[test]
fn test_from_programs_with_dependencies() {
    let address_program = create_test_program(
        "com.example",
        "Address",
        vec![
            ("street", prim(PrimitiveType::String)),
            ("city", prim(PrimitiveType::String)),
        ],
    );

    let address_ref = schema_ref(Some("com.example"), "Address");

    let user_program = create_test_program(
        "com.example",
        "User",
        vec![
            ("id", prim(PrimitiveType::String)),
            ("name", prim(PrimitiveType::String)),
            ("address", Type::SchemaRef(address_ref)),
        ],
    );

    let result = TypeTree::from_programs(&[address_program, user_program]);
    assert!(result.is_ok());

    let tree = result.unwrap();

    let address_name = "com.example.Address";
    let user_name = "com.example.User";

    assert!(tree.get_type(address_name).is_some());
    assert!(tree.get_type(user_name).is_some());

    let user_deps = tree.get_dependencies(user_name).unwrap();
    assert!(user_deps.contains(address_name));

    let address_deps = tree.get_dependencies(address_name).unwrap();
    assert!(address_deps.is_empty());

    let address_dependents = tree.get_dependents(address_name);
    assert_eq!(address_dependents.len(), 1);
    assert!(address_dependents.contains(&user_name.to_string()));
}

#[test]
fn test_from_programs_with_enum() {
    let program = create_test_enum_program("com.example", "Status", vec!["OK", "ERROR", "PENDING"]);

    let result = TypeTree::from_programs(&[program]);
    assert!(result.is_ok());

    let tree = result.unwrap();

    let qualified_name = "com.example.Status";
    let type_node = tree.get_type(qualified_name);
    assert!(type_node.is_some());

    let type_node = type_node.unwrap();
    match &type_node.definition {
        TypeDefinition::Enum(enum_def) => {
            assert_eq!(enum_def.name, "Status");
            assert_eq!(enum_def.variants.len(), 3);
            assert_eq!(enum_def.variants[0], "OK");
            assert_eq!(enum_def.variants[1], "ERROR");
            assert_eq!(enum_def.variants[2], "PENDING");
        }
        _ => panic!("Expected enum definition"),
    }

    assert!(type_node.dependencies.is_empty());
}

#[test]
fn test_circular_dependency_detection() {
    let schema_a_ref = schema_ref(Some("com.example"), "SchemaB");
    let schema_a = create_test_program(
        "com.example",
        "SchemaA",
        vec![
            ("id", prim(PrimitiveType::String)),
            ("ref_to_b", Type::SchemaRef(schema_a_ref)),
        ],
    );

    let schema_b_ref = schema_ref(Some("com.example"), "SchemaA");
    let schema_b = create_test_program(
        "com.example",
        "SchemaB",
        vec![
            ("id", prim(PrimitiveType::String)),
            ("ref_to_a", Type::SchemaRef(schema_b_ref)),
        ],
    );

    let result = TypeTree::from_programs(&[schema_a, schema_b]);

    assert!(result.is_err());

    match result {
        Err(TypeTreeError::CircularDependency { path }) => {
            assert!(path.contains("com.example.SchemaA"));
            assert!(path.contains("com.example.SchemaB"));
        }
        _ => panic!("Expected CircularDependency error"),
    }
}

#[test]
fn test_missing_type_reference() {
    let missing_ref = schema_ref(Some("com.example"), "NonExistent");
    let program = create_test_program(
        "com.example",
        "User",
        vec![
            ("id", prim(PrimitiveType::String)),
            ("missing", Type::SchemaRef(missing_ref)),
        ],
    );

    let result = TypeTree::from_programs(&[program]);

    assert!(result.is_err());

    match result {
        Err(TypeTreeError::TypeNotFound { name }) => {
            assert_eq!(name, "com.example.NonExistent");
        }
        _ => panic!("Expected TypeNotFound error"),
    }
}

#[test]
fn test_complex_type_references() {
    let address_program = create_test_program(
        "com.example",
        "Address",
        vec![
            ("street", prim(PrimitiveType::String)),
            ("city", prim(PrimitiveType::String)),
        ],
    );

    let option_address = Type::Option(Box::new(TypeWithSpan {
        type_value: Type::SchemaRef(schema_ref(Some("com.example"), "Address")),
        span: Span::dummy(),
    }));

    let vec_address = Type::Vec(Box::new(TypeWithSpan {
        type_value: Type::SchemaRef(schema_ref(Some("com.example"), "Address")),
        span: Span::dummy(),
    }));

    let user_program = create_test_program(
        "com.example",
        "User",
        vec![
            ("id", prim(PrimitiveType::String)),
            ("name", prim(PrimitiveType::String)),
            ("optional_address", option_address),
            ("addresses", vec_address),
        ],
    );

    let result = TypeTree::from_programs(&[address_program, user_program]);
    assert!(result.is_ok());

    let tree = result.unwrap();

    let address_name = "com.example.Address";
    let user_name = "com.example.User";

    assert!(tree.get_type(address_name).is_some());
    assert!(tree.get_type(user_name).is_some());

    let user_deps = tree.get_dependencies(user_name).unwrap();
    assert!(user_deps.contains(address_name));
}

#[test]
fn test_import_validation() {
    let program_with_missing_import = Program {
        package: package_decl("com.example"),
        imports: vec![import_stmt("nonexistent/file.glass")],
        definitions: vec![],
        span: Span::dummy(),
    };

    let mut tree = TypeTree::new();
    tree.add_program_with_path(program_with_missing_import, "main.glass".to_string())
        .unwrap();

    let validation_result = tree.validate_imports();
    assert!(validation_result.is_err());

    let errors = validation_result.unwrap_err();
    assert_eq!(errors.len(), 1);

    match &errors[0] {
        ImportValidationError::FileNotFound { import_path, from_file, .. } => {
            assert_eq!(import_path, "nonexistent/file.glass");
            assert_eq!(from_file, "main.glass");
        }
        _ => panic!("Expected FileNotFound error"),
    }
}

#[test]
fn test_file_to_types_mapping() {
    let program = Program {
        package: package_decl("com.example"),
        imports: vec![],
        definitions: vec![
            Definition::Schema(schema_def("User", vec![field("name", prim(PrimitiveType::String))])),
            Definition::Enum(EnumDef {
                name: "Status".to_string(),
                variants: vec!["OK".to_string(), "ERROR".to_string()],
                span: Span::dummy(),
            }),
        ],
        span: Span::dummy(),
    };

    let programs_with_paths = vec![(program, Some("models.glass".to_string()))];

    let tree = TypeTree::from_programs_with_paths(&programs_with_paths).unwrap();

    assert!(tree.file_to_types.contains_key("models.glass"));
    let types = tree.file_to_types.get("models.glass").unwrap();
    assert_eq!(types.len(), 2);
    assert!(types.contains(&"com.example.User".to_string()));
    assert!(types.contains(&"com.example.Status".to_string()));

    assert_eq!(
        tree.find_file_for_type("com.example.User"),
        Some("models.glass".to_string())
    );
    assert_eq!(
        tree.find_file_for_type("com.example.Status"),
        Some("models.glass".to_string())
    );
    assert_eq!(tree.find_file_for_type("com.example.NonExistent"), None);
}

#[test]
fn test_circular_import_detection() {
    let program_a = Program {
        package: package_decl("com.example.a"),
        imports: vec![import_stmt("b/b.glass")],
        definitions: vec![],
        span: Span::dummy(),
    };

    let program_b = Program {
        package: package_decl("com.example.b"),
        imports: vec![import_stmt("a/a.glass")],
        definitions: vec![],
        span: Span::dummy(),
    };

    let mut tree = TypeTree::new();
    tree.add_program_with_path(program_a, "a/a.glass".to_string()).unwrap();
    tree.add_program_with_path(program_b, "b/b.glass".to_string()).unwrap();

    let validation_result = tree.validate_imports();
    assert!(validation_result.is_err());

    let errors = validation_result.unwrap_err();
    assert_eq!(errors.len(), 1);

    match &errors[0] {
        ImportValidationError::CircularImport { cycle } => {
            assert_eq!(cycle.len(), 3);
            assert!(cycle.contains(&"a/a.glass".to_string()));
            assert!(cycle.contains(&"b/b.glass".to_string()));
        }
        _ => panic!("Expected CircularImport error"),
    }
}

#[test]
fn mod_test_import_resolution() {
    let commons_program = Program {
        package: package_decl("com.example.commons"),
        imports: vec![],
        definitions: vec![Definition::Schema(schema_def(
            "PodcastInfo",
            vec![field("name", prim(PrimitiveType::String))],
        ))],
        span: Span::dummy(),
    };

    let user_program = Program {
        package: package_decl("com.example.user"),
        imports: vec![import_stmt("commons/podcast.glass")],
        definitions: vec![Definition::Schema(schema_def(
            "User",
            vec![field(
                "podcast",
                Type::SchemaRef(schema_ref(Some("com.example.commons"), "PodcastInfo")),
            )],
        ))],
        span: Span::dummy(),
    };

    let programs_with_paths = vec![
        (commons_program, Some("commons/podcast.glass".to_string())),
        (user_program, Some("user/user.glass".to_string())),
    ];

    let tree = TypeTree::from_programs_with_paths(&programs_with_paths).unwrap();

    assert!(tree.import_graph.contains_key("user/user.glass"));
    let imports = tree.import_graph.get("user/user.glass").unwrap();
    assert_eq!(imports, &vec!["commons/podcast.glass".to_string()]);

    assert!(tree.has_type("com.example.commons.PodcastInfo"));
    assert!(tree.has_type("com.example.user.User"));

    assert!(tree.is_type_accessible("commons/podcast.glass", "com.example.commons.PodcastInfo"));
    assert!(tree.is_type_accessible("user/user.glass", "com.example.commons.PodcastInfo"));
    assert!(!tree.is_type_accessible("commons/podcast.glass", "com.example.user.User"));
}

#[test]
fn test_get_programs_for_package() {
    let program1 = create_test_program(
        "com.example",
        "User",
        vec![
            ("id", prim(PrimitiveType::String)),
            ("name", prim(PrimitiveType::String)),
        ],
    );

    let program2 = create_test_enum_program("com.example", "Status", vec!["OK", "ERROR", "PENDING"]);

    let program3 = create_test_program(
        "com.other",
        "Product",
        vec![
            ("id", prim(PrimitiveType::String)),
            ("name", prim(PrimitiveType::String)),
        ],
    );

    let programs_with_paths = vec![
        (program1, Some("file1.glass".to_string())),
        (program2, Some("file2.glass".to_string())),
        (program3, Some("file3.glass".to_string())),
    ];

    let result = TypeTree::from_programs_with_paths(&programs_with_paths);
    assert!(result.is_ok());

    let tree = result.unwrap();

    let example_programs = tree.get_programs_for_package("com.example");
    assert_eq!(example_programs.len(), 2);

    let other_programs = tree.get_programs_for_package("com.other");
    assert_eq!(other_programs.len(), 1);

    assert_eq!(
        tree.get_package_for_file("file1.glass"),
        Some(&"com.example".to_string())
    );
    assert_eq!(
        tree.get_package_for_file("file2.glass"),
        Some(&"com.example".to_string())
    );
    assert_eq!(
        tree.get_package_for_file("file3.glass"),
        Some(&"com.other".to_string())
    );
    assert_eq!(tree.get_package_for_file("nonexistent.glass"), None);
}

#[test]
fn test_end_to_end_import_resolution() {
    let commons_program = Program {
        package: package_decl("com.example.commons"),
        imports: vec![],
        definitions: vec![Definition::Schema(schema_def(
            "PodcastInfo",
            vec![
                field("id", prim(PrimitiveType::String)),
                field("name", prim(PrimitiveType::String)),
                field("description", prim(PrimitiveType::String)),
            ],
        ))],
        span: Span::dummy(),
    };

    let user_program = Program {
        package: package_decl("com.example.user"),
        imports: vec![import_stmt("commons/podcast.glass")],
        definitions: vec![Definition::Schema(schema_def(
            "User",
            vec![
                field("id", prim(PrimitiveType::String)),
                field("name", prim(PrimitiveType::String)),
                field(
                    "favorite_podcast",
                    Type::SchemaRef(schema_ref(Some("com.example.commons"), "PodcastInfo")),
                ),
            ],
        ))],
        span: Span::dummy(),
    };

    let programs_with_paths = vec![
        (commons_program, Some("commons/podcast.glass".to_string())),
        (user_program, Some("user/user.glass".to_string())),
    ];

    let tree = TypeTree::from_programs_with_paths(&programs_with_paths).unwrap();

    assert!(tree.import_graph.contains_key("user/user.glass"));
    let imported_files = tree.import_graph.get("user/user.glass").unwrap();
    assert_eq!(imported_files, &vec!["commons/podcast.glass".to_string()]);

    assert!(tree.has_type("com.example.commons.PodcastInfo"));
    assert!(tree.has_type("com.example.user.User"));

    let user_deps = tree.get_dependencies("com.example.user.User").unwrap();
    assert!(user_deps.contains("com.example.commons.PodcastInfo"));

    assert!(tree.is_type_accessible("commons/podcast.glass", "com.example.commons.PodcastInfo"));
    assert!(tree.is_type_accessible("user/user.glass", "com.example.commons.PodcastInfo"));
    assert!(!tree.is_type_accessible("commons/podcast.glass", "com.example.user.User"));
}

#[test]
fn test_unqualified_type_resolution() {
    let commons_program = Program {
        package: package_decl("com.example.commons"),
        imports: vec![],
        definitions: vec![Definition::Schema(schema_def(
            "PodcastInfo",
            vec![
                field("id", prim(PrimitiveType::String)),
                field("name", prim(PrimitiveType::String)),
                field("description", prim(PrimitiveType::String)),
            ],
        ))],
        span: Span::dummy(),
    };

    let user_program = Program {
        package: package_decl("com.example.user"),
        imports: vec![import_stmt("commons/podcast.glass")],
        definitions: vec![Definition::Schema(schema_def(
            "User",
            vec![
                field("id", prim(PrimitiveType::String)),
                field("name", prim(PrimitiveType::String)),
                field("favorite_podcast", Type::SchemaRef(schema_ref(None, "PodcastInfo"))),
            ],
        ))],
        span: Span::dummy(),
    };

    let programs_with_paths = vec![
        (commons_program, Some("commons/podcast.glass".to_string())),
        (user_program, Some("user/user.glass".to_string())),
    ];

    let tree = TypeTree::from_programs_with_paths(&programs_with_paths).unwrap();

    let user_deps = tree.get_dependencies("com.example.user.User").unwrap();
    assert!(user_deps.contains("com.example.commons.PodcastInfo"));
}

#[test]
fn test_circular_import_detection_2() {
    let a_program = Program {
        package: package_decl("com.example.a"),
        imports: vec![import_stmt("b/b.glass")],
        definitions: vec![Definition::Schema(schema_def(
            "A",
            vec![
                field("id", prim(PrimitiveType::String)),
                field("b_ref", Type::SchemaRef(schema_ref(Some("com.example.b"), "B"))),
            ],
        ))],
        span: Span::dummy(),
    };

    let b_program = Program {
        package: package_decl("com.example.b"),
        imports: vec![import_stmt("a/a.glass")],
        definitions: vec![Definition::Schema(schema_def(
            "B",
            vec![
                field("id", prim(PrimitiveType::String)),
                field("a_ref", Type::SchemaRef(schema_ref(Some("com.example.a"), "A"))),
            ],
        ))],
        span: Span::dummy(),
    };

    let programs_with_paths = vec![
        (a_program, Some("a/a.glass".to_string())),
        (b_program, Some("b/b.glass".to_string())),
    ];

    let result = TypeTree::from_programs_with_paths(&programs_with_paths);
    assert!(result.is_err());

    match result {
        Err(TypeTreeError::CircularDependency { path }) => {
            assert!(path.contains("com.example.a.A"));
            assert!(path.contains("com.example.b.B"));
        }
        _ => panic!("Expected CircularDependency error"),
    }
}

#[test]
fn test_missing_import_validation() {
    let program = Program {
        package: package_decl("com.example.main"),
        imports: vec![import_stmt("nonexistent.glass")],
        definitions: vec![Definition::Schema(schema_def(
            "Main",
            vec![field("id", prim(PrimitiveType::String))],
        ))],
        span: Span::dummy(),
    };

    let mut tree = TypeTree::new();
    tree.add_program_with_path(program, "main.glass".to_string()).unwrap();

    let validation_result = tree.validate_imports();
    assert!(validation_result.is_err());

    let errors = validation_result.unwrap_err();
    assert_eq!(errors.len(), 1);

    match &errors[0] {
        ImportValidationError::FileNotFound { import_path, from_file, .. } => {
            assert_eq!(import_path, "nonexistent.glass");
            assert_eq!(from_file, "main.glass");
        }
        _ => panic!("Expected FileNotFound error"),
    }
}
