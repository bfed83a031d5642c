use glass_resolver::ast::{
    Definition, ImportStmt, PackageDecl, PackagePath, PrimitiveType, Program, SchemaDef,
    SchemaField, SchemaRef, Span, Type, TypeWithSpan,
};
use glass_resolver::errors::TypeTreeError;
use glass_resolver::tree::TypeTree;

fn q_package(package_name: &str) -> Option<PackageDecl> {
    Some(PackageDecl {
        path: PackagePath {
            segments: package_name.split('.').map(String::from).collect(),
            span: Span::dummy(),
        },
        span: Span::dummy(),
    })
}

fn q_field(name: &str, ty: Type) -> SchemaField {
    SchemaField {
        name: name.to_string(),
        field_type: TypeWithSpan { type_value: ty, span: Span::dummy() },
        span: Span::dummy(),
    }
}

fn q_ref(package: Option<&str>, name: &str) -> Type {
    Type::SchemaRef(SchemaRef {
        package: package.map(|p| PackagePath {
            segments: p.split('.').map(String::from).collect(),
            span: Span::dummy(),
        }),
        name: name.to_string(),
        span: Span::dummy(),
    })
}

fn q_schema_program(package_name: &str, schema_name: &str, fields: Vec<(&str, Type)>) -> Program {
    Program {
        package: q_package(package_name),
        imports: vec![],
        definitions: vec![Definition::Schema(SchemaDef {
            name: schema_name.to_string(),
            fields: fields.into_iter().map(|(n, t)| q_field(n, t)).collect(),
            span: Span::dummy(),
        })],
        span: Span::dummy(),
    }
}

#[test]
fn test_basic_type_tree() {
    let program = q_schema_program(
        "com.example",
        "User",
        vec![
            ("id", Type::Primitive(PrimitiveType::String)),
            ("name", Type::Primitive(PrimitiveType::String)),
        ],
    );

    let type_tree = TypeTree::from_programs(&[program]).unwrap();

    assert!(type_tree.has_type("com.example.User"));

    let dependencies = type_tree.get_dependencies("com.example.User").unwrap();
    assert!(dependencies.is_empty());
}

#[test]
fn test_type_dependencies() {
    let user_program = q_schema_program(
        "com.example",
        "User",
        vec![
            ("id", Type::Primitive(PrimitiveType::String)),
            ("name", Type::Primitive(PrimitiveType::String)),
        ],
    );

    let post_program = q_schema_program(
        "com.example",
        "Post",
        vec![
            ("id", Type::Primitive(PrimitiveType::String)),
            ("author", q_ref(Some("com.example"), "User")),
        ],
    );

    let type_tree = TypeTree::from_programs(&[user_program, post_program]).unwrap();

    let dependencies = type_tree.get_dependencies("com.example.Post").unwrap();
    assert!(dependencies.contains("com.example.User"));

    let dependencies = type_tree.get_dependencies("com.example.User").unwrap();
    assert!(dependencies.is_empty());

    let dependents = type_tree.get_dependents("com.example.User");
    assert!(dependents.contains(&"com.example.Post".to_string()));
}

#[test]
fn mod_test_circular_dependency_detection() {
    let a_program = q_schema_program(
        "com.example",
        "A",
        vec![("b", q_ref(Some("com.example"), "B"))],
    );

    let b_program = q_schema_program(
        "com.example",
        "B",
        vec![("a", q_ref(Some("com.example"), "A"))],
    );

    let result = TypeTree::from_programs(&[a_program, b_program]);
    assert!(result.is_err());
    match result {
        Err(TypeTreeError::CircularDependency { .. }) => {}
        _ => panic!("Expected CircularDependency error"),
    }
}

#[test]
fn test_import_resolution() {
    let user_program = Program {
        package: q_package("com.example.user"),
        imports: vec![],
        definitions: vec![Definition::Schema(SchemaDef {
            name: "User".to_string(),
            fields: vec![
                q_field("id", Type::Primitive(PrimitiveType::String)),
                q_field("name", Type::Primitive(PrimitiveType::String)),
            ],
            span: Span::dummy(),
        })],
        span: Span::dummy(),
    };

    let post_program = Program {
        package: q_package("com.example.post"),
        imports: vec![ImportStmt { path: "user.glass".to_string(), span: Span::dummy() }],
        definitions: vec![Definition::Schema(SchemaDef {
            name: "Post".to_string(),
            fields: vec![
                q_field("id", Type::Primitive(PrimitiveType::String)),
                q_field("author", q_ref(Some("com.example.user"), "User")),
            ],
            span: Span::dummy(),
        })],
        span: Span::dummy(),
    };

    let type_tree = TypeTree::from_programs_with_paths(&[
        (user_program, Some("user.glass".to_string())),
        (post_program, Some("post.glass".to_string())),
    ])
    .unwrap();

    let dependencies = type_tree.get_dependencies("com.example.post.Post").unwrap();
    assert!(dependencies.contains("com.example.user.User"));

    assert!(type_tree.is_type_accessible("post.glass", "com.example.user.User"));
}

#[test]
fn test_parse_and_build_type_tree() {
    // the AST of a single source file declaring `User` and a `Post`
    // whose `author` field refers to it by its bare name
    let program = Program {
        package: q_package("com.example"),
        imports: vec![],
        definitions: vec![
            Definition::Schema(SchemaDef {
                name: "User".to_string(),
                fields: vec![
                    q_field("id", Type::Primitive(PrimitiveType::String)),
                    q_field("name", Type::Primitive(PrimitiveType::String)),
                ],
                span: Span::dummy(),
            }),
            Definition::Schema(SchemaDef {
                name: "Post".to_string(),
                fields: vec![
                    q_field("id", Type::Primitive(PrimitiveType::String)),
                    q_field("author", q_ref(None, "User")),
                ],
                span: Span::dummy(),
            }),
        ],
        span: Span::dummy(),
    };

    let type_tree = TypeTree::from_programs(&[program]).unwrap();

    assert!(type_tree.has_type("com.example.User"));
    assert!(type_tree.has_type("com.example.Post"));

    let dependencies = type_tree.get_dependencies("com.example.Post").unwrap();
    assert!(dependencies.contains("com.example.User"));
}

#[test]
fn test_get_all_affected_types() {
    let user_program = q_schema_program(
        "com.example",
        "User",
        vec![
            ("id", Type::Primitive(PrimitiveType::String)),
            ("name", Type::Primitive(PrimitiveType::String)),
        ],
    );

    let post_program = q_schema_program(
        "com.example",
        "Post",
        vec![
            ("id", Type::Primitive(PrimitiveType::String)),
            ("author", q_ref(Some("com.example"), "User")),
        ],
    );

    let comment_program = q_schema_program(
        "com.example",
        "Comment",
        vec![
            ("id", Type::Primitive(PrimitiveType::String)),
            ("post", q_ref(Some("com.example"), "Post")),
        ],
    );

    let type_tree =
        TypeTree::from_programs(&[user_program, post_program, comment_program]).unwrap();

    let affected_types = type_tree.get_all_affected_types("com.example.User");
    assert!(affected_types.contains("com.example.User"));
    assert!(affected_types.contains("com.example.Post"));
    assert!(affected_types.contains("com.example.Comment"));

    let affected_types = type_tree.get_all_affected_types("com.example.Post");
    assert!(affected_types.contains("com.example.Post"));
    assert!(affected_types.contains("com.example.Comment"));
    assert!(!affected_types.contains("com.example.User"));

    let affected_types = type_tree.get_all_affected_types("com.example.Comment");
    assert!(affected_types.contains("com.example.Comment"));
    assert!(!affected_types.contains("com.example.Post"));
    assert!(!affected_types.contains("com.example.User"));
}

#[test]
fn test_get_reachable_types() {
    let user_program = Program {
        package: q_package("com.example.user"),
        imports: vec![],
        definitions: vec![
            Definition::Schema(SchemaDef {
                name: "User".to_string(),
                fields: vec![
                    q_field("id", Type::Primitive(PrimitiveType::String)),
                    q_field("name", Type::Primitive(PrimitiveType::String)),
                ],
                span: Span::dummy(),
            }),
            Definition::Schema(SchemaDef {
                name: "Profile".to_string(),
                fields: vec![
                    q_field("bio", Type::Primitive(PrimitiveType::String)),
                    q_field("user", q_ref(Some("com.example.user"), "User")),
                ],
                span: Span::dummy(),
            }),
        ],
        span: Span::dummy(),
    };

    let post_program = Program {
        package: q_package("com.example.post"),
        imports: vec![ImportStmt { path: "user.glass".to_string(), span: Span::dummy() }],
        definitions: vec![Definition::Schema(SchemaDef {
            name: "Post".to_string(),
            fields: vec![
                q_field("id", Type::Primitive(PrimitiveType::String)),
                q_field("author", q_ref(Some("com.example.user"), "User")),
            ],
            span: Span::dummy(),
        })],
        span: Span::dummy(),
    };

    let type_tree = TypeTree::from_programs_with_paths(&[
        (user_program, Some("user.glass".to_string())),
        (post_program, Some("post.glass".to_string())),
    ])
    .unwrap();

    let reachable_types = type_tree.get_reachable_types("user.glass");
    assert!(reachable_types.contains("com.example.user.User"));
    assert!(reachable_types.contains("com.example.user.Profile"));
    assert!(!reachable_types.contains("com.example.post.Post"));

    let reachable_types = type_tree.get_reachable_types("post.glass");
    assert!(reachable_types.contains("com.example.post.Post"));
    assert!(reachable_types.contains("com.example.user.User"));
    assert!(reachable_types.contains("com.example.user.Profile"));
}
