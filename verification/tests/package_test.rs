use num_bigint::BigInt;
use slang_rs::{extract_packages, parse_type_definition, AstDocument, AstNode};

fn node() -> AstNode {
    AstNode::empty()
}

fn parameter(name: &str, value: &str) -> AstNode {
    let mut n = node();
    n.kind = Some("Parameter".to_string());
    n.name = Some(name.to_string());
    n.value = Some(value.to_string());
    n
}

fn package(name: &str, members: Vec<AstNode>) -> AstNode {
    let mut n = node();
    n.kind = Some("Package".to_string());
    n.name = Some(name.to_string());
    n.members = members;
    n
}

fn compilation_unit(members: Vec<AstNode>) -> AstNode {
    let mut n = node();
    n.kind = Some("CompilationUnit".to_string());
    n.members = members;
    n
}

fn doc(design_members: Vec<AstNode>) -> AstDocument {
    let mut design = node();
    design.members = design_members;
    AstDocument {
        design,
        definitions: vec![],
    }
}

#[test]
fn test_extract_packages() {
    let ast = doc(vec![compilation_unit(vec![
        package("pkg_a", vec![parameter("a", "22")]),
        package(
            "pkg_b",
            vec![
                parameter("b", "123"),
                parameter("c", "145"),
                parameter("my_t", "logic[33:22]"),
            ],
        ),
    ])]);

    let pkgs = extract_packages(&ast);
    assert_eq!(pkgs.len(), 2);

    let pkg_a = pkgs.get("pkg_a").unwrap();
    assert_eq!(pkg_a.name, "pkg_a");
    assert_eq!(pkg_a.parameters.len(), 1);
    let a = pkg_a.get("a").unwrap();
    assert_eq!(a.name, "a");
    assert_eq!(a.value, "22");

    let pkg_b = pkgs.get("pkg_b").unwrap();
    assert_eq!(pkg_b.name, "pkg_b");
    assert_eq!(pkg_b.parameters.len(), 3);
    assert_eq!(pkg_b.get("b").unwrap().value, "123");
    assert_eq!(pkg_b.get("c").unwrap().value, "145");
    assert_eq!(pkg_b.get("my_t").unwrap().value, "logic[33:22]");

    assert_eq!(
        pkg_a.get("a").unwrap().parse::<BigInt, _>().unwrap(),
        BigInt::from(22)
    );
    assert_eq!(pkg_b.get("b").unwrap().parse::<i32, _>().unwrap(), 123);
    assert_eq!(pkg_b.get("c").unwrap().parse::<u64, _>().unwrap(), 145u64);
}

#[test]
fn test_parameter_parse_failure() {
    let p = slang_rs::Parameter {
        name: "t".to_string(),
        value: "logic[3:0]".to_string(),
    };
    assert!(p.parse::<i64, _>().is_err());
}

#[test]
fn test_extract_type_alias() {
    let my_struct = "struct packed{logic[2:0] a;logic[1:0] b;logic c;}my_struct_t";
    let my_enum = "enum{Red=2'd0,Green=2'd1,Blue=2'd2}my_enum_t";
    let my_array = "struct packed{logic[2:0] a;logic[1:0] b;logic c;}my_struct_t[3:0]";

    let ast = doc(vec![compilation_unit(vec![package(
        "my_pkg",
        vec![
            parameter("my_struct_t", my_struct),
            parameter("my_enum_t", my_enum),
            parameter("my_array_t", my_array),
        ],
    )])]);

    let pkgs = extract_packages(&ast);
    let my_pkg = pkgs.get("my_pkg").unwrap();

    assert_eq!(
        parse_type_definition(&my_pkg.get("my_struct_t").unwrap().value)
            .unwrap()
            .width()
            .unwrap(),
        6
    );
    assert_eq!(
        parse_type_definition(&my_pkg.get("my_enum_t").unwrap().value)
            .unwrap()
            .width()
            .unwrap(),
        2
    );
    assert_eq!(
        parse_type_definition(&my_pkg.get("my_array_t").unwrap().value)
            .unwrap()
            .width()
            .unwrap(),
        24
    );
}

#[test]
fn test_packages_outside_units_ignored() {
    // A package node directly among the design members (not inside a
    // compilation unit) is not collected.
    let ast = doc(vec![package("stray", vec![parameter("p", "1")])]);
    let pkgs = extract_packages(&ast);
    assert_eq!(pkgs.len(), 0);
}

#[test]
fn test_parameter_overwrite() {
    // A later parameter under the same name replaces the earlier one.
    let ast = doc(vec![compilation_unit(vec![package(
        "p",
        vec![parameter("x", "1"), parameter("x", "2")],
    )])]);
    let pkgs = extract_packages(&ast);
    let p = pkgs.get("p").unwrap();
    assert_eq!(p.parameters.len(), 1);
    assert_eq!(p.get("x").unwrap().value, "2");
}
