use slang_rs::{
    extract_hierarchy, extract_packages, extract_ports, insert_to_vacant, AstDocument, AstNode,
    Instance, Port, PortDir, StrMap, Type,
};

fn node() -> AstNode {
    AstNode::empty()
}

fn port(name: &str, dir: &str, ty: &str) -> AstNode {
    let mut n = node();
    n.kind = Some("Port".to_string());
    n.name = Some(name.to_string());
    n.direction = Some(dir.to_string());
    n.type_desc = Some(ty.to_string());
    n
}

fn instance(inst_name: &str, def_name: &str, body_members: Vec<AstNode>) -> AstNode {
    let mut body = node();
    body.name = Some(def_name.to_string());
    body.members = body_members;
    let mut n = node();
    n.kind = Some("Instance".to_string());
    n.name = Some(inst_name.to_string());
    n.body = Some(Box::new(body));
    n
}

#[test]
fn test_extract_all() {
    // One dump serves all three extractions: module A with ports x and y
    // instantiating B, and a package mypkg with one parameter.
    let mut pkg = node();
    pkg.kind = Some("Package".to_string());
    pkg.name = Some("mypkg".to_string());
    let mut param = node();
    param.kind = Some("Parameter".to_string());
    param.name = Some("myparam".to_string());
    param.value = Some("42".to_string());
    pkg.members = vec![param];
    let mut unit = node();
    unit.kind = Some("CompilationUnit".to_string());
    unit.members = vec![pkg];

    let mut design = node();
    design.members = vec![
        unit,
        instance(
            "A",
            "A",
            vec![
                port("x", "In", "logic"),
                port("y", "Out", "logic"),
                instance("b", "B", vec![]),
            ],
        ),
    ];
    let ast = AstDocument {
        design,
        definitions: vec![],
    };

    // check ports

    let ports = extract_ports(&ast, false).unwrap();
    assert_eq!(ports.len(), 1);
    let scalar = Type::Logic {
        signed: false,
        packed_dimensions: vec![],
        unpacked_dimensions: vec![],
    };
    assert_eq!(
        ports.get("A").unwrap(),
        &vec![
            Port {
                name: "x".to_string(),
                dir: PortDir::Input,
                ty: scalar,
            },
            Port {
                name: "y".to_string(),
                dir: PortDir::Output,
                ty: Type::Logic {
                    signed: false,
                    packed_dimensions: vec![],
                    unpacked_dimensions: vec![],
                },
            },
        ]
    );

    // check hierarchy

    let hierarchy = extract_hierarchy(&ast);
    let expected_hierarchy = Instance {
        def_name: "A".to_string(),
        inst_name: "A".to_string(),
        hier_prefix: "".to_string(),
        contents: vec![Instance {
            def_name: "B".to_string(),
            inst_name: "b".to_string(),
            hier_prefix: "".to_string(),
            contents: vec![],
        }],
    };
    assert_eq!(hierarchy.len(), 1);
    assert_eq!(hierarchy.get("A").unwrap(), &expected_hierarchy);

    // check packages

    let packages = extract_packages(&ast);
    assert_eq!(packages.len(), 1);
    let mypkg = packages.get("mypkg").unwrap();
    assert_eq!(mypkg.name, "mypkg");
    assert_eq!(mypkg.parameters.len(), 1);
    assert_eq!(mypkg.get("myparam").unwrap().value, "42");
}

#[test]
fn test_insert_to_vacant() {
    let mut map: StrMap<u32> = StrMap::new();
    assert!(insert_to_vacant(&mut map, "a".to_string(), 1).is_ok());
    assert!(insert_to_vacant(&mut map, "b".to_string(), 2).is_ok());
    assert_eq!(map.get("a"), Some(&1));
    assert_eq!(map.get("b"), Some(&2));
    assert_eq!(map.get("c"), None);

    let err = insert_to_vacant(&mut map, "a".to_string(), 3).unwrap_err();
    assert_eq!(err, "Duplicate insertion");
    // The rejected insertion left the map unchanged.
    assert_eq!(map.get("a"), Some(&1));
    assert_eq!(map.len(), 2);
}

#[test]
fn test_port_dir_from_str() {
    assert_eq!(PortDir::from_str("In"), Ok(PortDir::Input));
    assert_eq!(PortDir::from_str("Out"), Ok(PortDir::Output));
    assert_eq!(PortDir::from_str("InOut"), Ok(PortDir::InOut));
    assert!(PortDir::from_str("inout").is_err());
    assert!(PortDir::from_str("").is_err());
}

#[test]
fn test_push_options_to_ignore_protected() {
    let mut args = vec!["--ast-json", "out.json"];
    slang_rs::push_options_to_ignore_protected(&mut args);
    assert_eq!(args.len(), 18);
    assert_eq!(args[0], "--ast-json");
    assert_eq!(args[1], "out.json");
    assert_eq!(args[2], "--enable-legacy-protect");
    assert_eq!(args[17], "-Wno-unknown-protect-option");
    assert!(args.contains(&"-Wno-protected-envelope"));
}

#[test]
fn test_slang_config_default() {
    let cfg = slang_rs::SlangConfig::default();
    assert!(cfg.sources.is_empty());
    assert!(cfg.tops.is_empty());
    assert!(cfg.ignore_unknown_modules);
    assert!(cfg.ignore_protected);
    assert!(cfg.timescale.is_none());
}
