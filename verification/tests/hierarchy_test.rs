use slang_rs::{extract_hierarchy, get_default_genblk_name, AstDocument, AstNode, Instance};

fn node() -> AstNode {
    AstNode::empty()
}

fn instance(inst_name: &str, def_name: &str, body_members: Vec<AstNode>) -> AstNode {
    let mut body = node();
    body.name = Some(def_name.to_string());
    body.members = body_members;
    let mut n = node();
    n.kind = Some("Instance".to_string());
    n.name = Some(inst_name.to_string());
    n.body = Some(Box::new(body));
    n
}

fn gen_block(name: &str, index: u64, uninstantiated: bool, members: Vec<AstNode>) -> AstNode {
    let mut n = node();
    n.kind = Some("GenerateBlock".to_string());
    n.name = Some(name.to_string());
    n.construct_index = Some(index);
    n.is_uninstantiated = Some(uninstantiated);
    n.members = members;
    n
}

fn gen_array(name: &str, index: u64, members: Vec<AstNode>) -> AstNode {
    let mut n = node();
    n.kind = Some("GenerateBlockArray".to_string());
    n.name = Some(name.to_string());
    n.construct_index = Some(index);
    n.members = members;
    n
}

fn array_element(index: u64, members: Vec<AstNode>) -> AstNode {
    let mut n = node();
    n.kind = Some("GenerateBlock".to_string());
    n.name = Some("".to_string());
    n.construct_index = Some(index);
    n.is_uninstantiated = Some(false);
    n.members = members;
    n
}

fn doc(design_members: Vec<AstNode>) -> AstDocument {
    let mut design = node();
    design.members = design_members;
    AstDocument {
        design,
        definitions: vec![],
    }
}

fn leaf(def_name: &str, inst_name: &str, hier_prefix: &str) -> Instance {
    Instance {
        def_name: def_name.to_string(),
        inst_name: inst_name.to_string(),
        hier_prefix: hier_prefix.to_string(),
        contents: vec![],
    }
}

#[test]
fn test_extract_hierarchy() {
    let ast = doc(vec![instance(
        "A",
        "A",
        vec![instance(
            "b0",
            "B",
            vec![instance("c0", "C", vec![]), instance("c1", "C", vec![])],
        )],
    )]);

    let hierarchy = extract_hierarchy(&ast);

    let expected = Instance {
        def_name: "A".to_string(),
        inst_name: "A".to_string(),
        hier_prefix: "".to_string(),
        contents: vec![Instance {
            def_name: "B".to_string(),
            inst_name: "b0".to_string(),
            hier_prefix: "".to_string(),
            contents: vec![leaf("C", "c0", ""), leaf("C", "c1", "")],
        }],
    };

    assert_eq!(hierarchy.len(), 1);
    assert_eq!(hierarchy.get("A").unwrap(), &expected);
}

#[test]
fn test_extract_hierarchy_genblk() {
    // The scope `top` declares a parameter named `genblk2`, so the second
    // anonymous generate block (construct index 2) cannot take its default
    // name and is renamed `genblk02`.
    let mut genblk2_param = node();
    genblk2_param.kind = Some("Parameter".to_string());
    genblk2_param.name = Some("genblk2".to_string());
    genblk2_param.value = Some("0".to_string());

    let top_members = vec![
        genblk2_param,
        // First if-generate: the taken branch holds `B b()`.
        gen_block("", 1, true, vec![instance("a", "A", vec![])]),
        gen_block("", 1, false, vec![instance("b", "B", vec![])]),
        // Second if-generate: collides with the parameter `genblk2`.
        gen_block("", 2, true, vec![instance("a", "A", vec![])]),
        gen_block("", 2, false, vec![instance("b", "B", vec![])]),
        // A for-generate explicitly named g1.
        gen_array(
            "g1",
            3,
            vec![array_element(
                0,
                vec![gen_block("", 1, false, vec![instance("a", "A", vec![])])],
            )],
        ),
        // An anonymous for-generate: fourth construct in scope.
        gen_array(
            "",
            4,
            vec![array_element(
                0,
                vec![gen_block("", 1, false, vec![instance("a", "A", vec![])])],
            )],
        ),
        // A fifth anonymous if-generate.
        gen_block("", 5, false, vec![instance("a", "A", vec![])]),
    ];

    let ast = doc(vec![instance("top", "top", top_members)]);
    let hierarchy = extract_hierarchy(&ast);

    let expected = Instance {
        def_name: "top".to_string(),
        inst_name: "top".to_string(),
        hier_prefix: "".to_string(),
        contents: vec![
            leaf("B", "b", ".genblk1"),
            leaf("B", "b", ".genblk02"),
            leaf("A", "a", ".g1[0].genblk1"),
            leaf("A", "a", ".genblk4[0].genblk1"),
            leaf("A", "a", ".genblk5"),
        ],
    };

    assert_eq!(hierarchy.get("top").unwrap(), &expected);
}

#[test]
fn test_gen_array_element_indices() {
    // Elements with construct indices 0 and 1 get path segments g1[0], g1[1].
    let ast = doc(vec![instance(
        "top",
        "top",
        vec![gen_array(
            "g1",
            1,
            vec![
                array_element(0, vec![instance("u0", "M", vec![])]),
                array_element(1, vec![instance("u1", "M", vec![])]),
            ],
        )],
    )]);

    let hierarchy = extract_hierarchy(&ast);
    let top = hierarchy.get("top").unwrap();
    assert_eq!(
        top.contents,
        vec![leaf("M", "u0", ".g1[0]"), leaf("M", "u1", ".g1[1]")]
    );
}

#[test]
fn test_uninstantiated_block_skipped() {
    let ast = doc(vec![instance(
        "top",
        "top",
        vec![gen_block("cfg", 1, true, vec![instance("u", "M", vec![])])],
    )]);
    let hierarchy = extract_hierarchy(&ast);
    assert_eq!(hierarchy.get("top").unwrap().contents, vec![]);
}

#[test]
fn test_anonymous_instance_skipped() {
    let mut anon = instance("", "M", vec![]);
    anon.name = Some("".to_string());
    let ast = doc(vec![instance("top", "top", vec![anon])]);
    let hierarchy = extract_hierarchy(&ast);
    assert_eq!(hierarchy.get("top").unwrap().contents, vec![]);
}

#[test]
fn test_default_genblk_name() {
    let empty: Vec<String> = vec![];
    assert_eq!(get_default_genblk_name(7, &empty), "genblk7");

    let table = vec!["genblk2".to_string()];
    assert_eq!(get_default_genblk_name(2, &table), "genblk02");

    let table = vec!["genblk2".to_string(), "genblk02".to_string()];
    assert_eq!(get_default_genblk_name(2, &table), "genblk002");

    let table = vec!["genblk12".to_string()];
    assert_eq!(get_default_genblk_name(12, &table), "genblk012");
}

#[test]
fn test_hierarchy_duplicate_def_name() {
    // Two top-level instances sharing a definition name: the hierarchy
    // table keeps the later tree under that name, while the port
    // extraction treats a repeated module name as a fatal duplicate.
    let ast = doc(vec![
        instance("u0", "M", vec![]),
        instance("u1", "M", vec![]),
    ]);
    let hierarchy = extract_hierarchy(&ast);
    assert_eq!(hierarchy.len(), 1);
    assert_eq!(hierarchy.get("M").unwrap().inst_name, "u1");
}
