use slang_rs::{
    extract_modules, extract_ports, AstDocument, AstNode, ExtractError, Field, IntValue, Port,
    PortDir, Range, Type, Variant,
};

fn node() -> AstNode {
    AstNode::empty()
}

fn port(name: &str, dir: &str, ty: &str) -> AstNode {
    let mut n = node();
    n.kind = Some("Port".to_string());
    n.name = Some(name.to_string());
    n.direction = Some(dir.to_string());
    n.type_desc = Some(ty.to_string());
    n
}

fn instance(inst_name: &str, def_name: &str, body_members: Vec<AstNode>) -> AstNode {
    let mut body = node();
    body.name = Some(def_name.to_string());
    body.members = body_members;
    let mut n = node();
    n.kind = Some("Instance".to_string());
    n.name = Some(inst_name.to_string());
    n.body = Some(Box::new(body));
    n
}

fn doc(design_members: Vec<AstNode>) -> AstDocument {
    let mut design = node();
    design.members = design_members;
    AstDocument {
        design,
        definitions: vec![],
    }
}

fn logic(packed: Vec<Range>, unpacked: Vec<Range>) -> Type {
    Type::Logic {
        signed: false,
        packed_dimensions: packed,
        unpacked_dimensions: unpacked,
    }
}

#[test]
fn test_extract_ports() {
    let mut body = vec![
        port("a", "In", "logic"),
        port("b", "Out", "logic[1:0][11:0]$[0:111][1111:0]"),
        port("c", "Out", "logic[2:0]"),
        port("d", "In", "logic[3:0]"),
        port("e", "Out", "logic[4:0]"),
        port("f", "Out", "logic[5:0]"),
        port("g", "Out", "logic[6:0]"),
        port("h", "In", "logic[7:0]"),
        port("i", "Out", "logic signed[8:0]"),
        port("j", "In", "logic[9:0]"),
        port("k", "Out", "bit[10:0]"),
        port("l", "InOut", "logic[0:11]"),
        port("m", "Out", "logic[41:0]"),
    ];
    // A nested instantiation inside the body is not a port and is ignored.
    body.push(instance("bar_inst", "bar", vec![]));
    let ast = doc(vec![
        instance("foo", "foo", body),
        instance("baz", "baz", vec![]),
    ]);

    let definitions = extract_ports(&ast, false).unwrap();
    assert_eq!(
        definitions.get("foo").unwrap(),
        &vec![
            Port {
                dir: PortDir::Input,
                name: "a".to_string(),
                ty: logic(vec![], vec![]),
            },
            Port {
                dir: PortDir::Output,
                name: "b".to_string(),
                ty: logic(
                    vec![Range { msb: 1, lsb: 0 }, Range { msb: 11, lsb: 0 }],
                    vec![Range { msb: 0, lsb: 111 }, Range { msb: 1111, lsb: 0 }],
                ),
            },
            Port {
                dir: PortDir::Output,
                name: "c".to_string(),
                ty: logic(vec![Range { msb: 2, lsb: 0 }], vec![]),
            },
            Port {
                dir: PortDir::Input,
                name: "d".to_string(),
                ty: logic(vec![Range { msb: 3, lsb: 0 }], vec![]),
            },
            Port {
                dir: PortDir::Output,
                name: "e".to_string(),
                ty: logic(vec![Range { msb: 4, lsb: 0 }], vec![]),
            },
            Port {
                dir: PortDir::Output,
                name: "f".to_string(),
                ty: logic(vec![Range { msb: 5, lsb: 0 }], vec![]),
            },
            Port {
                dir: PortDir::Output,
                name: "g".to_string(),
                ty: logic(vec![Range { msb: 6, lsb: 0 }], vec![]),
            },
            Port {
                dir: PortDir::Input,
                name: "h".to_string(),
                ty: logic(vec![Range { msb: 7, lsb: 0 }], vec![]),
            },
            Port {
                dir: PortDir::Output,
                name: "i".to_string(),
                ty: Type::Logic {
                    signed: true,
                    packed_dimensions: vec![Range { msb: 8, lsb: 0 }],
                    unpacked_dimensions: vec![],
                },
            },
            Port {
                dir: PortDir::Input,
                name: "j".to_string(),
                ty: logic(vec![Range { msb: 9, lsb: 0 }], vec![]),
            },
            Port {
                dir: PortDir::Output,
                name: "k".to_string(),
                ty: logic(vec![Range { msb: 10, lsb: 0 }], vec![]),
            },
            Port {
                dir: PortDir::InOut,
                name: "l".to_string(),
                ty: logic(vec![Range { msb: 0, lsb: 11 }], vec![]),
            },
            Port {
                dir: PortDir::Output,
                name: "m".to_string(),
                ty: logic(vec![Range { msb: 41, lsb: 0 }], vec![]),
            },
        ]
    );
    assert_eq!(definitions.get("baz").unwrap(), &Vec::<Port>::new());
}

#[test]
fn test_union() {
    let ast = doc(vec![instance(
        "foo",
        "foo",
        vec![
            port("clk", "In", "logic"),
            port("bus", "In", "union{logic[7:0] data;logic valid;}bus_t"),
        ],
    )]);

    let definitions = extract_ports(&ast, true).unwrap();
    assert_eq!(
        definitions.get("foo").unwrap(),
        &vec![
            Port {
                dir: PortDir::Input,
                name: "clk".to_string(),
                ty: logic(vec![], vec![]),
            },
            Port {
                dir: PortDir::Input,
                name: "bus".to_string(),
                ty: Type::Union {
                    name: "bus_t".to_string(),
                    fields: vec![
                        Field {
                            name: "data".to_string(),
                            ty: logic(vec![Range { msb: 7, lsb: 0 }], vec![]),
                        },
                        Field {
                            name: "valid".to_string(),
                            ty: logic(vec![], vec![]),
                        },
                    ],
                    packed_dimensions: vec![],
                    unpacked_dimensions: vec![],
                },
            },
        ]
    );

    assert_eq!(
        definitions.get("foo").unwrap()[1].ty.width().unwrap(),
        8
    );
}

#[test]
fn test_struct() {
    let ast = doc(vec![instance(
        "foo",
        "foo",
        vec![
            port("clk", "In", "logic"),
            port("bus", "Out", "struct{logic[7:0] data;logic valid;}bus_t"),
        ],
    )]);

    let definitions = extract_ports(&ast, false).unwrap();
    assert_eq!(
        definitions.get("foo").unwrap(),
        &vec![
            Port {
                dir: PortDir::Input,
                name: "clk".to_string(),
                ty: logic(vec![], vec![]),
            },
            Port {
                dir: PortDir::Output,
                name: "bus".to_string(),
                ty: Type::Struct {
                    name: "bus_t".to_string(),
                    fields: vec![
                        Field {
                            name: "data".to_string(),
                            ty: logic(vec![Range { msb: 7, lsb: 0 }], vec![]),
                        },
                        Field {
                            name: "valid".to_string(),
                            ty: logic(vec![], vec![]),
                        },
                    ],
                    packed_dimensions: vec![],
                    unpacked_dimensions: vec![],
                },
            },
        ]
    );

    assert_eq!(
        definitions.get("foo").unwrap()[1].ty.width().unwrap(),
        9
    );
}

#[test]
fn test_struct_array() {
    let ast = doc(vec![instance(
        "foo",
        "foo",
        vec![port(
            "bus",
            "Out",
            "struct packed{logic[7:0] data;}bus_t[3:0]",
        )],
    )]);

    let definitions = extract_ports(&ast, false).unwrap();
    assert_eq!(
        definitions.get("foo").unwrap(),
        &vec![Port {
            dir: PortDir::Output,
            name: "bus".to_string(),
            ty: Type::Struct {
                name: "bus_t".to_string(),
                fields: vec![Field {
                    name: "data".to_string(),
                    ty: logic(vec![Range { msb: 7, lsb: 0 }], vec![]),
                }],
                packed_dimensions: vec![Range { msb: 3, lsb: 0 }],
                unpacked_dimensions: vec![],
            },
        }]
    );
}

#[test]
fn test_enum_array() {
    let ast = doc(vec![instance(
        "foo",
        "foo",
        vec![port(
            "color",
            "Out",
            "enum{RED=2'd0,GREEN=2'd1,BLUE=2'd2}color_t[3:0]",
        )],
    )]);

    let definitions = extract_ports(&ast, false).unwrap();
    assert_eq!(
        definitions.get("foo").unwrap(),
        &vec![Port {
            dir: PortDir::Output,
            name: "color".to_string(),
            ty: Type::Enum {
                name: "color_t".to_string(),
                variants: vec![
                    Variant {
                        name: "RED".to_string(),
                        width: 2,
                        value: IntValue::from_u64(0),
                    },
                    Variant {
                        name: "GREEN".to_string(),
                        width: 2,
                        value: IntValue::from_u64(1),
                    },
                    Variant {
                        name: "BLUE".to_string(),
                        width: 2,
                        value: IntValue::from_u64(2),
                    },
                ],
                packed_dimensions: vec![Range { msb: 3, lsb: 0 }],
                unpacked_dimensions: vec![],
            },
        }]
    );
}

#[test]
fn test_package() {
    let ast = doc(vec![instance(
        "foo",
        "foo",
        vec![
            port("clk", "In", "logic"),
            port(
                "bus",
                "Out",
                "struct{logic[7:0] data;logic valid;}mypack::bus_t",
            ),
            port("data", "Out", "enum{A=16'd1234,B=16'd2345}mypack::enum_t"),
        ],
    )]);

    let definitions = extract_ports(&ast, false).unwrap();
    assert_eq!(
        definitions.get("foo").unwrap(),
        &vec![
            Port {
                dir: PortDir::Input,
                name: "clk".to_string(),
                ty: logic(vec![], vec![]),
            },
            Port {
                dir: PortDir::Output,
                name: "bus".to_string(),
                ty: Type::Struct {
                    name: "mypack::bus_t".to_string(),
                    fields: vec![
                        Field {
                            name: "data".to_string(),
                            ty: logic(vec![Range { msb: 7, lsb: 0 }], vec![]),
                        },
                        Field {
                            name: "valid".to_string(),
                            ty: logic(vec![], vec![]),
                        },
                    ],
                    packed_dimensions: vec![],
                    unpacked_dimensions: vec![],
                },
            },
            Port {
                dir: PortDir::Output,
                name: "data".to_string(),
                ty: Type::Enum {
                    name: "mypack::enum_t".to_string(),
                    variants: vec![
                        Variant {
                            name: "A".to_string(),
                            width: 16,
                            value: IntValue::from_u64(1234),
                        },
                        Variant {
                            name: "B".to_string(),
                            width: 16,
                            value: IntValue::from_u64(2345),
                        },
                    ],
                    packed_dimensions: vec![],
                    unpacked_dimensions: vec![],
                },
            },
        ]
    );
}

#[test]
fn test_test_enum() {
    let ast = doc(vec![instance(
        "foo",
        "foo",
        vec![
            port("clk", "In", "logic"),
            port("data", "Out", "enum{A=16'd1234,B=16'd2345}enum_t"),
        ],
    )]);

    let definitions = extract_ports(&ast, false).unwrap();
    assert_eq!(
        definitions.get("foo").unwrap(),
        &vec![
            Port {
                dir: PortDir::Input,
                name: "clk".to_string(),
                ty: logic(vec![], vec![]),
            },
            Port {
                dir: PortDir::Output,
                name: "data".to_string(),
                ty: Type::Enum {
                    name: "enum_t".to_string(),
                    variants: vec![
                        Variant {
                            name: "A".to_string(),
                            width: 16,
                            value: IntValue::from_u64(1234),
                        },
                        Variant {
                            name: "B".to_string(),
                            width: 16,
                            value: IntValue::from_u64(2345),
                        },
                    ],
                    packed_dimensions: vec![],
                    unpacked_dimensions: vec![],
                },
            },
        ]
    );
}

#[test]
fn test_width_fn() {
    let inner = "struct packed{logic[7:0] a;logic[1:0][2:0] b;}inner_t";
    let color = "enum{RED=2'd0,GREEN=2'd1,BLUE=2'd2}color_t";
    let outer_body = format!(
        "struct packed{{{inner} c;{inner}[3:0] d;{inner}[4:0][4:0] e;{color} color;}}outer_t"
    );
    let out1_ty = format!("{outer_body}[6:0][7:0]");

    let ast = doc(vec![instance(
        "foo",
        "foo",
        vec![
            port("out0", "Out", &outer_body),
            port("out1", "Out", &out1_ty),
            port("in0", "In", "logic"),
        ],
    )]);

    let definitions = extract_ports(&ast, false).unwrap();
    let foo = definitions.get("foo").unwrap();
    assert_eq!(foo[0].ty.width().unwrap(), 422);
    assert_eq!(foo[1].ty.width().unwrap(), 23632);
    assert_eq!(foo[2].ty.width().unwrap(), 1);
}

#[test]
fn test_module_extract() {
    let mut defs = Vec::new();
    for (name, def_kind) in [
        ("my_pack", "Package"),
        ("my_intf", "Interface"),
        ("A", "Module"),
        ("B", "Module"),
        ("C", "Module"),
        ("D", "Module"),
    ] {
        let mut d = node();
        d.kind = Some("Definition".to_string());
        d.definition_kind = Some(def_kind.to_string());
        d.name = Some(name.to_string());
        defs.push(d);
    }
    let mut other = node();
    other.kind = Some("Typedef".to_string());
    other.name = Some("my_struct_t".to_string());
    defs.push(other);

    let ast = AstDocument {
        design: node(),
        definitions: defs,
    };

    let mut modules = extract_modules(&ast);
    modules.sort();
    assert_eq!(modules, vec!["A", "B", "C", "D"]);
}

#[test]
fn test_duplicate_definition() {
    let ast = doc(vec![
        instance("foo", "foo", vec![port("x", "In", "logic")]),
        instance("foo", "foo", vec![]),
    ]);
    assert_eq!(
        extract_ports(&ast, false),
        Err(ExtractError::DuplicateDefinition)
    );
    assert_eq!(
        extract_ports(&ast, true),
        Err(ExtractError::DuplicateDefinition)
    );
}

#[test]
fn test_interface_port_modes() {
    let mut iface = node();
    iface.kind = Some("InterfacePort".to_string());
    iface.name = Some("bus_if".to_string());
    let ast = doc(vec![instance(
        "foo",
        "foo",
        vec![port("a", "In", "logic"), iface, port("b", "Out", "logic[1:0]")],
    )]);

    let lenient = extract_ports(&ast, true).unwrap();
    let foo = lenient.get("foo").unwrap();
    assert_eq!(foo.len(), 2);
    assert_eq!(foo[0].name, "a");
    assert_eq!(foo[1].name, "b");

    assert_eq!(
        extract_ports(&ast, false),
        Err(ExtractError::UnsupportedConstruct)
    );
}

#[test]
fn test_error_sentinel_modes() {
    let ast = doc(vec![instance(
        "foo",
        "foo",
        vec![
            port("good", "In", "logic"),
            port("bad", "In", "<error>"),
        ],
    )]);

    let lenient = extract_ports(&ast, true).unwrap();
    assert_eq!(lenient.get("foo").unwrap().len(), 1);

    assert_eq!(
        extract_ports(&ast, false),
        Err(ExtractError::MalformedTypeDescriptor)
    );
}

#[test]
fn test_schema_violations() {
    // A body member without a kind is fatal in either mode.
    let ast = doc(vec![instance("foo", "foo", vec![node()])]);
    assert_eq!(extract_ports(&ast, true), Err(ExtractError::SchemaViolation));

    // A port with an unknown direction token is fatal even in lenient mode.
    let ast = doc(vec![instance(
        "foo",
        "foo",
        vec![port("a", "Sideways", "logic")],
    )]);
    assert_eq!(extract_ports(&ast, true), Err(ExtractError::SchemaViolation));

    // A port missing its type is fatal.
    let mut p = node();
    p.kind = Some("Port".to_string());
    p.name = Some("a".to_string());
    p.direction = Some("In".to_string());
    let ast = doc(vec![instance("foo", "foo", vec![p])]);
    assert_eq!(extract_ports(&ast, true), Err(ExtractError::SchemaViolation));
}

#[test]
fn test_negative_indices() {
    let ast = doc(vec![instance(
        "foo",
        "foo",
        vec![port("a", "In", "logic[-1:0]")],
    )]);

    let definitions = extract_ports(&ast, false).unwrap();
    assert_eq!(
        definitions.get("foo").unwrap(),
        &vec![Port {
            dir: PortDir::Input,
            name: "a".to_string(),
            ty: logic(vec![Range { msb: -1, lsb: 0 }], vec![]),
        }]
    );
    assert_eq!(definitions.get("foo").unwrap()[0].ty.width().unwrap(), 2);
}

#[test]
fn test_enum_conversion() {
    let ast = doc(vec![instance(
        "foo",
        "foo",
        vec![
            port("a", "Out", "enum{A=2'd0,B=2'd1,C=2'd2}enum_t"),
            port("b", "In", "logic[1:0]"),
        ],
    )]);

    let ports = extract_ports(&ast, false).unwrap();
    let foo = ports.get("foo").unwrap();
    assert_eq!(foo.len(), 2);
    assert_eq!(foo[0].name, "a");
    assert_eq!(foo[0].ty.width().unwrap(), 2);
    assert_eq!(foo[1].name, "b");
    assert_eq!(foo[1].ty.width().unwrap(), 2);
}
