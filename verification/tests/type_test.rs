use slang_rs::{parse_type_definition, Field, IntValue, Range, Type, Variant, WidthError};

#[test]
fn type_extract_test_enum() {
    let type_def = parse_type_definition("enum{a=42'd1,b=-42'sd2,c=42'd3}my_enum").unwrap();
    assert_eq!(
        type_def,
        Type::Enum {
            name: "my_enum".to_string(),
            variants: vec![
                Variant {
                    name: "a".to_string(),
                    width: 42,
                    value: IntValue::from_u64(1),
                },
                Variant {
                    name: "b".to_string(),
                    width: 42,
                    value: IntValue::from_i64(-2),
                },
                Variant {
                    name: "c".to_string(),
                    width: 42,
                    value: IntValue::from_u64(3),
                },
            ],
            packed_dimensions: vec![],
            unpacked_dimensions: vec![],
        }
    );
}

#[test]
fn test_int() {
    let type_def = parse_type_definition("int").unwrap();
    assert_eq!(
        type_def,
        Type::Logic {
            signed: true,
            packed_dimensions: vec![Range { msb: 31, lsb: 0 }],
            unpacked_dimensions: vec![],
        }
    );
}

#[test]
fn test_int_unsigned() {
    let type_def = parse_type_definition("int unsigned").unwrap();
    assert_eq!(
        type_def,
        Type::Logic {
            signed: false,
            packed_dimensions: vec![Range { msb: 31, lsb: 0 }],
            unpacked_dimensions: vec![],
        }
    );
}

#[test]
fn test_int_long() {
    let type_def = parse_type_definition("longint").unwrap();
    assert_eq!(
        type_def,
        Type::Logic {
            signed: true,
            packed_dimensions: vec![Range { msb: 63, lsb: 0 }],
            unpacked_dimensions: vec![],
        }
    );
}

#[test]
fn test_int_long_unsigned() {
    let type_def = parse_type_definition("longint unsigned").unwrap();
    assert_eq!(
        type_def,
        Type::Logic {
            signed: false,
            packed_dimensions: vec![Range { msb: 63, lsb: 0 }],
            unpacked_dimensions: vec![],
        }
    );
}

#[test]
fn test_int_width() {
    assert_eq!(parse_type_definition("int").unwrap().width().unwrap(), 32);
    assert_eq!(
        parse_type_definition("longint unsigned").unwrap().width().unwrap(),
        64
    );
}

#[test]
fn test_logic_width() {
    let ty = Type::Logic {
        signed: false,
        packed_dimensions: vec![Range { msb: 7, lsb: 0 }],
        unpacked_dimensions: vec![],
    };
    assert_eq!(ty.width().unwrap(), 8);

    let ty = Type::Logic {
        signed: false,
        packed_dimensions: vec![],
        unpacked_dimensions: vec![Range { msb: 3, lsb: 0 }],
    };
    assert_eq!(ty.width(), Err(WidthError::HasUnpackedDimensions));
}

#[test]
fn test_enum_values() {
    let type_def = parse_type_definition("enum{a=8'd1,b=-8'sd2,c=8'd3}my_enum").unwrap();
    match type_def {
        Type::Enum { ref variants, .. } => {
            assert_eq!(variants.len(), 3);
            assert_eq!(variants[0].value, IntValue::from_i64(1));
            assert_eq!(variants[1].value, IntValue::from_i64(-2));
            assert_eq!(variants[2].value, IntValue::from_i64(3));
            assert!(variants.iter().all(|v| v.width == 8));
        }
        _ => panic!("expected an enum"),
    }
    assert_eq!(type_def.width().unwrap(), 8);
}

#[test]
fn test_enum_width_errors() {
    let empty = Type::Enum {
        name: "e".to_string(),
        variants: vec![],
        packed_dimensions: vec![],
        unpacked_dimensions: vec![],
    };
    assert_eq!(empty.width(), Err(WidthError::EmptyEnum));

    let mixed = Type::Enum {
        name: "e".to_string(),
        variants: vec![
            Variant {
                name: "a".to_string(),
                width: 8,
                value: IntValue::from_u64(0),
            },
            Variant {
                name: "b".to_string(),
                width: 9,
                value: IntValue::from_u64(1),
            },
        ],
        packed_dimensions: vec![],
        unpacked_dimensions: vec![],
    };
    assert_eq!(mixed.width(), Err(WidthError::InconsistentVariantWidths));
}

#[test]
fn test_nested_struct() {
    let type_def = parse_type_definition(
        "struct packed{struct packed{logic a; logic[3:0][2:0] b;}inner_t inner; logic[13:0] c;}mega_t[7:0][15:0]",
    )
    .unwrap();
    match type_def {
        Type::Struct {
            ref name,
            ref fields,
            ..
        } => {
            assert_eq!(name, "mega_t");
            assert_eq!(fields.len(), 2);
            assert_eq!(fields[0].name, "inner");
            assert_eq!(fields[0].ty.width().unwrap(), 13);
            assert_eq!(fields[1].name, "c");
        }
        _ => panic!("expected a struct"),
    }
    assert_eq!(type_def.width().unwrap(), 3456);
}

#[test]
fn test_union_width() {
    let ty = Type::Union {
        name: "u".to_string(),
        fields: vec![
            Field {
                name: "a".to_string(),
                ty: Type::Logic {
                    signed: false,
                    packed_dimensions: vec![Range { msb: 7, lsb: 0 }],
                    unpacked_dimensions: vec![],
                },
            },
            Field {
                name: "b".to_string(),
                ty: Type::Logic {
                    signed: false,
                    packed_dimensions: vec![Range { msb: 2, lsb: 0 }],
                    unpacked_dimensions: vec![],
                },
            },
        ],
        packed_dimensions: vec![Range { msb: 1, lsb: 0 }],
        unpacked_dimensions: vec![],
    };
    assert_eq!(ty.width().unwrap(), 16);
}

#[test]
fn test_parse_errors() {
    assert!(parse_type_definition("<error>").is_err());
    assert!(parse_type_definition("").is_err());
    assert!(parse_type_definition("wire").is_err());
    assert!(parse_type_definition("logic[1:2").is_err());
    assert!(parse_type_definition("logic$").is_err());
    assert!(parse_type_definition("enum{}e").is_err());
    assert!(parse_type_definition("logic[99999999999:0]").is_err());
    assert!(parse_type_definition("enum{a=99999999999999999999999999'd1}e").is_err());
    assert!(parse_type_definition("logic extra").is_err());
    let err = parse_type_definition("notatype").unwrap_err();
    assert_eq!(err.descriptor, "notatype");
}

#[test]
fn test_parse_whitespace_and_dollar() {
    let a = parse_type_definition("  logic [1:0] [11:0] $ [0:111] [1111:0]  ").unwrap();
    let b = parse_type_definition("logic[1:0][11:0]$[0:111][1111:0]").unwrap();
    assert_eq!(a, b);
    assert_eq!(
        a,
        Type::Logic {
            signed: false,
            packed_dimensions: vec![Range { msb: 1, lsb: 0 }, Range { msb: 11, lsb: 0 }],
            unpacked_dimensions: vec![Range { msb: 0, lsb: 111 }, Range { msb: 1111, lsb: 0 }],
        }
    );
}

#[test]
fn test_int_value_forms() {
    assert_eq!(IntValue::from_u64(0), IntValue::from_i64(0));
    assert_eq!(IntValue::from_u64(1234), IntValue::from_i64(1234));
    assert_ne!(IntValue::from_i64(-5), IntValue::from_i64(5));
    assert_eq!(IntValue::from_digits(true, vec![0, 0]), IntValue::from_u64(0));
    assert_eq!(
        IntValue::from_digits(false, vec![0, 4, 2]),
        IntValue::from_u64(42)
    );
    assert_eq!(
        IntValue::from_digits(true, vec![4, 2]),
        IntValue::from_i64(-42)
    );
}

#[test]
fn test_union_packed() {
    let t = parse_type_definition("union packed{logic[7:0] w;logic[7:0] b;}u_t").unwrap();
    match t {
        Type::Union { ref name, ref fields, .. } => {
            assert_eq!(name, "u_t");
            assert_eq!(fields.len(), 2);
        }
        _ => panic!("expected a union"),
    }
    assert_eq!(t.width().unwrap(), 8);
}

#[test]
fn test_signed_positive_variant() {
    let t = parse_type_definition("enum{a=8'sd5}e_t").unwrap();
    match t {
        Type::Enum { ref variants, .. } => {
            assert_eq!(variants.len(), 1);
            assert_eq!(variants[0].width, 8);
            assert_eq!(variants[0].value, IntValue::from_i64(5));
        }
        _ => panic!("expected an enum"),
    }
}

#[test]
fn test_int_with_extra_dims() {
    // An explicit packed dimension on an `int` keeps the implied [31:0]
    // as the trailing dimension.
    let t = parse_type_definition("int[3:0]").unwrap();
    assert_eq!(
        t,
        Type::Logic {
            signed: true,
            packed_dimensions: vec![Range { msb: 3, lsb: 0 }, Range { msb: 31, lsb: 0 }],
            unpacked_dimensions: vec![],
        }
    );
}

#[test]
fn test_anonymous_struct_name() {
    let t = parse_type_definition("struct packed{logic a;}").unwrap();
    match t {
        Type::Struct { ref name, ref fields, .. } => {
            assert_eq!(name, "");
            assert_eq!(fields.len(), 1);
        }
        _ => panic!("expected a struct"),
    }
}
