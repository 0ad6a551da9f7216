use slicec_cs::assembler::CodeBlock;
use slicec_cs::ast::CsOptions;
use slicec_cs::ast::Entity;
use slicec_cs::ast::EnumDef;
use slicec_cs::ast::Enumerator;
use slicec_cs::ast::Field;
use slicec_cs::ast::InterfaceDef;
use slicec_cs::ast::ModuleDecl;
use slicec_cs::ast::Operation;
use slicec_cs::ast::Param;
use slicec_cs::ast::Direction;
use slicec_cs::ast::Primitive;
use slicec_cs::ast::SliceFile;
use slicec_cs::ast::StructDef;
use slicec_cs::ast::ClassDef;
use slicec_cs::ast::TypeRef;
use slicec_cs::codec::decode_enum;
use slicec_cs::codec::decode_fields;
use slicec_cs::codec::encode_fields;
use slicec_cs::codec::DecodeError;
use slicec_cs::codec::Value;
use slicec_cs::generators::generate_class;
use slicec_cs::generators::generate_dispatch;
use slicec_cs::generators::generate_enum;
use slicec_cs::generators::generate_from_slice_file;
use slicec_cs::generators::generate_proxy;
use slicec_cs::generators::generate_struct;
use slicec_cs::ops::dispatch_lookup;
use slicec_cs::ops::DispatchFault;
use slicec_cs::text::dec_string;

fn int32() -> TypeRef {
    TypeRef::Prim(Primitive::Int32)
}

fn string_ty() -> TypeRef {
    TypeRef::Prim(Primitive::Str)
}

fn req(name: &str, ty: TypeRef) -> Field {
    Field { name: name.to_string(), ty, tag: None }
}

fn tagged(name: &str, ty: TypeRef, tag: u64) -> Field {
    Field { name: name.to_string(), ty: TypeRef::Optional(Box::new(ty)), tag: Some(tag) }
}

fn point() -> StructDef {
    StructDef {
        name: "Point".to_string(),
        fields: vec![req("x", int32()), req("y", int32())],
    }
}

#[test]
fn point_struct_has_two_required_members_and_no_tags() {
    let text = generate_struct(&point());
    assert!(text.contains("public partial struct Point"));
    assert!(text.contains("    public int x;\n"));
    assert!(text.contains("    public int y;\n"));
    assert!(text.contains("public Point(int x, int y)"));
    assert!(text.contains("        encoder.Encode(this.x);\n"));
    assert!(text.contains("        encoder.Encode(this.y);\n"));
    assert!(!text.contains("Tagged"));
}

#[test]
fn point_wire_form_is_exactly_two_int32s() {
    let fields = point().fields;
    let vals = vec![Some(Value::Int32(7)), Some(Value::Int32(-2))];
    let bytes = encode_fields(&fields, &vals);
    assert_eq!(bytes.len(), 8);
    assert_eq!(bytes[0..4], [7, 0, 0, 0]);
    assert_eq!(bytes[4..8], [0xfe, 0xff, 0xff, 0xff]);
    let (decoded, end) = decode_fields(&fields, &bytes, 0).unwrap();
    assert_eq!(end, 8);
    assert_eq!(decoded, vals);
}

#[test]
fn field_round_trip_with_tagged_fields() {
    let fields = vec![
        req("id", int32()),
        req("label", string_ty()),
        tagged("note", string_ty(), 3),
        tagged("extra", int32(), 9),
    ];
    let vals = vec![
        Some(Value::Int32(41)),
        Some(Value::Str(b"hi".to_vec())),
        None,
        Some(Value::Int32(-5)),
    ];
    let bytes = encode_fields(&fields, &vals);
    let (decoded, end) = decode_fields(&fields, &bytes, 0).unwrap();
    assert_eq!(end, bytes.len());
    assert_eq!(decoded, vals);
}

#[test]
fn truncated_input_is_rejected() {
    let fields = vec![req("x", int32())];
    let bytes = vec![1u8, 2u8];
    assert_eq!(decode_fields(&fields, &bytes, 0), Err(DecodeError::Truncated));
}

#[test]
fn invalid_bool_is_rejected() {
    let fields = vec![req("flag", TypeRef::Prim(Primitive::Bool))];
    let bytes = vec![7u8];
    assert_eq!(decode_fields(&fields, &bytes, 0), Err(DecodeError::InvalidBool));
}

fn color() -> EnumDef {
    EnumDef {
        name: "Color".to_string(),
        enumerators: vec![
            Enumerator { name: "Red".to_string(), value: 1 },
            Enumerator { name: "Green".to_string(), value: 5 },
        ],
    }
}

#[test]
fn declared_enum_value_decodes_to_its_enumerator() {
    let bytes = vec![5u8, 0, 0, 0];
    let (idx, end) = decode_enum(&color(), &bytes, 0).unwrap();
    assert_eq!(idx, 1);
    assert_eq!(end, 4);
}

#[test]
fn undeclared_enum_value_is_invalid_enum_value() {
    let bytes = vec![7u8, 0, 0, 0];
    assert_eq!(decode_enum(&color(), &bytes, 0), Err(DecodeError::InvalidEnumValue));
    let short = vec![7u8, 0];
    assert_eq!(decode_enum(&color(), &short, 0), Err(DecodeError::Truncated));
}

#[test]
fn enum_fragment_lists_values_and_invalid_guard() {
    let text = generate_enum(&color());
    assert!(text.contains("public enum Color"));
    assert!(text.contains("    Red = 1,\n"));
    assert!(text.contains("    Green = 5,\n"));
    assert!(text.contains("InvalidEnumValue"));
}

fn animal_module() -> Vec<Entity> {
    vec![
        Entity::Class(ClassDef {
            name: "Animal".to_string(),
            base: None,
            fields: vec![req("name", string_ty())],
        }),
        Entity::Class(ClassDef {
            name: "Dog".to_string(),
            base: Some(0),
            fields: vec![req("breed", string_ty())],
        }),
    ]
}

#[test]
fn derived_class_chains_to_its_base() {
    let entities = animal_module();
    let text = generate_class(&entities, 1);
    assert!(text.contains("public partial class Dog : Animal"));
    assert!(text.contains("public Dog(string name, string breed)"));
    assert!(text.contains("        base.Encode(encoder);\n"));
    assert!(text.contains("        base.Decode(decoder);\n"));
    let base_text = generate_class(&entities, 0);
    assert!(base_text.contains("public partial class Animal : SliceClass"));
    assert!(!base_text.contains("base.Encode"));
}

fn greeter_module() -> Vec<Entity> {
    vec![Entity::Interface(InterfaceDef {
        name: "Greeter".to_string(),
        bases: vec![],
        ops: vec![Operation {
            name: "greet".to_string(),
            params: vec![Param {
                name: "name".to_string(),
                ty: string_ty(),
                direction: Direction::Input,
            }],
            ret: Some(string_ty()),
        }],
    })]
}

#[test]
fn greeter_proxy_takes_and_returns_string() {
    let entities = greeter_module();
    let text = generate_proxy(&entities, 0);
    assert!(text.contains("public partial struct GreeterProxy"));
    assert!(text.contains("public string greet(string name)"));
    assert!(text.contains("this.Invoker.Invoke(\"greet\", payload);"));
}

#[test]
fn greeter_dispatch_routes_greet_and_rejects_farewell() {
    let entities = greeter_module();
    let text = generate_dispatch(&entities, 0);
    assert!(text.contains("case \"greet\": return Dispatch_greet(request);"));
    assert!(text.contains("default: throw new UnknownOperation(operation);"));
    assert_eq!(dispatch_lookup(&entities, 0, &"greet".to_string()), Ok(0));
    assert_eq!(
        dispatch_lookup(&entities, 0, &"farewell".to_string()),
        Err(DispatchFault::UnknownOperation)
    );
}

#[test]
fn inherited_operations_are_merged_and_deduplicated() {
    let mut entities = vec![
        Entity::Interface(InterfaceDef {
            name: "Pingable".to_string(),
            bases: vec![],
            ops: vec![Operation { name: "ping".to_string(), params: vec![], ret: None }],
        }),
        Entity::Interface(InterfaceDef {
            name: "Pongable".to_string(),
            bases: vec![],
            ops: vec![
                Operation { name: "ping".to_string(), params: vec![], ret: None },
                Operation { name: "pong".to_string(), params: vec![], ret: None },
            ],
        }),
    ];
    entities.push(Entity::Interface(InterfaceDef {
        name: "Both".to_string(),
        bases: vec![0, 1],
        ops: vec![Operation { name: "local".to_string(), params: vec![], ret: None }],
    }));
    // The merged set is the de-duplicated union: ping, pong, local.
    assert_eq!(dispatch_lookup(&entities, 2, &"ping".to_string()), Ok(0));
    assert_eq!(dispatch_lookup(&entities, 2, &"pong".to_string()), Ok(1));
    assert_eq!(dispatch_lookup(&entities, 2, &"local".to_string()), Ok(2));
    assert_eq!(
        dispatch_lookup(&entities, 2, &"other".to_string()),
        Err(DispatchFault::UnknownOperation)
    );
    let text = generate_dispatch(&entities, 2);
    assert_eq!(text.matches("case \"ping\"").count(), 1);
    let proxy = generate_proxy(&entities, 2);
    assert_eq!(proxy.matches("public void ping()").count(), 1);
}

fn sample_file() -> SliceFile {
    SliceFile {
        filename: "shapes".to_string(),
        module: Some(ModuleDecl {
            path: vec!["Geo".to_string(), "Flat".to_string()],
            entities: vec![Entity::Struct(point())],
        }),
    }
}

fn options() -> CsOptions {
    CsOptions { tool_version: "1.0.0".to_string() }
}

#[test]
fn generating_the_same_file_twice_is_byte_identical() {
    let first = generate_from_slice_file(&sample_file(), false, &options());
    let second = generate_from_slice_file(&sample_file(), false, &options());
    assert_eq!(first, second);
    let i1 = generate_from_slice_file(&sample_file(), true, &options());
    let i2 = generate_from_slice_file(&sample_file(), true, &options());
    assert_eq!(i1, i2);
}

#[test]
fn types_unit_and_interfaces_unit_are_partitioned() {
    let types = generate_from_slice_file(&sample_file(), false, &options());
    assert!(types.contains("// slicec-cs version: '1.0.0'"));
    assert!(types.contains("// Generated from file: 'shapes.slice'"));
    assert!(types.contains("[assembly:Slice(\"shapes.slice\")]"));
    assert!(types.contains("namespace Geo.Flat;"));
    assert!(types.contains("public partial struct Point"));
    assert!(types.ends_with("\n"));
    let interfaces = generate_from_slice_file(&sample_file(), true, &options());
    assert!(interfaces.contains("using IceRpc.Slice;\nusing ZeroC.Slice;"));
    assert!(!interfaces.contains("public partial struct Point"));
}

#[test]
fn empty_file_still_emits_preamble_and_imports() {
    let file = SliceFile { filename: "empty".to_string(), module: None };
    let text = generate_from_slice_file(&file, false, &options());
    assert!(text.contains("// <auto-generated/>"));
    assert!(text.contains("using ZeroC.Slice;"));
    assert!(!text.contains("namespace"));
}

#[test]
fn assembler_joins_fragments_with_one_blank_line() {
    let mut code = CodeBlock::new();
    code.add_block("one".to_string());
    code.add_block("two".to_string());
    let first = code.render();
    assert_eq!(first, "one\n\ntwo");
    // Rendering is idempotent, and appending afterwards is still valid.
    assert_eq!(code.render(), "one\n\ntwo");
    code.add_block("three".to_string());
    assert_eq!(code.render(), "one\n\ntwo\n\nthree");
}

#[test]
fn decimal_rendering_is_exact() {
    assert_eq!(dec_string(0), "0");
    assert_eq!(dec_string(9), "9");
    assert_eq!(dec_string(40070), "40070");
}
