use sf_winmd_gen::canonical::{
    canonical_attributes, canonical_signature, canonical_type, canonical_type_name, has_agility,
    snapshot_from_rows, type_record, AttributeArg, AttributeRow, FieldRow, MetadataType,
    MetadataTypeName, MethodRow, ParamMap, ParamRow, SignatureRow, TypeDefRow,
};
use sf_winmd_gen::validation::{compare, type_count};

fn named(namespace: &str, name: &str) -> MetadataTypeName {
    MetadataTypeName {
        namespace: namespace.to_string(),
        name: name.to_string(),
        generics: Vec::new(),
    }
}

fn attribute(name: &str, value_text: &str, args: Vec<AttributeArg>) -> AttributeRow {
    AttributeRow {
        namespace: "Windows.ServiceFabric.Metadata".to_string(),
        name: name.to_string(),
        value_text: value_text.to_string(),
        args,
    }
}

fn agile_attribute() -> AttributeRow {
    attribute(
        "MarshalingBehaviorAttribute",
        "[(\"\", EnumValue(..., I32(2)))]",
        vec![AttributeArg::EnumValue(Box::new(AttributeArg::I32(2)))],
    )
}

fn interface_row(namespace: &str, name: &str) -> TypeDefRow {
    TypeDefRow {
        namespace: namespace.to_string(),
        name: name.to_string(),
        category: "Interface".to_string(),
        flags: 0xa1,
        extends: None,
        interfaces: vec![
            MetadataType::ClassName(named("Windows.Win32", "IUnknown")),
            MetadataType::ClassName(named("", "IAgile")),
        ],
        layout: None,
        fields: Vec::new(),
        methods: vec![MethodRow {
            name: "Open".to_string(),
            flags: 0x5c6,
            impl_flags: 0,
            calling_convention: String::new(),
            signature: SignatureRow {
                flags: 0x20,
                return_type: MetadataType::ValueName(named("Windows.Win32", "HRESULT")),
                types: vec![
                    MetadataType::U32,
                    MetadataType::PtrMut(Box::new(MetadataType::U16), 1),
                ],
            },
            params: Ok(ParamMap {
                params: vec![
                    Some(ParamRow {
                        flags: 1,
                        direction: "Input".to_string(),
                        optional: false,
                        retval: false,
                        attributes: Vec::new(),
                    }),
                    None,
                ],
                return_param: None,
            }),
            attributes: Vec::new(),
        }],
        attributes: vec![
            attribute("GuidAttribute", "[(\"\", U32(1))]", vec![AttributeArg::Other]),
            agile_attribute(),
        ],
    }
}

#[test]
fn canonical_text_of_each_type_form() {
    let cases: Vec<(MetadataType, &str)> = vec![
        (MetadataType::Void, "void"),
        (MetadataType::Bool, "bool"),
        (MetadataType::Char, "char"),
        (MetadataType::I8, "i8"),
        (MetadataType::U8, "u8"),
        (MetadataType::I16, "i16"),
        (MetadataType::U16, "u16"),
        (MetadataType::I32, "i32"),
        (MetadataType::U32, "u32"),
        (MetadataType::I64, "i64"),
        (MetadataType::U64, "u64"),
        (MetadataType::F32, "f32"),
        (MetadataType::F64, "f64"),
        (MetadataType::ISize, "isize"),
        (MetadataType::USize, "usize"),
        (MetadataType::String, "string"),
        (MetadataType::Object, "object"),
        (MetadataType::ClassName(named("System", "Type")), "class:System.Type"),
        (MetadataType::ValueName(named("", "GUID")), "value:GUID"),
        (MetadataType::Array(Box::new(MetadataType::U8)), "array:u8"),
        (MetadataType::Generic("T".to_string(), 12), "generic:T:12"),
        (MetadataType::RefMut(Box::new(MetadataType::I32)), "ref-mut:i32"),
        (MetadataType::RefConst(Box::new(MetadataType::I32)), "ref-const:i32"),
        (MetadataType::PtrMut(Box::new(MetadataType::U16), 2), "ptr-mut:2:u16"),
        (MetadataType::PtrConst(Box::new(MetadataType::Void), 1), "ptr-const:1:void"),
        (MetadataType::ArrayFixed(Box::new(MetadataType::U8), 260), "array-fixed:260:u8"),
    ];
    for (ty, text) in cases {
        assert_eq!(canonical_type(&ty), text);
    }
}

#[test]
fn canonical_generic_type_names() {
    let name = MetadataTypeName {
        namespace: "Windows.Foundation".to_string(),
        name: "IMap".to_string(),
        generics: vec![
            MetadataType::String,
            MetadataType::ClassName(MetadataTypeName {
                namespace: "N".to_string(),
                name: "Box".to_string(),
                generics: vec![MetadataType::I32],
            }),
        ],
    };
    assert_eq!(
        canonical_type_name(&name),
        "Windows.Foundation.IMap<string,class:N.Box<i32>>"
    );
}

#[test]
fn canonical_signature_text() {
    let signature = SignatureRow {
        flags: 32,
        return_type: MetadataType::I32,
        types: vec![MetadataType::U32, MetadataType::Bool],
    };
    assert_eq!(canonical_signature(&signature), "32(u32,bool)->i32");
    let empty = SignatureRow {
        flags: 0,
        return_type: MetadataType::Void,
        types: Vec::new(),
    };
    assert_eq!(canonical_signature(&empty), "0()->void");
}

#[test]
fn attributes_are_qualified_and_sorted() {
    let attributes = vec![
        attribute("Zeta", "[]", Vec::new()),
        AttributeRow {
            namespace: String::new(),
            name: "Alpha".to_string(),
            value_text: "[(\"\", I32(1))]".to_string(),
            args: Vec::new(),
        },
        attribute("Beta", "[]", Vec::new()),
    ];
    assert_eq!(
        canonical_attributes(&attributes),
        [
            "Alpha=[(\"\", I32(1))]",
            "Windows.ServiceFabric.Metadata.Beta=[]",
            "Windows.ServiceFabric.Metadata.Zeta=[]",
        ]
    );
}

#[test]
fn agility_needs_exactly_one_agile_marker() {
    assert!(has_agility(&vec![agile_attribute()]));
    assert!(has_agility(&vec![attribute(
        "MarshalingBehaviorAttribute",
        "",
        vec![AttributeArg::Other, AttributeArg::I32(2)],
    )]));
    assert!(!has_agility(&vec![agile_attribute(), agile_attribute()]));
    assert!(!has_agility(&vec![attribute(
        "MarshalingBehaviorAttribute",
        "",
        vec![AttributeArg::I32(3)],
    )]));
    assert!(!has_agility(&vec![attribute("OtherAttribute", "", vec![AttributeArg::I32(2)])]));
    assert!(!has_agility(&Vec::new()));
}

#[test]
fn type_record_of_an_interface() {
    let record = type_record(&interface_row("N", "IFabricThing")).unwrap();
    assert_eq!(record.category, "Interface");
    assert_eq!(record.flags, 0xa1);
    assert_eq!(record.extends, None);
    assert_eq!(
        record.interfaces,
        ["class:IAgile", "class:Windows.Win32.IUnknown"]
    );
    assert!(record.agile);
    assert_eq!(record.guid, Some("[(\"\", U32(1))]".to_string()));
    assert_eq!(record.methods.len(), 1);
    let method = &record.methods[0];
    assert_eq!(method.signature, "32(u32,ptr-mut:1:u16)->value:Windows.Win32.HRESULT");
    assert_eq!(method.parameters.len(), 2);
    assert_eq!(method.parameters[0].direction, "Input");
    assert_eq!(method.parameters[1].direction, "Unspecified");
    assert_eq!(method.parameters[1].flags, 0);
    assert_eq!(method.return_parameter, None);
}

#[test]
fn type_record_reports_parameter_errors() {
    let mut row = interface_row("N", "IFabricThing");
    row.methods[0].params = Err("duplicate Param.Sequence 1".to_string());
    assert_eq!(
        type_record(&row).unwrap_err(),
        "IFabricThing.Open: duplicate Param.Sequence 1"
    );
}

#[test]
fn type_record_of_a_struct_with_fields() {
    let row = TypeDefRow {
        namespace: "N".to_string(),
        name: "POINT".to_string(),
        category: "Struct".to_string(),
        flags: 0x109,
        extends: Some(("System".to_string(), "ValueType".to_string())),
        interfaces: Vec::new(),
        layout: Some((8, 16)),
        fields: vec![FieldRow {
            name: "x".to_string(),
            ty: MetadataType::I32,
            flags: 6,
            constant: Some("I32(1)".to_string()),
            attributes: Vec::new(),
        }],
        methods: Vec::new(),
        attributes: Vec::new(),
    };
    let record = type_record(&row).unwrap();
    assert_eq!(record.extends, Some("System.ValueType".to_string()));
    assert_eq!(record.layout, Some((8, 16)));
    assert_eq!(record.fields[0].ty, "i32");
    assert_eq!(record.fields[0].constant, Some("I32(1)".to_string()));
    assert!(!record.agile);
    assert_eq!(record.guid, None);
}

#[test]
fn snapshot_of_rows_and_duplicates() {
    let rows = vec![
        interface_row("N", "IFabricB"),
        interface_row("N", "IFabricA"),
    ];
    let snapshot = snapshot_from_rows(&rows).unwrap();
    assert_eq!(type_count(&snapshot), 2);
    assert!(compare(&snapshot, &snapshot).is_empty());

    let duplicated = vec![
        interface_row("N", "IFabricA"),
        interface_row("M", "IFabricA"),
        interface_row("N", "IFabricA"),
    ];
    assert_eq!(
        snapshot_from_rows(&duplicated).unwrap_err(),
        "duplicate type definition: N.IFabricA"
    );

    let mut broken = interface_row("M", "IFabricC");
    broken.methods[0].params = Err("bad".to_string());
    let rows = vec![interface_row("N", "IFabricA"), broken, interface_row("N", "IFabricA")];
    assert_eq!(snapshot_from_rows(&rows).unwrap_err(), "IFabricC.Open: bad");
}
