use sf_winmd_gen::validation::{
    compare, compare_migration, type_count, FieldRecord, MethodRecord, ParameterRecord, Snapshot,
    TypeRecord,
};

fn record() -> TypeRecord {
    TypeRecord {
        category: "Interface".to_string(),
        flags: 0,
        extends: None,
        interfaces: Vec::new(),
        layout: None,
        fields: Vec::new(),
        methods: Vec::new(),
        attributes: Vec::new(),
        agile: true,
        guid: Some("guid".to_string()),
    }
}

fn snapshot(entries: &[(&str, TypeRecord)]) -> Snapshot {
    let mut snapshot = Snapshot::new();
    for (name, record) in entries {
        snapshot.insert((*name).to_string(), record.clone());
    }
    snapshot
}

fn method(name: &str) -> MethodRecord {
    MethodRecord {
        name: name.to_string(),
        flags: 0,
        impl_flags: 0,
        calling_convention: String::new(),
        signature: "0()->void".to_string(),
        parameters: Vec::new(),
        return_parameter: None,
        attributes: Vec::new(),
    }
}

#[test]
fn identical_snapshots_pass() {
    let input = snapshot(&[("Microsoft.ServiceFabric.IFabricClient", record())]);
    assert!(compare(&input, &input).is_empty());
}

#[test]
fn migration_allows_legacy_duplicate_to_be_absent() {
    let baseline = snapshot(&[(
        "Microsoft.ServiceFabric.IFabricClientConnectionEventHandler0000",
        record(),
    )]);
    assert!(compare_migration(&baseline, &snapshot(&[])).is_empty());
    assert!(!compare(&baseline, &snapshot(&[])).is_empty());
}

#[test]
fn non_allowlisted_type_changes_fail() {
    let baseline = snapshot(&[("Microsoft.ServiceFabric.IFabricClient", record())]);
    let mut changed = record();
    changed.methods.push(method("Changed"));
    let candidate = snapshot(&[("Microsoft.ServiceFabric.IFabricClient", changed)]);
    assert_eq!(
        compare(&baseline, &candidate),
        ["Microsoft.ServiceFabric.IFabricClient: methods changed"]
    );
}

#[test]
fn missing_or_extra_agility_fails() {
    let mut missing = record();
    missing.agile = false;
    let baseline = snapshot(&[("Microsoft.ServiceFabric.IFabricClient", record())]);
    let candidate = snapshot(&[("Microsoft.ServiceFabric.IFabricClient", missing)]);
    assert!(compare(&baseline, &candidate)
        .iter()
        .any(|difference| difference.contains("agility mismatch")));

    let extra = snapshot(&[("Microsoft.ServiceFabric.IExtentLogicalLog", record())]);
    assert!(compare(&extra, &extra)
        .iter()
        .any(|difference| difference.contains("agility mismatch")));
}

#[test]
fn migration_ignores_non_interface_ifabric_names() {
    let mut class = record();
    class.category = "Class".to_string();
    class.agile = false;
    let input = snapshot(&[("Microsoft.ServiceFabric.IFabricFactory", class)]);
    assert!(compare_migration(&input, &input).is_empty());
}

#[test]
fn strict_comparison_rejects_all_added_types() {
    let baseline = snapshot(&[]);
    let mut helper = record();
    helper.agile = false;
    let allowed = snapshot(&[(
        "Microsoft.ServiceFabric.FabricTypes.FILETIME",
        helper.clone(),
    )]);
    assert_eq!(
        compare(&baseline, &allowed),
        ["unexpected type: Microsoft.ServiceFabric.FabricTypes.FILETIME"]
    );

    let unexpected = snapshot(&[("Microsoft.ServiceFabric.Other", helper)]);
    assert_eq!(
        compare(&baseline, &unexpected),
        ["unexpected type: Microsoft.ServiceFabric.Other"]
    );
}

#[test]
fn migration_checks_guid_and_method_order() {
    let baseline = snapshot(&[("Microsoft.ServiceFabric.IFabricClient", record())]);
    let mut changed = record();
    changed.guid = Some("different".to_string());
    changed.methods.push(method("Unexpected"));
    let candidate = snapshot(&[("Microsoft.ServiceFabric.IFabricClient", changed)]);
    let differences = compare_migration(&baseline, &candidate);
    assert!(differences
        .iter()
        .any(|difference| difference.contains("GUID changed")));
    assert!(differences
        .iter()
        .any(|difference| difference.contains("method names or order changed")));
}

#[test]
fn strict_comparison_checks_every_record_dimension() {
    let name = "Microsoft.ServiceFabric.IFabricClient";
    let baseline_record = record();
    let baseline = snapshot(&[(name, baseline_record.clone())]);

    let mut changed = baseline_record.clone();
    changed.category = "Struct".to_string();
    assert!(compare(&baseline, &snapshot(&[(name, changed)]))[0].contains("category changed"));

    let mut changed = baseline_record.clone();
    changed.flags = 0x10;
    assert!(compare(&baseline, &snapshot(&[(name, changed)]))[0].contains("type flags changed"));

    let mut changed = baseline_record.clone();
    changed.extends = Some("Microsoft.ServiceFabric.IBase".to_string());
    assert!(compare(&baseline, &snapshot(&[(name, changed)]))[0].contains("base type changed"));

    let mut changed = baseline_record.clone();
    changed.interfaces.push("class:System.IUnknown".to_string());
    assert!(compare(&baseline, &snapshot(&[(name, changed)]))[0]
        .contains("implemented interfaces changed"));

    let mut changed = baseline_record.clone();
    changed.layout = Some((8, 16));
    assert!(compare(&baseline, &snapshot(&[(name, changed)]))[0].contains("layout changed"));

    let mut changed = baseline_record.clone();
    changed.fields.push(FieldRecord {
        name: "Value".to_string(),
        ty: "u32".to_string(),
        flags: 0,
        constant: None,
        attributes: Vec::new(),
    });
    assert!(compare(&baseline, &snapshot(&[(name, changed)]))[0].contains("fields changed"));

    let mut changed = baseline_record.clone();
    changed.methods.push(method("Method"));
    assert!(compare(&baseline, &snapshot(&[(name, changed)]))[0].contains("methods changed"));

    let mut changed = baseline_record.clone();
    changed.attributes.push("Example.Attribute=[]".to_string());
    assert!(compare(&baseline, &snapshot(&[(name, changed)]))[0].contains("attributes changed"));

    let mut changed = baseline_record;
    changed.guid = Some("different".to_string());
    assert!(compare(&baseline, &snapshot(&[(name, changed)]))[0].contains("GUID changed"));
}

#[test]
fn strict_comparison_checks_field_method_and_parameter_details() {
    let name = "Microsoft.ServiceFabric.IFabricClient";
    let mut baseline_record = record();
    baseline_record.fields.push(FieldRecord {
        name: "Value".to_string(),
        ty: "u32".to_string(),
        flags: 1,
        constant: Some("I32(1)".to_string()),
        attributes: vec!["Test.Field=[]".to_string()],
    });
    baseline_record.methods.push(MethodRecord {
        name: "Call".to_string(),
        flags: 1,
        impl_flags: 2,
        calling_convention: "system".to_string(),
        signature: "32(u32)->i32".to_string(),
        parameters: vec![ParameterRecord {
            flags: 1,
            direction: "Input".to_string(),
            optional: false,
            retval: false,
            attributes: vec!["Test.Param=[]".to_string()],
        }],
        return_parameter: Some(ParameterRecord {
            flags: 2,
            direction: "Output".to_string(),
            optional: false,
            retval: true,
            attributes: Vec::new(),
        }),
        attributes: vec!["Test.Method=[]".to_string()],
    });
    let baseline = snapshot(&[(name, baseline_record.clone())]);

    let mut changed = baseline_record.clone();
    changed.fields[0].ty = "u64".to_string();
    assert!(compare(&baseline, &snapshot(&[(name, changed)]))[0].contains("fields changed"));

    let mut changed = baseline_record.clone();
    changed.fields[0].constant = Some("I32(2)".to_string());
    assert!(compare(&baseline, &snapshot(&[(name, changed)]))[0].contains("fields changed"));

    let mut changed = baseline_record.clone();
    changed.methods[0].signature = "32(u64)->i32".to_string();
    assert!(compare(&baseline, &snapshot(&[(name, changed)]))[0].contains("methods changed"));

    let mut changed = baseline_record.clone();
    changed.methods[0].parameters[0].direction = "Output".to_string();
    assert!(compare(&baseline, &snapshot(&[(name, changed)]))[0].contains("methods changed"));

    let mut changed = baseline_record;
    changed.methods[0].return_parameter.as_mut().unwrap().retval = false;
    assert!(compare(&baseline, &snapshot(&[(name, changed)]))[0].contains("methods changed"));
}

#[test]
fn strict_messages_are_exact() {
    let name = "Microsoft.ServiceFabric.IFabricClient";
    let baseline = snapshot(&[(name, record())]);
    let mut changed = record();
    changed.flags = 0x10;
    changed.layout = Some((8, 16));
    changed.extends = Some("Microsoft.ServiceFabric.IBase".to_string());
    changed.category = "Struct".to_string();
    changed.agile = false;
    assert_eq!(
        compare(&baseline, &snapshot(&[(name, changed)])),
        [
            "Microsoft.ServiceFabric.IFabricClient: category changed from Interface to Struct",
            "Microsoft.ServiceFabric.IFabricClient: type flags changed from 0x0 to 0x10",
            "Microsoft.ServiceFabric.IFabricClient: base type changed from None to Some(\"Microsoft.ServiceFabric.IBase\")",
            "Microsoft.ServiceFabric.IFabricClient: layout changed from None to Some((8, 16))",
        ]
    );
}

#[test]
fn strict_reports_agility_with_expectation() {
    let mut missing = record();
    missing.agile = false;
    let input = snapshot(&[("Microsoft.ServiceFabric.IFabricClient", missing)]);
    assert_eq!(
        compare(&input, &input),
        ["agility mismatch for Microsoft.ServiceFabric.IFabricClient: expected true, found false"]
    );
    let duplicate = snapshot(&[(
        "Microsoft.ServiceFabric.IFabricClientConnectionEventHandler0001",
        record(),
    )]);
    assert_eq!(
        compare(&duplicate, &duplicate),
        ["agility mismatch for Microsoft.ServiceFabric.IFabricClientConnectionEventHandler0001: expected false, found true"]
    );
}

#[test]
fn strict_reports_missing_types_in_name_order() {
    let baseline = snapshot(&[("B.IFabricB", record()), ("A.IFabricA", record())]);
    assert_eq!(
        compare(&baseline, &snapshot(&[])),
        ["missing type: A.IFabricA", "missing type: B.IFabricB"]
    );
}

#[test]
fn migration_messages_are_exact() {
    let baseline = snapshot(&[
        ("N.IFabricGone", record()),
        ("N.IFabricKept", record()),
    ]);
    let mut kept = record();
    kept.guid = None;
    kept.agile = false;
    let candidate = snapshot(&[("N.IFabricKept", kept), ("N.IFabricNew", record())]);
    assert_eq!(
        compare_migration(&baseline, &candidate),
        [
            "missing interface: N.IFabricGone",
            "N.IFabricKept: GUID changed from Some(\"guid\") to None",
            "unexpected interface: N.IFabricNew",
            "missing agility marker: N.IFabricKept",
        ]
    );
}

#[test]
fn migration_reports_present_legacy_duplicates() {
    let input = snapshot(&[(
        "N.IFabricServiceNotificationEventHandler0000",
        record(),
    )]);
    assert_eq!(
        compare_migration(&input, &input),
        ["unexpected interface: N.IFabricServiceNotificationEventHandler0000"]
    );
}

#[test]
fn type_count_counts_distinct_names() {
    let input = snapshot(&[("A.X", record()), ("A.Y", record()), ("A.X", record())]);
    assert_eq!(type_count(&input), 2);
    assert_eq!(type_count(&snapshot(&[])), 0);
}

#[test]
fn insert_returns_the_replaced_record() {
    let mut input = Snapshot::new();
    assert!(input.insert("A.X".to_string(), record()).is_none());
    let mut other = record();
    other.flags = 7;
    assert_eq!(input.insert("A.X".to_string(), other), Some(record()));
    assert_eq!(input.len(), 1);
}

#[test]
fn missing_type_is_unexpected_when_roles_swap() {
    let larger = snapshot(&[("N.IFabricA", record()), ("N.IFabricB", record())]);
    let smaller = snapshot(&[("N.IFabricA", record())]);
    assert!(compare(&larger, &smaller).contains(&"missing type: N.IFabricB".to_string()));
    assert!(compare(&smaller, &larger).contains(&"unexpected type: N.IFabricB".to_string()));
}

#[test]
fn separately_built_equal_snapshots_pass_both_ways() {
    let mut class = record();
    class.category = "Class".to_string();
    class.agile = false;
    let first = snapshot(&[("N.IFabricA", record()), ("N.Helper", class.clone())]);
    let second = snapshot(&[("N.Helper", class), ("N.IFabricA", record())]);
    assert!(compare(&first, &second).is_empty());
    assert!(compare(&second, &first).is_empty());
    assert!(compare_migration(&first, &second).is_empty());
}

#[test]
fn migration_reads_only_interface_names_guids_methods_and_candidate_agility() {
    let mut baseline_interface = record();
    baseline_interface.methods = vec![method("Open"), method("Close")];
    let mut candidate_interface = record();
    candidate_interface.methods = vec![method("Open")];
    candidate_interface.guid = Some("other".to_string());

    let mut struct_record = record();
    struct_record.category = "Struct".to_string();
    let baseline = snapshot(&[
        ("Microsoft.ServiceFabric.IFabricClient", baseline_interface.clone()),
        ("Microsoft.ServiceFabric.FABRIC_A", struct_record.clone()),
    ]);
    let candidate = snapshot(&[("Microsoft.ServiceFabric.IFabricClient", candidate_interface.clone())]);

    // Other fields, other types, baseline agility and legacy duplicates of
    // the baseline change nothing.
    let mut baseline_interface2 = baseline_interface.clone();
    baseline_interface2.flags = 7;
    baseline_interface2.agile = false;
    baseline_interface2.attributes = vec!["A=1".to_string()];
    let baseline2 = snapshot(&[
        ("Microsoft.ServiceFabric.IFabricClient", baseline_interface2),
        ("Microsoft.ServiceFabric.FABRIC_B", struct_record.clone()),
        (
            "Microsoft.ServiceFabric.IFabricClientConnectionEventHandler0000",
            record(),
        ),
    ]);
    let mut candidate_interface2 = candidate_interface.clone();
    candidate_interface2.flags = 3;
    candidate_interface2.methods[0].signature = "0(i32)->void".to_string();
    let candidate2 = snapshot(&[
        ("Microsoft.ServiceFabric.IFabricClient", candidate_interface2),
        ("Microsoft.ServiceFabric.FABRIC_C", struct_record),
    ]);

    let expected = compare_migration(&baseline, &candidate);
    assert_eq!(expected.len(), 2);
    assert_eq!(compare_migration(&baseline2, &candidate2), expected);
}
