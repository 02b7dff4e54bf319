use sf_winmd_gen::agility::add_agility_attributes;

fn check_marks_only_ifabric_interfaces(input: &str) {
    let output = add_agility_attributes(input);

    assert_eq!(output.matches("MarshalingBehavior(Agile)").count(), 2);
    assert!(output.contains("MarshalingBehavior(Agile)]\n            interface IFabricClient"));
    assert!(output.contains("MarshalingBehavior(Agile)]\n            interface IFabric_Test"));
    assert!(!output.contains("MarshalingBehavior(Agile)]\n            interface IExtentLogicalLog"));
    assert!(!output.contains("MarshalingBehavior(Agile)]\n            interface IFabric :"));
}

#[test]
fn main_marks_only_ifabric_interfaces_as_agile() {
    let input = [
        "            interface IFabricClient : IUnknown {\n",
        "            interface IExtentLogicalLog : IUnknown {\n",
        "            interface IFabric : IUnknown {\n",
        "            interface IFabric_Test : IUnknown {\n",
    ]
    .concat();
    check_marks_only_ifabric_interfaces(&input);
}

#[test]
fn generate_marks_only_ifabric_interfaces_as_agile() {
    let input = [
        "            interface IFabricClient : IUnknown {\n",
        "            interface IExtentLogicalLog : IUnknown {\n",
        "            interface IFabric : IUnknown {\n",
        "            interface IFabric_Test : IUnknown {\n",
    ]
    .concat();
    check_marks_only_ifabric_interfaces(&input);
}

#[test]
fn marker_keeps_indentation_and_crlf() {
    let input = "\tinterface IFabricA {\r\nstruct X;\r\ninterface IFabricB";
    assert_eq!(
        add_agility_attributes(input),
        [
            "\t#[Windows::ServiceFabric::Metadata::MarshalingBehavior(Agile)]\r\n",
            "\tinterface IFabricA {\r\n",
            "struct X;\r\n",
            "#[Windows::ServiceFabric::Metadata::MarshalingBehavior(Agile)]\n",
            "interface IFabricB",
        ]
        .concat()
    );
}

#[test]
fn text_without_interfaces_is_unchanged() {
    let input = "struct IFabricA {\n  interfaceIFabricB\n\n";
    assert_eq!(add_agility_attributes(input), input);
    assert_eq!(add_agility_attributes(""), "");
}

#[test]
fn unicode_indentation_is_kept() {
    let input = "\u{3000} interface IFabricX2 : IUnknown\n";
    assert_eq!(
        add_agility_attributes(input),
        "\u{3000} #[Windows::ServiceFabric::Metadata::MarshalingBehavior(Agile)]\n\u{3000} interface IFabricX2 : IUnknown\n"
    );
}

#[test]
fn whitespace_matches_char_is_whitespace() {
    for code in 0..=0x10FFFFu32 {
        if let Some(c) = char::from_u32(code) {
            assert_eq!(sf_winmd_gen::agility::whitespace(c), c.is_whitespace(), "{code:#x}");
        }
    }
}
