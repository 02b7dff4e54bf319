use sf_winmd_gen::rewrite::{replace_all, rewrite_partition, scope_enums_and_mark_agile};

#[test]
fn replace_all_matches_str_replace() {
    let cases = [
        ("aaaa", "aa", "b"),
        ("abcabc", "bc", "XYZ"),
        ("no match here", "zz", "y"),
        ("", "a", "b"),
        ("ééé", "é", "e"),
        ("aaa", "aa", ""),
        ("ab", "", "x"),
        ("", "", "x"),
        ("é", "", "-"),
        ("abc", "", ""),
    ];
    for (text, pattern, with) in cases {
        assert_eq!(replace_all(text, pattern, with), text.replace(pattern, with));
    }
}

#[test]
fn enums_are_scoped_and_interfaces_marked() {
    let input = "#[repr(i32)]\nenum E { A = 0 }\ninterface IFabricX : IUnknown {\n";
    assert_eq!(
        scope_enums_and_mark_agile(input),
        "#[repr(i32)] #[scoped]\nenum E { A = 0 }\n#[Windows::ServiceFabric::Metadata::MarshalingBehavior(Agile)]\ninterface IFabricX : IUnknown {\n"
    );
}

#[test]
fn partition_rewrites_aliases_and_spelling() {
    let input = "type LPCWSTR = *const u16;\ntype FABRIC_URI = LPCWSTR;\nstruct FABRIC_AAD_ClAIMS_RETRIEVAL_METADATA;\n";
    assert_eq!(
        rewrite_partition(input),
        "type LPCWSTR = Windows::Win32::PCWSTR;\ntype FABRIC_URI = *mut void;\nstruct FABRIC_AAD_CLAIMS_RETRIEVAL_METADATA;\n"
    );
}

#[test]
fn replace_all_with_empty_pattern_surrounds_every_character() {
    assert_eq!(replace_all("ab", "", "x"), "xaxbx");
    assert_eq!(replace_all("", "", "x"), "x");
}
