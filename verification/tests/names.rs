use sf_winmd_gen::names::{is_ifabric, is_omitted, qualified_name, short_name};
use sf_winmd_gen::order::{sort_strings, string_less};

#[test]
fn qualified_names() {
    assert_eq!(qualified_name("Windows.Win32", "FILETIME"), "Windows.Win32.FILETIME");
    assert_eq!(qualified_name("", "FILETIME"), "FILETIME");
}

#[test]
fn short_names() {
    assert_eq!(short_name("Microsoft.ServiceFabric.IFabricClient"), "IFabricClient");
    assert_eq!(short_name("IFabricClient"), "IFabricClient");
    assert_eq!(short_name("Trailing."), "");
    assert_eq!(short_name(""), "");
}

#[test]
fn ifabric_rule() {
    assert!(is_ifabric("IFabricClient"));
    assert!(is_ifabric("IFabric_Test"));
    assert!(is_ifabric("IFabricClient2"));
    assert!(!is_ifabric("IFabric"));
    assert!(!is_ifabric("IExtentLogicalLog"));
    assert!(!is_ifabric("IFabricClient-2"));
    assert!(!is_ifabric("IFabricé"));
    assert!(!is_ifabric("ifabricClient"));
}

#[test]
fn omitted_duplicates() {
    assert!(is_omitted("IFabricClientConnectionEventHandler0000"));
    assert!(is_omitted("IFabricClientConnectionEventHandler0001"));
    assert!(is_omitted("IFabricServiceNotificationEventHandler0000"));
    assert!(!is_omitted("IFabricServiceNotificationEventHandler0001"));
}

#[test]
fn strings_sort_by_code_point() {
    assert!(string_less("A", "B"));
    assert!(string_less("A", "AB"));
    assert!(!string_less("AB", "AB"));
    assert!(string_less("Z", "a"));
    assert!(string_less("a", "é"));
    let sorted = sort_strings(&vec![
        "b".to_string(),
        "a".to_string(),
        "B".to_string(),
        "a".to_string(),
        String::new(),
    ]);
    assert_eq!(sorted, ["", "B", "a", "a", "b"]);
    let mut expected = vec!["é", "e", "z", "E"];
    expected.sort();
    assert_eq!(
        sort_strings(&vec!["é".to_string(), "e".to_string(), "z".to_string(), "E".to_string()]),
        expected
    );
}

#[test]
fn short_name_of_qualified_name() {
    for (namespace, name) in [("Windows.Win32", "FILETIME"), ("", "IFabricClient"), ("A", "")] {
        assert_eq!(short_name(&qualified_name(namespace, name)), name);
    }
}

#[test]
fn word_chars_are_ascii_alphanumeric_or_underscore() {
    for code in 0..=0x10FFFFu32 {
        if let Some(c) = char::from_u32(code) {
            assert_eq!(
                sf_winmd_gen::names::word_char(c),
                c.is_ascii_alphanumeric() || c == '_'
            );
        }
    }
}

#[test]
fn string_order_matches_str_order() {
    let samples = ["", "a", "A", "ab", "aB", "b", "é", "e\u{301}", "z", "IFabric", "IFabricA", "IFabric_"];
    for a in samples {
        for b in samples {
            assert_eq!(string_less(a, b), a < b, "{a:?} {b:?}");
        }
    }
}
