use sf_winmd_gen::sdk::{compare_numerals, newer_name, newest};

fn strings(items: &[&str]) -> Vec<String> {
    items.iter().map(|item| item.to_string()).collect()
}

fn chars(text: &str) -> Vec<char> {
    text.chars().collect()
}

#[test]
fn newest_orders_sdk_versions_by_number() {
    assert_eq!(
        newest(&strings(&["10.0.9999.0", "10.0.10240.0", "10.0.22621.0"])),
        Some(2)
    );
    assert_eq!(
        newest(&strings(&["10.0.22621.0", "10.0.9999.0", "10.0.10240.0"])),
        Some(0)
    );
    assert_eq!(newest(&strings(&["10.0.9999.0", "10.0.10240.0"])), Some(1));
    assert_eq!(newest(&Vec::new()), None);
}

#[test]
fn versions_are_newer_than_other_names() {
    assert!(newer_name("10.0.1.0", "x64"));
    assert!(!newer_name("x64", "10.0.1.0"));
    assert!(newer_name("b", "a"));
    assert!(newer_name("10.0.1", "10.0"));
    assert!(!newer_name("10.0", "10.0.1"));
    assert!(newer_name("10.0.1", "10.0.01"));
    assert!(!newer_name("10..1", "10.0"));
    assert!(!newer_name("10.0", "10.0"));
    assert_eq!(newest(&strings(&["x64", "arm64", "10.0.1.0"])), Some(2));
}

#[test]
fn numerals_compare_by_value() {
    assert_eq!(compare_numerals(&chars("007"), &chars("7")), 0);
    assert_eq!(compare_numerals(&chars("10"), &chars("9")), 1);
    assert_eq!(compare_numerals(&chars("9999"), &chars("10240")), -1);
    assert_eq!(compare_numerals(&chars(""), &chars("0")), 0);
}
