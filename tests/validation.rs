use esp_extractor::validate::{is_camel_case, is_snake_case, is_valid_string};
use esp_extractor::RawString;

#[test]
fn test_string_validation() {
    assert!(is_valid_string("Iron Sword"));
    assert!(is_valid_string("This is a valid description."));
    assert!(is_valid_string("铁剑"));
    assert!(is_valid_string("这是一个有效的描述。"));
    assert!(is_valid_string("Mixed 中英文 text"));

    assert!(!is_valid_string("CamelCaseVariable"));
    assert!(!is_valid_string("snake_case_var"));
    assert!(!is_valid_string(""));
    assert!(!is_valid_string("<p>"));
}

#[test]
fn test_camel_case() {
    assert!(is_camel_case("CamelCase"));
    assert!(is_camel_case("myVariable"));
    assert!(!is_camel_case("lowercase"));
    assert!(!is_camel_case("UPPERCASE"));
    assert!(!is_camel_case("my"));
}

#[test]
fn test_snake_case() {
    assert!(is_snake_case("snake_case"));
    assert!(is_snake_case("my_variable"));
    assert!(!is_snake_case("normal text"));
    assert!(!is_snake_case("CamelCase"));
}

#[test]
fn validation_trims_and_whitelists() {
    assert!(!is_valid_string("   \t\n  "));
    assert!(is_valid_string("  Iron Sword  "));
    assert!(is_valid_string("Orcax_name"));
    assert!(is_valid_string("<Alias=Player>"));
    assert!(!is_valid_string("bad\u{1}text here"));
    assert!(is_valid_string("line one\nline two"));
}

#[test]
fn raw_strings_fall_back_to_legacy_encodings() {
    let utf8 = RawString::decode("Caf\u{e9}".as_bytes());
    assert_eq!(utf8.content, "Café");
    assert_eq!(utf8.encoding, "utf-8");
    let legacy = RawString::decode(b"Caf\xe9 au lait");
    assert_eq!(legacy.content, "Café au lait");
    assert_eq!(legacy.encoding, "windows-1252");
    let z = RawString::parse_zstring(b"Iron\0junk");
    assert_eq!(z.content, "Iron");
    let (b, next) = RawString::parse_bstring(b"\x04ab\0cXYZ", 0).unwrap();
    assert_eq!(b.content, "ab");
    assert_eq!(next, 5);
    assert!(RawString::parse_bstring(b"\x09ab", 0).is_none());
}
