use esp_extractor::files::{is_supported_file, supported_extensions, SpecialRecordHandler, VERSION};
use esp_extractor::error::EspError;

#[test]
fn test_supported_extensions() {
    let exts = supported_extensions();
    assert!(exts.contains(&"esp"));
    assert!(exts.contains(&"esm"));
    assert!(exts.contains(&"esl"));
}

#[test]
fn test_version_exists() {
    assert!(!VERSION.is_empty());
}

#[test]
fn test_multi_field_types_constant() {
    let types = SpecialRecordHandler::multi_field_types();
    assert!(types.contains(&"MESG"));
    assert!(types.contains(&"INFO"));
    assert!(types.contains(&"PERK"));
    assert!(types.contains(&"QUST"));
    assert_eq!(types.len(), 4);
}

#[test]
fn supported_file_names() {
    assert!(is_supported_file("Skyrim.esm"));
    assert!(is_supported_file("Mod.ESP"));
    assert!(is_supported_file("light.Esl"));
    assert!(!is_supported_file("notes.txt"));
    assert!(!is_supported_file("esp"));
    assert!(!is_supported_file("archive.esp.bak"));
}

#[test]
fn error_messages_name_the_problem() {
    let e = EspError::CapacityExceeded { count: 2049 };
    assert!(e.message().contains("2049"));
    let e = EspError::SizeOutOfBounds { offset: 16, size: 300_000_000 };
    assert!(e.message().contains("300000000"));
}
