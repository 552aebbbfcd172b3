use esp_extractor::router::DefaultStringRouter;

fn create_test_router() -> DefaultStringRouter {
    let routes = vec![
        ("WEAP".to_string(), vec!["FULL".to_string(), "DESC".to_string()]),
        ("ARMO".to_string(), vec!["FULL".to_string(), "DESC".to_string()]),
        ("NPC_".to_string(), vec!["FULL".to_string(), "SHRT".to_string()]),
    ];
    DefaultStringRouter::new(routes)
}

#[test]
fn test_get_string_subrecord_types() {
    let router = create_test_router();
    let weap_types = router.get_string_subrecord_types("WEAP");
    assert!(weap_types.is_some());
    assert_eq!(weap_types.unwrap(), &vec!["FULL".to_string(), "DESC".to_string()]);
    let unknown = router.get_string_subrecord_types("UNKN");
    assert!(unknown.is_none());
}

#[test]
fn test_supports_strings() {
    let router = create_test_router();
    assert!(router.supports_strings("WEAP", "FULL"));
    assert!(router.supports_strings("WEAP", "DESC"));
    assert!(router.supports_strings("NPC_", "SHRT"));
    assert!(!router.supports_strings("WEAP", "XXXX"));
    assert!(!router.supports_strings("UNKN", "FULL"));
}

#[test]
fn test_from_embedded_data() {
    let router = DefaultStringRouter::from_embedded_data();
    assert!(router.is_ok());
    let router = router.unwrap();
    assert!(router.supports_strings("WEAP", "FULL"));
    assert!(router.supports_strings("BOOK", "CNAM"));
    assert!(router.supports_strings("QUST", "NNAM"));
}

#[test]
fn test_load_string_records() {
    let router = DefaultStringRouter::from_embedded_data().unwrap();
    assert!(router.get_string_subrecord_types("WEAP").is_some());
    assert!(router.get_string_subrecord_types("ARMO").is_some());
    assert!(router.get_string_subrecord_types("BOOK").is_some());
    let weap = router.get_string_subrecord_types("WEAP").unwrap();
    assert_eq!(weap, &vec!["FULL".to_string(), "DESC".to_string()]);
}

#[test]
fn test_json_format() {
    let router = DefaultStringRouter::from_embedded_data().unwrap();
    for (key, value) in router.routes.iter() {
        assert!(!value.is_empty(), "Record type {} has empty subrecord list", key);
    }
}
