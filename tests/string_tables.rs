use esp_extractor::string_file::{parse_table, StringEntry, StringFile, StringFileType};
use esp_extractor::string_set::StringFileSet;

fn create_test_string_file() -> StringFile {
    let entries = vec![
        StringEntry::new(1, "Iron Sword".to_string()),
        StringEntry::new(2, "Steel Dagger".to_string()),
        StringEntry::new(100, "Dragon's Breath".to_string()),
    ];
    StringFile::with_entries("TestMod".to_string(), "english".to_string(), StringFileType::STRINGS, entries)
}

#[test]
fn string_file_test_update_string() {
    let mut file = create_test_string_file();
    assert!(file.update_string(1, "铁剑".to_string()).is_ok());
    assert_eq!(file.get_string(1).unwrap().content, "铁剑");
    assert!(file.update_string(999, "不存在".to_string()).is_err());
}

#[test]
fn tests_test_update_string() {
    let mut file = create_test_string_file();
    assert!(file.update_string(1, "铁剑".to_string()).is_ok());
    assert_eq!(file.get_string(1).unwrap().content, "铁剑");
    assert!(file.update_string(999, "不存在".to_string()).is_err());
}

#[test]
fn string_file_test_add_string() {
    let mut file = create_test_string_file();
    assert!(file.add_string(200, "新物品".to_string()).is_ok());
    assert_eq!(file.get_string(200).unwrap().content, "新物品");
    assert!(file.add_string(1, "重复".to_string()).is_err());
}

#[test]
fn tests_test_add_string() {
    let mut file = create_test_string_file();
    assert!(file.add_string(200, "新物品".to_string()).is_ok());
    assert_eq!(file.get_string(200).unwrap().content, "新物品");
    assert!(file.add_string(1, "重复".to_string()).is_err());
}

#[test]
fn string_file_test_remove_string() {
    let mut file = create_test_string_file();
    assert!(file.remove_string(1).is_some());
    assert!(file.get_string(1).is_none());
    assert!(file.remove_string(999).is_none());
}

#[test]
fn tests_test_remove_string() {
    let mut file = create_test_string_file();
    assert!(file.remove_string(1).is_some());
    assert!(file.get_string(1).is_none());
    assert!(file.remove_string(999).is_none());
}

#[test]
fn string_file_test_rebuild_strings() {
    let file = create_test_string_file();
    let result = file.rebuild();
    assert!(result.is_ok());
    let data = result.unwrap();
    assert!(data.len() > 8);
    let count = u32::from_le_bytes([data[0], data[1], data[2], data[3]]);
    assert_eq!(count, 3);
}

#[test]
fn tests_test_rebuild_strings() {
    let file = create_test_string_file();
    let result = file.rebuild();
    assert!(result.is_ok());
    let data = result.unwrap();
    assert!(data.len() > 8);
    let count = u32::from_le_bytes([data[0], data[1], data[2], data[3]]);
    assert_eq!(count, 3);
}

fn dlstrings_file() -> StringFile {
    let entries = vec![StringEntry::new(1, "对话内容".to_string())];
    StringFile::with_entries("TestMod".to_string(), "chinese".to_string(), StringFileType::DLSTRINGS, entries)
}

#[test]
fn string_file_test_rebuild_dlstrings() {
    let file = dlstrings_file();
    let result = file.rebuild();
    assert!(result.is_ok());
    let data = result.unwrap();
    assert!(data.len() > 8);
}

#[test]
fn tests_test_rebuild_dlstrings() {
    let file = dlstrings_file();
    let result = file.rebuild();
    assert!(result.is_ok());
    let data = result.unwrap();
    assert!(data.len() > 8);
}

fn set_update() {
    let mut set = StringFileSet::new("TestMod".to_string(), "english".to_string());
    let strings_file = create_test_string_file();
    set.add_file(StringFileType::STRINGS, strings_file);
    assert!(set.update_string(StringFileType::STRINGS, 1, "更新的文本".to_string()).is_ok());
    let entry = set.get_string_by_type(StringFileType::STRINGS, 1).unwrap();
    assert_eq!(entry.content, "更新的文本");
}

#[test]
fn string_file_test_string_file_set_update() {
    set_update();
}

#[test]
fn tests_test_string_file_set_update() {
    set_update();
}

fn batch_updates() {
    let mut file = create_test_string_file();
    let updates = vec![(1u32, "铁剑".to_string()), (2u32, "钢制匕首".to_string())];
    assert!(file.update_strings(updates).is_ok());
    assert_eq!(file.get_string(1).unwrap().content, "铁剑");
    assert_eq!(file.get_string(2).unwrap().content, "钢制匕首");
}

#[test]
fn string_file_test_batch_updates() {
    batch_updates();
}

#[test]
fn tests_test_batch_updates() {
    batch_updates();
}

#[test]
fn test_from_bytes() {
    let test_file = create_test_string_file();
    let bytes = test_file.rebuild().unwrap();
    let loaded_file = StringFile::from_bytes(&bytes, "TestPlugin".to_string(), "english".to_string(), StringFileType::STRINGS).unwrap();
    assert_eq!(loaded_file.plugin_name, "TestPlugin");
    assert_eq!(loaded_file.language, "english");
    assert_eq!(loaded_file.file_type, StringFileType::STRINGS);
    assert_eq!(loaded_file.count(), test_file.count());
    assert_eq!(loaded_file.get_string(1).unwrap().content, "Iron Sword");
    assert_eq!(loaded_file.get_string(2).unwrap().content, "Steel Dagger");
}

#[test]
fn test_string_file_set_from_memory() {
    let strings_file = create_test_string_file();
    let strings_bytes = strings_file.rebuild().unwrap();
    let files_data = vec![(StringFileType::STRINGS, strings_bytes)];
    let set = StringFileSet::from_memory(files_data, "TestMod".to_string(), "chinese".to_string()).unwrap();
    assert_eq!(set.plugin_name, "TestMod");
    assert_eq!(set.language, "chinese");
    assert_eq!(set.files.len(), 1);
    assert!(set.get_file(&StringFileType::STRINGS).is_some());
    let string1 = set.get_string_by_type(StringFileType::STRINGS, 1);
    assert!(string1.is_some());
    assert_eq!(string1.unwrap().content, "Iron Sword");
}

#[test]
fn rebuild_layout_general_table() {
    let file = create_test_string_file();
    let data = file.rebuild().unwrap();
    // header: 3 entries, blob = "Iron Sword\0" (11) + "Steel Dagger\0" (13) + "Dragon's Breath\0" (16)
    assert_eq!(&data[0..4], &3u32.to_le_bytes());
    assert_eq!(&data[4..8], &40u32.to_le_bytes());
    assert_eq!(&data[8..16], &[1, 0, 0, 0, 0, 0, 0, 0]);
    assert_eq!(&data[16..24], &[2, 0, 0, 0, 11, 0, 0, 0]);
    assert_eq!(&data[24..32], &[100, 0, 0, 0, 24, 0, 0, 0]);
    assert_eq!(&data[32..43], b"Iron Sword\0");
    assert_eq!(data.len(), 32 + 40);
}

#[test]
fn rebuild_layout_prefixed_table() {
    let entries = vec![StringEntry::new(7, "Hi".to_string()), StringEntry::new(3, "Yo!".to_string())];
    let file = StringFile::with_entries("M".to_string(), "english".to_string(), StringFileType::ILSTRINGS, entries);
    let data = file.rebuild().unwrap();
    assert_eq!(&data[0..8], &[2, 0, 0, 0, 15, 0, 0, 0]);
    assert_eq!(&data[8..16], &[3, 0, 0, 0, 0, 0, 0, 0]);
    assert_eq!(&data[16..24], &[7, 0, 0, 0, 8, 0, 0, 0]);
    assert_eq!(&data[24..32], &[3, 0, 0, 0, b'Y', b'o', b'!', 0]);
    assert_eq!(&data[32..39], &[2, 0, 0, 0, b'H', b'i', 0]);
    let back = StringFile::from_bytes(&data, "M".to_string(), "english".to_string(), StringFileType::ILSTRINGS).unwrap();
    assert_eq!(back.get_string(7).unwrap().content, "Hi");
    assert_eq!(back.get_string(3).unwrap().content, "Yo!");
    assert_eq!(back.get_string_ids(), vec![3, 7]);
}

#[test]
fn reparse_reproduces_mapping() {
    let mut file = create_test_string_file();
    file.update_string(2, "钢制匕首".to_string()).unwrap();
    let data = file.rebuild().unwrap();
    let back = StringFile::from_bytes(&data, "TestMod".to_string(), "english".to_string(), StringFileType::STRINGS).unwrap();
    assert_eq!(back.get_string_ids(), vec![1, 2, 100]);
    assert_eq!(back.get_string(2).unwrap().content, "钢制匕首");
    assert_eq!(back.get_string(100).unwrap().content, "Dragon's Breath");
    assert_eq!(back.skipped, 0);
}

#[test]
fn out_of_range_offset_is_skipped_and_counted() {
    let mut data = Vec::new();
    data.extend_from_slice(&3u32.to_le_bytes());
    data.extend_from_slice(&6u32.to_le_bytes());
    for (id, off) in [(1u32, 0u32), (2, 3), (3, 500)] {
        data.extend_from_slice(&id.to_le_bytes());
        data.extend_from_slice(&off.to_le_bytes());
    }
    data.extend_from_slice(b"ab\0cd\0");
    let (entries, skipped) = parse_table(&data, StringFileType::STRINGS).unwrap();
    assert_eq!(entries.len(), 2);
    assert_eq!(skipped, 1);
    assert_eq!(entries[0].content, "ab");
    assert_eq!(entries[1].content, "cd");
}

#[test]
fn short_table_is_rejected() {
    assert!(parse_table(&[1, 0, 0], StringFileType::STRINGS).is_err());
    let mut data = Vec::new();
    data.extend_from_slice(&1u32.to_le_bytes());
    data.extend_from_slice(&0u32.to_le_bytes());
    assert!(parse_table(&data, StringFileType::STRINGS).is_err());
}

#[test]
fn kinds_from_extensions() {
    assert_eq!(StringFileType::from_extension("dlstrings"), Some(StringFileType::DLSTRINGS));
    assert_eq!(StringFileType::from_extension("ILStrings"), Some(StringFileType::ILSTRINGS));
    assert_eq!(StringFileType::from_extension("STRINGS"), Some(StringFileType::STRINGS));
    assert_eq!(StringFileType::from_extension("txt"), None);
    assert_eq!(StringFileType::DLSTRINGS.to_extension(), "DLSTRINGS");
    assert!(StringFileType::ILSTRINGS.has_length_prefix());
    assert!(!StringFileType::STRINGS.has_length_prefix());
    let e = StringEntry::new(5, "ab".to_string());
    assert_eq!(e.get_total_size(&StringFileType::STRINGS), 3);
    assert_eq!(e.get_total_size(&StringFileType::DLSTRINGS), 7);
}

#[test]
fn set_lookup_order_and_counts() {
    let mut set = StringFileSet::new("M".to_string(), "english".to_string());
    let general = StringFile::with_entries("M".into(), "english".into(), StringFileType::STRINGS, vec![StringEntry::new(1, "general".into())]);
    let dialog = StringFile::with_entries("M".into(), "english".into(), StringFileType::DLSTRINGS, vec![StringEntry::new(1, "dialog".into()), StringEntry::new(2, "only dialog".into())]);
    set.add_file(StringFileType::DLSTRINGS, dialog);
    set.add_file(StringFileType::STRINGS, general);
    assert_eq!(set.get_string(1).unwrap().content, "general");
    assert_eq!(set.get_string(2).unwrap().content, "only dialog");
    assert!(set.get_string(3).is_none());
    assert_eq!(set.total_count(), 3);
    assert!(set.update_string(StringFileType::ILSTRINGS, 1, "x".into()).is_err());
}

#[test]
fn find_strings_containing_text() {
    let file = create_test_string_file();
    let found = file.find_strings_containing("S");
    let ids: Vec<u32> = found.iter().map(|e| e.id).collect();
    assert_eq!(ids, vec![1, 2]);
}

#[test]
fn set_file_edited_in_place() {
    let mut set = StringFileSet::new("TestMod".to_string(), "english".to_string());
    set.add_file(StringFileType::STRINGS, create_test_string_file());
    {
        let f = set.get_file_mut(&StringFileType::STRINGS).unwrap();
        f.add_string(7, "Seven".to_string()).unwrap();
    }
    assert_eq!(set.get_string(7).unwrap().content, "Seven");
    assert!(set.get_file_mut(&StringFileType::DLSTRINGS).is_none());
    assert_eq!(set.get_all_string_ids(), vec![1, 2, 7, 100]);
}

#[test]
fn table_file_names() {
    use_names();
}

fn use_names() {
    let v = esp_extractor::table_names::build_filename_variants("Fish", "english", StringFileType::DLSTRINGS);
    assert_eq!(v, vec![
        "Fish_english.DLSTRINGS".to_string(),
        "Fish_english.dlstrings".to_string(),
        "fish_english.DLSTRINGS".to_string(),
        "fish_english.dlstrings".to_string(),
        "FISH_english.DLSTRINGS".to_string(),
        "FISH_english.dlstrings".to_string(),
    ]);
    let p = esp_extractor::table_names::parse_filename("ccbgssse001-fish_english.STRINGS").unwrap();
    assert_eq!(p, ("ccbgssse001-fish".to_string(), "english".to_string(), StringFileType::STRINGS));
    let p = esp_extractor::table_names::parse_filename("My_Mod_chinese.ilstrings").unwrap();
    assert_eq!(p, ("My_Mod".to_string(), "chinese".to_string(), StringFileType::ILSTRINGS));
    assert!(esp_extractor::table_names::parse_filename("NoLanguage.STRINGS").is_none());
    assert!(esp_extractor::table_names::parse_filename("Mod_english.txt").is_none());
    assert!(esp_extractor::table_names::parse_filename(".STRINGS").is_none());
}

#[test]
fn set_apply_translations_is_all_or_error() {
    let mut set = StringFileSet::new("TestMod".to_string(), "english".to_string());
    set.add_file(StringFileType::STRINGS, create_test_string_file());
    let ok = vec![((StringFileType::STRINGS, 2u32), "匕首".to_string()), ((StringFileType::STRINGS, 1u32), "剑".to_string())];
    assert!(set.apply_translations(&ok).is_ok());
    assert_eq!(set.get_string(1).unwrap().content, "剑");
    assert_eq!(set.get_string(2).unwrap().content, "匕首");
    assert_eq!(set.get_string(100).unwrap().content, "Dragon's Breath");
    let bad = vec![((StringFileType::STRINGS, 100u32), "龙息".to_string()), ((StringFileType::STRINGS, 5u32), "x".to_string())];
    assert!(set.apply_translations(&bad).is_err());
    assert_eq!(set.get_string(100).unwrap().content, "龙息");
}
