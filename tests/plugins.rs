use esp_extractor::extracted::ExtractedString;
use esp_extractor::plugin::{determine_string_file_type, Plugin};
use esp_extractor::router::DefaultStringRouter;
use esp_extractor::string_file::{StringEntry, StringFile, StringFileType};
use esp_extractor::string_set::StringFileSet;

fn sub(tag: &[u8; 4], data: &[u8]) -> Vec<u8> {
    let mut v = tag.to_vec();
    v.extend_from_slice(&(data.len() as u16).to_le_bytes());
    v.extend_from_slice(data);
    v
}

fn record(tag: &[u8; 4], flags: u32, form_id: u32, payload: &[u8]) -> Vec<u8> {
    let mut v = tag.to_vec();
    v.extend_from_slice(&(payload.len() as u32).to_le_bytes());
    v.extend_from_slice(&flags.to_le_bytes());
    v.extend_from_slice(&form_id.to_le_bytes());
    v.extend_from_slice(&[0; 8]);
    v.extend_from_slice(payload);
    v
}

fn group(label: &[u8; 4], children: &[u8]) -> Vec<u8> {
    let mut v = b"GRUP".to_vec();
    v.extend_from_slice(&((24 + children.len()) as u32).to_le_bytes());
    v.extend_from_slice(label);
    v.extend_from_slice(&0i32.to_le_bytes());
    v.extend_from_slice(&[0; 8]);
    v.extend_from_slice(children);
    v
}

fn header(flags: u32, masters: &[&str]) -> Vec<u8> {
    let mut payload = sub(b"HEDR", &[0; 12]);
    for m in masters {
        let mut name = m.as_bytes().to_vec();
        name.push(0);
        payload.extend_from_slice(&sub(b"MAST", &name));
    }
    record(b"TES4", flags, 0, &payload)
}

fn load(bytes: &[u8]) -> Plugin {
    let router = DefaultStringRouter::from_embedded_data().unwrap();
    Plugin::load_from_bytes("Test.esp".to_string(), bytes, router).unwrap()
}

fn sword_plugin() -> Vec<u8> {
    let weap = record(b"WEAP", 0, 0x0100_0800, &[sub(b"EDID", b"Sword01\0"), sub(b"FULL", b"Iron Sword\0")].concat());
    [header(0, &["Skyrim.esm"]), group(b"WEAP", &weap)].concat()
}

#[test]
fn test_info_routes_to_ilstrings() {
    assert_eq!(determine_string_file_type("INFO", "NAM1"), StringFileType::ILSTRINGS);
}

#[test]
fn test_desc_routes_to_dlstrings() {
    assert_eq!(determine_string_file_type("PERK", "DESC"), StringFileType::DLSTRINGS);
    assert_eq!(determine_string_file_type("WEAP", "DESC"), StringFileType::DLSTRINGS);
    assert_eq!(determine_string_file_type("MESG", "DESC"), StringFileType::DLSTRINGS);
}

#[test]
fn test_cnam_routes_to_dlstrings() {
    assert_eq!(determine_string_file_type("QUST", "CNAM"), StringFileType::DLSTRINGS);
    assert_eq!(determine_string_file_type("BOOK", "CNAM"), StringFileType::DLSTRINGS);
}

#[test]
fn test_full_routes_to_strings() {
    assert_eq!(determine_string_file_type("WEAP", "FULL"), StringFileType::STRINGS);
    assert_eq!(determine_string_file_type("PERK", "FULL"), StringFileType::STRINGS);
    assert_eq!(determine_string_file_type("DIAL", "FULL"), StringFileType::STRINGS);
}

#[test]
fn sword_record_yields_one_unit() {
    let plugin = load(&sword_plugin());
    assert_eq!(plugin.masters, vec!["Skyrim.esm".to_string()]);
    let units = plugin.extract_strings();
    assert_eq!(units.len(), 1);
    let u = &units[0];
    assert_eq!(u.subrecord_type, "FULL");
    assert_eq!(u.index, 0);
    assert_eq!(u.text, "Iron Sword");
    assert_eq!(u.editor_id, Some("Sword01".to_string()));
    assert_eq!(u.form_id, "01000800|Test.esp");
    assert_eq!(u.get_unique_key(), "Sword01|01000800|Test.esp|WEAP FULL|0");
    assert_eq!(u.get_string_type(), "WEAP FULL");
}

#[test]
fn master_owned_form_id_names_the_master() {
    let weap = record(b"WEAP", 0, 0x0000_0123, &sub(b"FULL", b"Iron Sword\0"));
    let plugin = load(&[header(0, &["Skyrim.esm"]), group(b"WEAP", &weap)].concat());
    assert_eq!(plugin.extract_strings()[0].form_id, "00000123|Skyrim.esm");
}

fn message_plugin() -> Vec<u8> {
    let mesg = record(b"MESG", 0, 0x0100_0900, &[sub(b"EDID", b"Ask\0"), sub(b"ITXT", b"Yes\0"), sub(b"ITXT", b"No\0")].concat());
    [header(0, &[]), group(b"MESG", &mesg)].concat()
}

#[test]
fn two_buttons_get_indices_and_swap() {
    let mut plugin = load(&message_plugin());
    let units = plugin.extract_strings();
    assert_eq!(units.len(), 2);
    assert_eq!((units[0].index, units[0].text.as_str()), (0, "Yes"));
    assert_eq!((units[1].index, units[1].text.as_str()), (1, "No"));
    assert_eq!(units[0].subrecord_type, units[1].subrecord_type);
    assert_eq!(units[0].form_id, units[1].form_id);
    let mut swapped = units.clone();
    swapped[0].text = "No".to_string();
    swapped[1].text = "Yes".to_string();
    let applied = plugin.apply_translation_map(&swapped);
    assert_eq!(applied, 2);
    let out = plugin.write_to_buffer().unwrap();
    let again = load(&out);
    let units = again.extract_strings();
    assert_eq!(units[0].text, "No");
    assert_eq!(units[1].text, "Yes");
}

#[test]
fn index_counts_routed_fields_of_any_type() {
    let mesg = record(b"MESG", 0, 0x0100_0900, &[sub(b"DESC", b"Pick a floor\0"), sub(b"DATA", b"zz"), sub(b"ITXT", b"First floor\0"), sub(b"FULL", b"\0"), sub(b"ITXT", b"Cancel it\0")].concat());
    let plugin = load(&[header(0, &[]), group(b"MESG", &mesg)].concat());
    let units = plugin.extract_strings();
    let got: Vec<(String, i32)> = units.iter().map(|u| (u.subrecord_type.clone(), u.index)).collect();
    assert_eq!(got, vec![("DESC".to_string(), 0), ("ITXT".to_string(), 1), ("ITXT".to_string(), 3)]);
}

#[test]
fn unknown_key_changes_nothing() {
    let bytes = sword_plugin();
    let mut plugin = load(&bytes);
    let stray = ExtractedString::new(Some("Nope".into()), "01000800|Test.esp".into(), "WEAP".into(), "FULL".into(), "Other".into(), 0);
    let applied = plugin.apply_translation_map(&vec![stray]);
    assert_eq!(applied, 0);
    assert_eq!(plugin.write_to_buffer().unwrap(), bytes);
}

#[test]
fn unmodified_plugin_round_trips() {
    let bytes = [sword_plugin(), group(b"MESG", &record(b"MESG", 0, 5, &sub(b"ITXT", b"x\0")))].concat();
    let plugin = load(&bytes);
    assert_eq!(plugin.groups.len(), 2);
    assert_eq!(plugin.write_to_buffer().unwrap(), bytes);
}

#[test]
fn bad_header_is_rejected() {
    let bytes = [record(b"WEAP", 0, 0, &[]), group(b"WEAP", &[])].concat();
    let router = DefaultStringRouter::from_embedded_data().unwrap();
    assert!(Plugin::load_from_bytes("x.esp".into(), &bytes, router).is_err());
}

fn localized_plugin() -> Vec<u8> {
    let weap = record(b"WEAP", 0, 0x0100_0800, &[sub(b"FULL", &5u32.to_le_bytes()), sub(b"DESC", &0u32.to_le_bytes()), sub(b"DESC", &9u32.to_le_bytes())].concat());
    [header(0x80, &[]), group(b"WEAP", &weap)].concat()
}

fn localized_tables() -> StringFileSet {
    let mut set = StringFileSet::new("Test".into(), "english".into());
    set.add_file(StringFileType::STRINGS, StringFile::with_entries("Test".into(), "english".into(), StringFileType::STRINGS, vec![StringEntry::new(5, "Blade".into())]));
    set.add_file(StringFileType::DLSTRINGS, StringFile::with_entries("Test".into(), "english".into(), StringFileType::DLSTRINGS, vec![StringEntry::new(9, "Sharp.".into())]));
    set
}

#[test]
fn localized_ids_resolve_and_zero_is_skipped() {
    let mut plugin = load(&localized_plugin());
    assert!(plugin.is_localized());
    let units = plugin.extract_strings();
    let got: Vec<(String, i32)> = units.iter().map(|u| (u.text.clone(), u.index)).collect();
    assert_eq!(got, vec![("StringID_5".to_string(), 0), ("StringID_9".to_string(), 2)]);
    plugin.set_string_files(localized_tables());
    let units = plugin.extract_strings();
    let got: Vec<(String, i32)> = units.iter().map(|u| (u.text.clone(), u.index)).collect();
    assert_eq!(got, vec![("Blade".to_string(), 0), ("Sharp.".to_string(), 2)]);
}

#[test]
fn localized_miss_gives_placeholder() {
    let mut plugin = load(&localized_plugin());
    let mut set = StringFileSet::new("Test".into(), "english".into());
    set.add_file(StringFileType::STRINGS, StringFile::with_entries("Test".into(), "english".into(), StringFileType::STRINGS, vec![]));
    plugin.set_string_files(set);
    let units = plugin.extract_strings();
    assert_eq!(units[0].text, "StringID_5_STRINGS");
    assert_eq!(units[1].text, "StringID_9_DLSTRINGS");
}

fn many_records(n: usize) -> Vec<u8> {
    let mut children = Vec::new();
    for i in 0..n {
        children.extend_from_slice(&record(b"MISC", 0, 0x0100_0000 | i as u32, &[]));
    }
    children.extend_from_slice(&record(b"MISC", 0, 0x0000_0042, &[]));
    [header(0, &["Skyrim.esm"]), group(b"MISC", &children)].concat()
}

#[test]
fn light_renumbering_over_capacity_changes_nothing() {
    let bytes = many_records(2049);
    let mut plugin = load(&bytes);
    assert!(plugin.eslify_formids().is_err());
    assert_eq!(plugin.write_to_buffer().unwrap(), bytes);
}

#[test]
fn light_renumbering_assigns_ids_in_order() {
    let mut plugin = load(&many_records(3));
    assert!(plugin.eslify_formids().is_ok());
    let ids: Vec<u32> = plugin.groups[0].get_records().iter().map(|r| r.form_id).collect();
    assert_eq!(ids, vec![0x0100_0800, 0x0100_0801, 0x0100_0802, 0x0000_0042]);
    let mut full = load(&many_records(2048));
    assert!(full.eslify_formids().is_ok());
    assert!(full.is_light() == false);
}

#[test]
fn localized_translations_update_tables() {
    let mut plugin = load(&localized_plugin());
    plugin.set_string_files(localized_tables());
    let mut units = plugin.extract_strings();
    units[0].text = "Klinge".to_string();
    units[1].text = "Scharf.".to_string();
    let stray = ExtractedString::new(None, "00000000|Test.esp".into(), "WEAP".into(), "FULL".into(), "x".into(), 0);
    units.push(stray);
    let applied = plugin.apply_translations_unified(&units).unwrap();
    assert_eq!(applied, 2);
    let set = plugin.string_files.as_ref().unwrap();
    assert_eq!(set.get_string_by_type(StringFileType::STRINGS, 5).unwrap().content, "Klinge");
    assert_eq!(set.get_string_by_type(StringFileType::DLSTRINGS, 9).unwrap().content, "Scharf.");
    assert_eq!(set.get_all_string_ids(), vec![5, 9]);
    let ids = plugin.build_string_id_map();
    assert_eq!(ids.len(), 3);
    assert_eq!(ids[1].0, "|01000800|Test.esp|WEAP DESC|1");
    assert_eq!((ids[1].1, ids[1].2), (StringFileType::DLSTRINGS, 0));
}

#[test]
fn localized_apply_without_tables_fails() {
    let mut plugin = load(&localized_plugin());
    let units = plugin.extract_strings();
    assert!(plugin.apply_translations_to_string_files(&units).is_err());
}

#[test]
fn set_batch_apply() {
    let mut set = localized_tables();
    let updates = vec![((StringFileType::STRINGS, 5u32), "A".to_string()), ((StringFileType::DLSTRINGS, 9u32), "B".to_string())];
    assert!(set.apply_translations(&updates).is_ok());
    assert_eq!(set.get_string(9).unwrap().content, "B");
    let missing = vec![((StringFileType::ILSTRINGS, 5u32), "C".to_string())];
    assert!(set.apply_translations(&missing).is_err());
    assert!(set.update_strings(StringFileType::STRINGS, vec![(5, "D".to_string())]).is_ok());
    assert_eq!(set.get_string(5).unwrap().content, "D");
}

#[test]
fn plugin_stats_count_everything() {
    let inner = {
        let mut v = b"GRUP".to_vec();
        let child = record(b"MISC", 0, 3, &sub(b"FULL", b"Inner thing\0"));
        v.extend_from_slice(&((24 + child.len()) as u32).to_le_bytes());
        v.extend_from_slice(b"ABCD");
        v.extend_from_slice(&6i32.to_le_bytes());
        v.extend_from_slice(&[0; 8]);
        v.extend_from_slice(&child);
        v
    };
    let bytes = [sword_plugin(), group(b"MISC", &inner)].concat();
    let plugin = load(&bytes);
    let stats = plugin.get_stats();
    assert_eq!(stats.name, "Test.esp");
    assert_eq!(stats.plugin_type, "插件 (ESP)");
    assert!(!stats.is_master);
    assert!(!stats.is_localized);
    assert_eq!(stats.master_count, 1);
    assert_eq!(stats.group_count, 3);
    assert_eq!(stats.record_count, 3);
    assert_eq!(stats.string_count, 2);
    assert_eq!(plugin.header.debug_flags(), Vec::<String>::new());
}

#[test]
fn header_flags_are_named() {
    let plugin = load(&[header(0x281, &[]), group(b"WEAP", &[])].concat());
    assert_eq!(plugin.header.debug_flags(), vec!["MASTER_FILE".to_string(), "LOCALIZED".to_string(), "LIGHT_MASTER".to_string()]);
    assert!(plugin.is_light());
    assert!(plugin.is_localized());
}
