use esp_extractor::group::{Group, GroupChild, GroupType};
use esp_extractor::record::Record;
use esp_extractor::subrecord::Subrecord;
use std::io::Write;

fn sub(tag: &[u8; 4], data: &[u8]) -> Vec<u8> {
    let mut v = tag.to_vec();
    v.extend_from_slice(&(data.len() as u16).to_le_bytes());
    v.extend_from_slice(data);
    v
}

fn record(tag: &[u8; 4], flags: u32, form_id: u32, payload: &[u8]) -> Vec<u8> {
    let mut v = tag.to_vec();
    v.extend_from_slice(&(payload.len() as u32).to_le_bytes());
    v.extend_from_slice(&flags.to_le_bytes());
    v.extend_from_slice(&form_id.to_le_bytes());
    v.extend_from_slice(&[1, 2, 3, 4, 5, 6, 7, 8]);
    v.extend_from_slice(payload);
    v
}

fn group(label: &[u8; 4], kind: i32, children: &[u8]) -> Vec<u8> {
    let mut v = b"GRUP".to_vec();
    v.extend_from_slice(&((24 + children.len()) as u32).to_le_bytes());
    v.extend_from_slice(label);
    v.extend_from_slice(&kind.to_le_bytes());
    v.extend_from_slice(&[9, 0, 8, 0, 7, 0, 0, 0]);
    v.extend_from_slice(children);
    v
}

#[test]
fn test_null_padding_1byte() {
    let data = vec![b'E', b'D', b'I', b'D', 0x04, 0x00, b't', b'e', b's', b't', 0x00];
    let result = Record::parse_subrecords(&data);
    assert!(result.is_ok(), "应该成功解析带 1 字节填充的记录");
    let subrecords = result.unwrap();
    assert_eq!(subrecords.len(), 1, "应该解析出 1 个子记录");
    assert_eq!(subrecords[0].record_type, "EDID");
}

#[test]
fn test_null_padding_4bytes() {
    let data = vec![b'E', b'D', b'I', b'D', 0x04, 0x00, b't', b'e', b's', b't', 0x00, 0x00, 0x00, 0x00];
    let result = Record::parse_subrecords(&data);
    assert!(result.is_ok(), "应该成功解析带 4 字节填充的记录");
    let subrecords = result.unwrap();
    assert_eq!(subrecords.len(), 1);
}

#[test]
fn test_null_padding_7bytes() {
    let data = vec![
        b'F', b'U', b'L', b'L', 0x05, 0x00, b'S', b'w', b'o', b'r', b'd',
        0x00, 0x00, 0x00, 0x00, 0x00, 0x00, 0x00,
    ];
    let result = Record::parse_subrecords(&data);
    assert!(result.is_ok(), "应该成功解析带 7 字节填充的记录");
}

#[test]
fn test_no_padding() {
    let data = vec![b'E', b'D', b'I', b'D', 0x04, 0x00, b't', b'e', b's', b't'];
    let result = Record::parse_subrecords(&data);
    assert!(result.is_ok(), "应该成功解析无填充的记录");
    assert_eq!(result.unwrap().len(), 1);
}

#[test]
fn test_multiple_subrecords_with_padding() {
    let data = vec![
        b'E', b'D', b'I', b'D', 0x04, 0x00, b't', b'e', b's', b't',
        b'F', b'U', b'L', b'L', 0x05, 0x00, b'S', b'w', b'o', b'r', b'd',
        0x00, 0x00,
    ];
    let result = Record::parse_subrecords(&data);
    assert!(result.is_ok());
    assert_eq!(result.unwrap().len(), 2, "应该解析出 2 个子记录");
}

#[test]
fn test_invalid_trailing_data() {
    let data = vec![b'E', b'D', b'I', b'D', 0x04, 0x00, b't', b'e', b's', b't', 0xFF, 0xAA];
    let result = Record::parse_subrecords(&data);
    assert!(result.is_err(), "非 NULL 的尾部数据应该报错");
    let err_msg = result.unwrap_err().message();
    assert!(err_msg.contains("非 NULL 数据"), "错误信息应包含'非 NULL 数据'");
}

#[test]
fn test_mixed_invalid_padding() {
    let data = vec![b'E', b'D', b'I', b'D', 0x04, 0x00, b't', b'e', b's', b't', 0x00, 0xFF, 0x00];
    let result = Record::parse_subrecords(&data);
    assert!(result.is_err(), "混合填充应该报错");
}

#[test]
fn oversized_field_escape_is_followed() {
    let mut data = b"XXXX".to_vec();
    data.extend_from_slice(&4u16.to_le_bytes());
    data.extend_from_slice(&5u32.to_le_bytes());
    data.extend_from_slice(b"DATA");
    data.extend_from_slice(&0u16.to_le_bytes());
    data.extend_from_slice(b"hello");
    data.extend_from_slice(&sub(b"FULL", b"x\0"));
    let subs = Record::parse_subrecords(&data).unwrap();
    assert_eq!(subs.len(), 2);
    assert_eq!(subs[0].record_type, "DATA");
    assert_eq!(subs[0].size, 0);
    assert_eq!(subs[0].data, b"hello".to_vec());
    assert_eq!(subs[1].get_type(), "FULL");
    let mut bad = b"XXXX".to_vec();
    bad.extend_from_slice(&3u16.to_le_bytes());
    bad.extend_from_slice(&[0, 0, 0]);
    assert!(Subrecord::parse(&bad, 0).is_err());
}

#[test]
fn unmodified_record_round_trips() {
    let payload = [sub(b"EDID", b"Sword01\0"), sub(b"FULL", b"Iron Sword\0")].concat();
    let bytes = record(b"WEAP", 0x0000_0400, 0x0001_2345, &payload);
    let (rec, next) = Record::parse(&bytes, 0).unwrap();
    assert_eq!(next, bytes.len());
    assert_eq!(rec.get_type(), "WEAP");
    assert_eq!(rec.get_form_id(), 0x0001_2345);
    assert_eq!(rec.get_editor_id(), Some("Sword01".to_string()));
    assert_eq!(rec.find_subrecords("FULL").len(), 1);
    assert!(rec.find_subrecord("DESC").is_none());
    let mut out = Vec::new();
    rec.write(&mut out).unwrap();
    assert_eq!(out, bytes);
}

#[test]
fn compressed_record_round_trips_unmodified() {
    let body = [sub(b"EDID", b"Zipped\0"), sub(b"FULL", b"Packed Name\0")].concat();
    let mut enc = flate2::write::ZlibEncoder::new(Vec::new(), flate2::Compression::default());
    enc.write_all(&body).unwrap();
    let z = enc.finish().unwrap();
    let mut payload = (body.len() as u32).to_le_bytes().to_vec();
    payload.extend_from_slice(&z);
    let bytes = record(b"BOOK", 0x0004_0000, 7, &payload);
    let (rec, _) = Record::parse(&bytes, 0).unwrap();
    assert_eq!(rec.subrecords.len(), 2);
    assert_eq!(rec.raw_data, body);
    let mut out = Vec::new();
    rec.write(&mut out).unwrap();
    assert_eq!(out, bytes);
}

#[test]
fn corrupt_compressed_record_stays_opaque() {
    let mut payload = 10u32.to_le_bytes().to_vec();
    payload.extend_from_slice(&[1, 2, 3, 4, 5]);
    let bytes = record(b"BOOK", 0x0004_0000, 7, &payload);
    let (rec, _) = Record::parse(&bytes, 0).unwrap();
    assert!(rec.subrecords.is_empty());
    let mut out = Vec::new();
    rec.write(&mut out).unwrap();
    assert_eq!(out, bytes);
}

#[test]
fn modified_compressed_record_is_recompressed() {
    let body = sub(b"FULL", b"Name\0");
    let mut enc = flate2::write::ZlibEncoder::new(Vec::new(), flate2::Compression::default());
    enc.write_all(&body).unwrap();
    let z = enc.finish().unwrap();
    let mut payload = (body.len() as u32).to_le_bytes().to_vec();
    payload.extend_from_slice(&z);
    let bytes = record(b"BOOK", 0x0004_0000, 7, &payload);
    let (mut rec, _) = Record::parse(&bytes, 0).unwrap();
    rec.mark_modified();
    let mut out = Vec::new();
    rec.write(&mut out).unwrap();
    let (again, _) = Record::parse(&out, 0).unwrap();
    assert_eq!(again.raw_data, body);
}

#[test]
fn oversized_record_size_is_rejected() {
    let mut bytes = record(b"WEAP", 0, 1, &[]);
    bytes[4..8].copy_from_slice(&200_000_000u32.to_le_bytes());
    assert!(Record::parse(&bytes, 0).is_err());
    assert!(Record::parse(&bytes[..10], 0).is_err());
}

#[test]
fn group_parses_nested_children_and_rewrites_size() {
    let r1 = record(b"WEAP", 0, 1, &sub(b"FULL", b"A\0"));
    let inner = group(b"ABCD", 6, &record(b"MISC", 0, 2, &sub(b"FULL", b"B\0")));
    let bytes = group(b"WEAP", 0, &[r1.clone(), inner.clone()].concat());
    let (g, next) = Group::parse(&bytes, 0).unwrap();
    assert_eq!(next, bytes.len());
    assert_eq!(g.children.len(), 2);
    assert_eq!(g.get_type(), &GroupType::Normal);
    assert_eq!(g.get_label_string(), "WEAP");
    match &g.children[1] {
        GroupChild::Group(sub) => assert_eq!(sub.group_type, GroupType::Cell),
        GroupChild::Record(_) => panic!("expected a nested group"),
    }
    assert_eq!(g.get_records().len(), 2);
    let mut out = Vec::new();
    g.write(&mut out).unwrap();
    assert_eq!(out, bytes);
    let declared = u32::from_le_bytes([out[4], out[5], out[6], out[7]]) as usize;
    assert_eq!(declared, 24 + r1.len() + inner.len());
}

#[test]
fn group_errors() {
    let bad_magic = [b"GRUX".to_vec(), vec![0; 20]].concat();
    assert!(Group::parse(&bad_magic, 0).is_err());
    let mut small = group(b"WEAP", 0, &[]);
    small[4..8].copy_from_slice(&10u32.to_le_bytes());
    assert!(Group::parse(&small, 0).is_err());
    assert_eq!(GroupType::from_i32(1), GroupType::World);
    assert_eq!(GroupType::from_i32(42).to_i32(), 42);
}

#[test]
fn trailing_bytes_name_the_previous_subrecord() {
    let data = vec![b'E', b'D', b'I', b'D', 0x04, 0x00, b't', b'e', b's', b't', 0xFF, 0xAA];
    let msg = Record::parse_subrecords(&data).unwrap_err().message();
    assert!(msg.contains("EDID"));
    assert!(msg.contains("offset 10"));
}

#[test]
fn debugger_helpers() {
    use_debugger();
}

fn use_debugger() {
    let data = [sub(b"EDID", b"ab"), sub(b"FULL", b"xyz\0")].concat();
    let subs = Record::parse_subrecords(&data).unwrap();
    assert_eq!(esp_extractor::debug::EspDebugger::calculate_subrecord_size(&subs), 18);
    assert!(esp_extractor::debug::EspDebugger::is_likely_string_subrecord("FULL"));
    assert!(esp_extractor::debug::EspDebugger::is_likely_string_subrecord("SHRT"));
    assert!(!esp_extractor::debug::EspDebugger::is_likely_string_subrecord("DATA"));
}
