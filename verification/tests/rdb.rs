use mini_redis::db::{Store, DB};
use mini_redis::rdb::{
    clamp_flush_seconds, decode, encode, flush_every, flush_note, FlushNote, get_aux_field_values, get_next_byte,
    read_integer_encoded, read_key_value, read_le32, read_section, read_string_encoded,
    write_integer_encoded, write_key_value_no_ttl, write_key_value_ttl_sec, write_le32,
    write_string_encoded, RdbError, Section, RDB,
};

fn header(ctime: &str, entries: u8, rows: u8) -> Vec<u8> {
    let mut bytes = b"REDIS0003".to_vec();
    bytes.push(0xFA);
    bytes.push(5);
    bytes.extend_from_slice(b"ctime");
    bytes.push(ctime.len() as u8);
    bytes.extend_from_slice(ctime.as_bytes());
    bytes.extend_from_slice(&[0xFE, 1, b'0', 0xFB, entries, rows]);
    bytes
}

#[test]
fn empty_store_snapshot() {
    let store = Store::new();
    let bytes = encode(&store, "now").unwrap();
    let mut expected = header("now", 0, 0);
    expected.push(0xFF);
    assert_eq!(bytes, expected);
    assert!(decode(&bytes).unwrap().is_empty());
}

#[test]
fn snapshot_layout() {
    let mut store = Store::new();
    store.set("a".to_string(), b"1".to_vec(), None);
    store.set("b".to_string(), b"2".to_vec(), Some(0x0102_0304));
    let bytes = encode(&store, "2024-01-01 00:00:00 UTC").unwrap();
    let mut expected = header("2024-01-01 00:00:00 UTC", 2, 1);
    expected.extend_from_slice(&[1, b'0', 1, b'a', 1, b'1']);
    expected.extend_from_slice(&[0xFD, 0x04, 0x03, 0x02, 0x01, 1, b'0', 1, b'b', 1, b'2']);
    expected.push(0xFF);
    assert_eq!(bytes, expected);
}

#[test]
fn snapshot_round_trip() {
    let start = 1_700_000_000;
    let mut db = DB::new();
    db.set_at("a".to_string(), b"1".to_vec(), None, start);
    db.set_at("b".to_string(), b"2".to_vec(), Some(60), start);
    let bytes = RDB::new(&mut db).save_at("ctime").unwrap();

    let mut restarted = DB::new();
    assert_eq!(RDB::new(&mut restarted).load_at(&bytes, start + 1), Ok(()));
    assert_eq!(restarted.get("a"), Some(b"1".to_vec()));
    assert_eq!(restarted.get("b"), Some(b"2".to_vec()));
    assert_eq!(restarted.store().len(), 2);
    assert_eq!(restarted.store().ttl_len(), 1);
    assert_eq!(restarted.delete_entries_at(start + 59), Some(start + 60));
    assert_eq!(restarted.delete_entries_at(start + 60), None);
    assert_eq!(restarted.get("b"), None);
}

#[test]
fn load_drops_what_expired_before() {
    let mut db = DB::new();
    db.set_at("gone".to_string(), b"1".to_vec(), Some(10), 100);
    db.set_at("edge".to_string(), b"2".to_vec(), Some(20), 100);
    db.set_at("kept".to_string(), b"3".to_vec(), Some(30), 100);
    db.set_at("plain".to_string(), vec![0, 0xff, 0x0d, 0x0a], None, 100);
    let bytes = RDB::new(&mut db).save_at("t").unwrap();

    let mut restarted = DB::new();
    assert_eq!(RDB::new(&mut restarted).load_at(&bytes, 120), Ok(()));
    assert_eq!(restarted.get("gone"), None);
    assert_eq!(restarted.get("edge"), Some(b"2".to_vec()));
    assert_eq!(restarted.get("kept"), Some(b"3".to_vec()));
    assert_eq!(restarted.get("plain"), Some(vec![0, 0xff, 0x0d, 0x0a]));
    assert_eq!(restarted.store().len(), 3);
    assert_eq!(restarted.store().ttl_len(), 2);
}

#[test]
fn load_adds_to_what_is_there() {
    let mut db = DB::new();
    db.set_at("a".to_string(), b"new".to_vec(), None, 0);
    let bytes = RDB::new(&mut db).save_at("t").unwrap();
    let mut other = DB::new();
    other.set_at("a".to_string(), b"old".to_vec(), Some(5), 0);
    other.set_at("b".to_string(), b"stays".to_vec(), None, 0);
    assert_eq!(RDB::new(&mut other).load_at(&bytes, 0), Ok(()));
    assert_eq!(other.get("a"), Some(b"new".to_vec()));
    assert_eq!(other.get("b"), Some(b"stays".to_vec()));
    assert_eq!(other.store().ttl_len(), 0);
}

#[test]
fn save_and_load_with_the_clock() {
    let mut db = DB::new();
    db.set("a".to_string(), b"1".to_vec(), None);
    db.set("b".to_string(), b"2".to_vec(), Some(60));
    let bytes = RDB::new(&mut db).save().unwrap();
    assert_eq!(&bytes[..16], b"REDIS0003\xFA\x05ctime");
    assert_eq!(bytes[bytes.len() - 1], 0xFF);
    let mut restarted = DB::new();
    assert_eq!(RDB::new(&mut restarted).load(&bytes), Ok(()));
    assert_eq!(restarted.get("a"), Some(b"1".to_vec()));
    assert_eq!(restarted.get("b"), Some(b"2".to_vec()));
}

#[test]
fn wrong_magic_is_refused() {
    let mut db = DB::new();
    db.set_at("a".to_string(), b"1".to_vec(), None, 0);
    assert_eq!(RDB::new(&mut db).load_at(b"RADIS0003\xFF", 0), Err(RdbError::InvalidMagic));
    assert_eq!(RDB::new(&mut db).load_at(b"", 0), Err(RdbError::InvalidMagic));
    assert_eq!(RDB::new(&mut db).load_at(b"REDI", 0), Err(RdbError::InvalidMagic));
    assert_eq!(db.get("a"), Some(b"1".to_vec()));
}

#[test]
fn version_is_not_checked() {
    assert!(decode(b"REDIS9999\xFF").unwrap().is_empty());
}

#[test]
fn file_that_ends_early_is_refused() {
    assert_eq!(decode(b"REDIS000").unwrap_err(), RdbError::UnexpectedEnd);
    assert_eq!(decode(b"REDIS0003").unwrap_err(), RdbError::UnexpectedEnd);
    assert_eq!(decode(b"REDIS0003\xFA\x05cti").unwrap_err(), RdbError::UnexpectedEnd);
    assert_eq!(decode(b"REDIS0003\xFD\x01\x02\x03").unwrap_err(), RdbError::UnexpectedEnd);
    assert_eq!(decode(b"REDIS0003\x010\x01a\x011").unwrap_err(), RdbError::UnexpectedEnd);
    assert_eq!(decode(b"REDIS0003\x010\x01a\x05ab\xFF").unwrap_err(), RdbError::UnexpectedEnd);
    assert_eq!(decode(b"REDIS0003\xFB\x40").unwrap_err(), RdbError::UnexpectedEnd);
}

#[test]
fn other_value_type_is_refused() {
    assert_eq!(decode(b"REDIS0003\x011\x01a\x011\xFF").unwrap_err(), RdbError::UnsupportedValueType);
    assert_eq!(decode(b"REDIS0003\x00\x01a\x011\xFF").unwrap_err(), RdbError::UnsupportedValueType);
    let timed = b"REDIS0003\xFD\x01\x00\x00\x00\x014\x01a\x011\xFF";
    assert_eq!(decode(timed).unwrap_err(), RdbError::UnsupportedValueType);
}

#[test]
fn other_length_encoding_is_refused() {
    assert_eq!(decode(b"REDIS0003\xFE\x80\x00\x00\x00\x01a\xFF").unwrap_err(), RdbError::UnsupportedLength);
    assert_eq!(decode(b"REDIS0003\xFB\x01\xC0\xFF").unwrap_err(), RdbError::UnsupportedLength);
    assert_eq!(decode(b"REDIS0003\xFC\xFF").unwrap_err(), RdbError::UnsupportedLength);
}

#[test]
fn any_number_of_aux_records_is_passed_over() {
    let bytes = b"REDIS0003\xFA\x01a\x01b\xFA\x00\x00\xFE\x010\xFA\x02cd\x01e\xFB\x01\x00\x010\x01k\x01v\xFF";
    let records = decode(bytes).unwrap();
    assert_eq!(records.len(), 1);
    assert_eq!(records[0].key, "k");
    assert_eq!(records[0].value, b"v".to_vec());
    assert_eq!(records[0].expires_at, None);
}

#[test]
fn hints_are_not_relied_on() {
    let bytes = b"REDIS0003\xFB\x09\x09\x010\x01k\x01v\xFF";
    assert_eq!(decode(bytes).unwrap().len(), 1);
}

#[test]
fn records_come_in_the_order_of_the_file() {
    let bytes = b"REDIS0003\x010\x01a\x011\xFD\x0A\x00\x00\x00\x010\x01b\x012\x010\x01a\x013\xFF";
    let records = decode(bytes).unwrap();
    assert_eq!(records.len(), 3);
    assert_eq!((records[1].key.as_str(), records[1].expires_at), ("b", Some(10)));
    assert_eq!(records[2].value, b"3".to_vec());
    let mut db = DB::new();
    assert_eq!(RDB::new(&mut db).load_at(bytes, 10), Ok(()));
    assert_eq!(db.get("a"), Some(b"3".to_vec()));
    assert_eq!(db.get("b"), Some(b"2".to_vec()));
    let mut db = DB::new();
    assert_eq!(RDB::new(&mut db).load_at(bytes, 11), Ok(()));
    assert_eq!(db.get("b"), None);
}

#[test]
fn key_with_invalid_utf8_is_replaced() {
    let records = decode(b"REDIS0003\x010\x02a\xFF\x01v\xFF").unwrap();
    assert_eq!(records[0].key, "a\u{fffd}");
}

#[test]
fn lengths_are_written_in_the_smallest_encoding() {
    let cases: [(usize, &[u8]); 6] = [
        (0, &[0x00]),
        (1, &[0x01]),
        (63, &[0x3F]),
        (64, &[0x40, 0x40]),
        (300, &[0x41, 0x2C]),
        (16383, &[0x7F, 0xFF]),
    ];
    for (n, bytes) in cases {
        let mut out = vec![0xAA];
        assert_eq!(write_integer_encoded(&mut out, n), Ok(()));
        assert_eq!(&out[1..], bytes);
        assert_eq!(read_integer_encoded(&out, 1), Ok((n, out.len())));
    }
}

#[test]
fn length_in_a_longer_encoding_is_read() {
    assert_eq!(read_integer_encoded(&[0x40, 0x05], 0), Ok((5, 2)));
    assert_eq!(read_integer_encoded(&[0x40, 0x00], 0), Ok((0, 2)));
    assert_eq!(read_integer_encoded(&[0x3F, 0x05], 1), Ok((5, 2)));
    assert_eq!(read_integer_encoded(&[0x40], 0), Err(RdbError::UnexpectedEnd));
    assert_eq!(read_integer_encoded(&[], 0), Err(RdbError::UnexpectedEnd));
    assert_eq!(read_integer_encoded(&[0x80, 0, 0, 0, 1], 0), Err(RdbError::UnsupportedLength));
    assert_eq!(read_integer_encoded(&[0xC0], 0), Err(RdbError::UnsupportedLength));
    let bytes = b"REDIS0003\x40\x010\x40\x01k\x40\x01v\xFF";
    let records = decode(bytes).unwrap();
    assert_eq!((records[0].key.as_str(), records[0].value.as_slice()), ("k", &b"v"[..]));
}

#[test]
fn errors_have_their_messages() {
    assert_eq!(RdbError::InvalidMagic.message(), "Invalid rdb file passed");
    assert_eq!(RdbError::UnsupportedValueType.message(), "Unsupported Value Encoding found");
    assert_eq!(RdbError::UnsupportedLength.message(), "Unsupported length encoding found");
    assert_eq!(RdbError::UnexpectedEnd.message(), "Unexpected end of rdb file");
}

#[test]
fn every_length_is_read_back() {
    for n in 0..=16383usize {
        let mut out = Vec::new();
        assert_eq!(write_integer_encoded(&mut out, n), Ok(()));
        assert_eq!(out.len(), if n < 64 { 1 } else { 2 });
        assert_eq!(read_integer_encoded(&out, 0), Ok((n, out.len())));
    }
}

#[test]
fn length_that_is_too_large_is_refused() {
    let mut out = vec![1, 2];
    assert_eq!(write_integer_encoded(&mut out, 16384), Err(RdbError::UnsupportedLength));
    assert_eq!(write_integer_encoded(&mut out, usize::MAX), Err(RdbError::UnsupportedLength));
    assert_eq!(out, vec![1, 2]);
    let long = vec![b'x'; 16384];
    assert_eq!(write_string_encoded(&mut out, &long), Err(RdbError::UnsupportedLength));
    assert_eq!(write_key_value_no_ttl(&mut out, "k", &long), Err(RdbError::UnsupportedLength));
    assert_eq!(write_key_value_ttl_sec(&mut out, "k", &long, 1), Err(RdbError::UnsupportedLength));
    assert_eq!(out, vec![1, 2]);
}

#[test]
fn snapshot_with_too_long_value_is_refused() {
    let mut store = Store::new();
    store.set("k".to_string(), vec![0; 16384], None);
    assert_eq!(encode(&store, "t").unwrap_err(), RdbError::UnsupportedLength);
    store.set("k".to_string(), vec![0; 16383], None);
    let bytes = encode(&store, "t").unwrap();
    let records = decode(&bytes).unwrap();
    assert_eq!(records[0].value.len(), 16383);
    let long_key = "k".repeat(16384);
    store.set(long_key, vec![], None);
    assert_eq!(encode(&store, "t").unwrap_err(), RdbError::UnsupportedLength);
}

#[test]
fn snapshot_with_too_long_ctime_is_refused() {
    let store = Store::new();
    assert_eq!(encode(&store, &"t".repeat(16384)).unwrap_err(), RdbError::UnsupportedLength);
}

#[test]
fn strings_are_written_with_their_length() {
    let mut out = Vec::new();
    assert_eq!(write_string_encoded(&mut out, b"ctime"), Ok(()));
    assert_eq!(out, b"\x05ctime".to_vec());
    assert_eq!(read_string_encoded(&out, 0), Ok((&b"ctime"[..], 6)));
    let mut out = Vec::new();
    assert_eq!(write_string_encoded(&mut out, &[7; 64]), Ok(()));
    assert_eq!(&out[..2], &[0x40, 0x40]);
    assert_eq!(out.len(), 66);
    assert_eq!(read_string_encoded(&out, 0), Ok((&[7u8; 64][..], 66)));
}

#[test]
fn records_are_written_as_three_strings() {
    let mut out = Vec::new();
    assert_eq!(write_key_value_no_ttl(&mut out, "key", b"value"), Ok(()));
    assert_eq!(out, b"\x010\x03key\x05value".to_vec());
    let (record, end) = read_key_value(&out, 0, None).unwrap();
    assert_eq!((record.key.as_str(), record.value.as_slice(), record.expires_at), ("key", &b"value"[..], None));
    assert_eq!(end, out.len());
    let mut out = Vec::new();
    assert_eq!(write_key_value_ttl_sec(&mut out, "key", b"value", 0x6543_2100), Ok(()));
    assert_eq!(out, b"\xFD\x00\x21\x43\x65\x010\x03key\x05value".to_vec());
    match read_section(&out, 0).unwrap() {
        Section::Holds(record, end) => {
            assert_eq!(record.expires_at, Some(0x6543_2100));
            assert_eq!(end, out.len());
        }
        _ => panic!("a record was written"),
    }
}

#[test]
fn seconds_are_written_lowest_byte_first() {
    let mut out = Vec::new();
    write_le32(&mut out, 0x1234_5678);
    write_le32(&mut out, u32::MAX);
    write_le32(&mut out, 0);
    assert_eq!(out, vec![0x78, 0x56, 0x34, 0x12, 0xFF, 0xFF, 0xFF, 0xFF, 0, 0, 0, 0]);
    assert_eq!(read_le32(&out, 0), Ok((0x1234_5678, 4)));
    assert_eq!(read_le32(&out, 4), Ok((u32::MAX, 8)));
    assert_eq!(read_le32(&out, 8), Ok((0, 12)));
    assert_eq!(read_le32(&out, 9), Err(RdbError::UnexpectedEnd));
    assert_eq!(read_le32(&out, usize::MAX), Err(RdbError::UnexpectedEnd));
}

#[test]
fn sections_are_told_apart() {
    let bytes = b"\xFF\xFA\x01a\x01b\xFE\x010\xFB\x01\x02";
    assert!(matches!(read_section(bytes, 0), Ok(Section::End)));
    assert!(matches!(read_section(bytes, 1), Ok(Section::Passed(6))));
    assert!(matches!(read_section(bytes, 6), Ok(Section::Passed(9))));
    assert!(matches!(read_section(bytes, 9), Ok(Section::Passed(12))));
    assert_eq!(read_section(bytes, 12).unwrap_err(), RdbError::UnexpectedEnd);
    assert_eq!(get_aux_field_values(bytes, 2), Ok(6));
    assert_eq!(get_next_byte(bytes, 1), Ok(0xFA));
    assert_eq!(get_next_byte(bytes, 12), Err(RdbError::UnexpectedEnd));
}

#[test]
fn flush_interval() {
    assert_eq!(flush_every(None), 60);
    assert_eq!(flush_every(Some("120")), 120);
    assert_eq!(flush_every(Some("+7")), 7);
    assert_eq!(flush_every(Some("0")), 0);
    assert_eq!(flush_every(Some("68719476734")), 68719476734);
    assert_eq!(flush_every(Some("68719476735")), 68719476734);
    assert_eq!(flush_every(Some("18446744073709551615")), 68719476734);
    assert_eq!(flush_every(Some("18446744073709551616")), 60);
    assert_eq!(flush_every(Some("")), 60);
    assert_eq!(flush_every(Some("+")), 60);
    assert_eq!(flush_every(Some("-1")), 60);
    assert_eq!(flush_every(Some(" 5")), 60);
    assert_eq!(flush_every(Some("5s")), 60);
    assert_eq!(clamp_flush_seconds(None), 60);
    assert_eq!(clamp_flush_seconds(Some(1)), 1);
    assert_eq!(clamp_flush_seconds(Some(u64::MAX)), 68719476734);
}

#[test]
fn flush_interval_notes() {
    assert_eq!(flush_note(None), FlushNote::Unset);
    assert_eq!(flush_note(Some("")), FlushNote::Invalid);
    assert_eq!(flush_note(Some("ten")), FlushNote::Invalid);
    assert_eq!(flush_note(Some("18446744073709551616")), FlushNote::Invalid);
    assert_eq!(flush_note(Some("68719476735")), FlushNote::Clamped);
    assert_eq!(flush_note(Some("68719476734")), FlushNote::Given);
    assert_eq!(flush_note(Some("60")), FlushNote::Given);
    assert_eq!(flush_note(Some("+0")), FlushNote::Given);
}

#[test]
fn save_is_owed_to_a_store_that_fits() {
    let mut db = DB::new();
    assert!(RDB::new(&mut db).save().is_ok());
    db.set_at("k".to_string(), vec![0; 16383], Some(1), 0);
    let bytes = RDB::new(&mut db).save().unwrap();
    assert_eq!(decode(&bytes).unwrap()[0].value.len(), 16383);
    assert!(bytes.len() > 16383 + 9 + 7);
    db.set_at("long".to_string(), vec![0; 16384], None, 0);
    assert_eq!(RDB::new(&mut db).save(), Err(RdbError::UnsupportedLength));
}
