use ardupilot_log_parser::catalog::{field_at, format_ids_by_name, series_label};
use ardupilot_log_parser::field::{decode_field, field_width, read_be, FormatType};
use ardupilot_log_parser::format::{FmtPart, LogError};
use ardupilot_log_parser::log::{read_log, LogData};

fn padded(text: &[u8], len: usize) -> Vec<u8> {
    let mut v = text.to_vec();
    v.resize(len, 0);
    v
}

fn fmt_record(msg_type: u8, length: u8, name: &[u8], format: &[u8], labels: &[u8]) -> Vec<u8> {
    let mut v = vec![0xA3, 0x95, 0x80, msg_type, length];
    v.extend(padded(name, 4));
    v.extend(padded(format, 16));
    v.extend(padded(labels, 64));
    v
}

fn message(msg_type: u8, body: &[u8]) -> Vec<u8> {
    let mut v = vec![0xA3, 0x95, msg_type];
    v.extend_from_slice(body);
    v
}

fn chars(s: &str) -> Vec<char> {
    s.chars().collect()
}

#[test]
fn empty_input_gives_empty_log() {
    let log = read_log(&[]).unwrap();
    assert!(log.formats.is_empty());
    assert!(log.messages.is_empty());
    assert_eq!(log.param_id, None);
}

#[test]
fn fmt_record_declares_a_format() {
    let data = fmt_record(0x81, 10, b"TEST", b"BhI", b"Alpha,Beta,Gamma");
    let log = read_log(&data).unwrap();
    let f = &log.formats[&0x81];
    assert_eq!(f.id, 0x81);
    assert_eq!(f.length, 10);
    assert_eq!(f.name, "TEST");
    assert_eq!(f.format, chars("BhI"));
    assert_eq!(f.labels, vec!["Alpha".to_string(), "Beta".to_string(), "Gamma".to_string()]);
    assert_eq!(log.messages[&0x81].len(), 0);
}

#[test]
fn only_last_label_loses_trailing_nuls() {
    let mut labels = b"A\0,B".to_vec();
    labels.resize(64, 0);
    let data = fmt_record(0x81, 10, b"XY", b"BB", &labels);
    let log = read_log(&data).unwrap();
    let f = &log.formats[&0x81];
    assert_eq!(f.name, "XY");
    assert_eq!(f.labels, vec!["A\0".to_string(), "B".to_string()]);
}

#[test]
fn messages_are_decoded_big_endian() {
    let mut data = fmt_record(0x81, 10, b"TEST", b"BhI", b"A,B,C");
    data.extend(message(0x81, &[0x07, 0xFF, 0xFE, 0x01, 0x02, 0x03, 0x04]));
    data.extend(message(0x81, &[0x08, 0x00, 0x01, 0x00, 0x00, 0x00, 0x2A]));
    let log = read_log(&data).unwrap();
    let rows = &log.messages[&0x81];
    assert_eq!(rows.len(), 2);
    assert_eq!(rows[0], vec![FormatType::Uint8(7), FormatType::Int16(-2), FormatType::Uint32(0x01020304)]);
    assert_eq!(rows[1], vec![FormatType::Uint8(8), FormatType::Int16(1), FormatType::Uint32(42)]);
}

#[test]
fn bytes_before_a_header_are_skipped() {
    let mut data = vec![0x00, 0xA3, 0x11, 0x95];
    data.extend(fmt_record(0x81, 4, b"ONE", b"B", b"V"));
    data.extend(vec![0x42]);
    data.extend(message(0x81, &[0x05]));
    let log = read_log(&data).unwrap();
    assert_eq!(log.messages[&0x81], vec![vec![FormatType::Uint8(5)]]);
}

#[test]
fn messages_of_undeclared_types_are_skipped() {
    let mut data = fmt_record(0x81, 4, b"ONE", b"B", b"V");
    data.extend(message(0x22, &[]));
    data.extend(message(0x81, &[0x09]));
    let log = read_log(&data).unwrap();
    assert!(!log.messages.contains_key(&0x22));
    assert_eq!(log.messages[&0x81], vec![vec![FormatType::Uint8(9)]]);
}

#[test]
fn first_fmt_record_wins() {
    let mut data = fmt_record(0x81, 4, b"ONE", b"B", b"V");
    // A second FMT header for the same type: only its 5 header bytes are passed over.
    data.extend(vec![0xA3, 0x95, 0x80, 0x81, 9]);
    data.extend(message(0x81, &[0x03]));
    let log = read_log(&data).unwrap();
    assert_eq!(log.formats[&0x81].name, "ONE");
    assert_eq!(log.formats[&0x81].length, 4);
    assert_eq!(log.messages[&0x81], vec![vec![FormatType::Uint8(3)]]);
}

#[test]
fn truncated_message_keeps_its_complete_fields_and_ends_the_log() {
    let mut data = fmt_record(0x81, 10, b"TEST", b"BI", b"A,B");
    data.extend(message(0x81, &[0x01, 0x00, 0x00]));
    let log = read_log(&data).unwrap();
    assert_eq!(log.messages[&0x81], vec![vec![FormatType::Uint8(1)]]);
}

#[test]
fn truncated_fmt_record_ends_the_log() {
    let mut data = fmt_record(0x81, 4, b"ONE", b"B", b"V");
    data.extend(vec![0xA3, 0x95, 0x80, 0x82, 4, b'T', b'W']);
    let log = read_log(&data).unwrap();
    assert_eq!(log.formats.len(), 1);
}

#[test]
fn unknown_field_type_is_an_error() {
    let mut data = fmt_record(0x81, 10, b"TEST", b"Bx", b"A,B");
    data.extend(message(0x81, &[0x01, 0x02]));
    assert_eq!(
        read_log(&data).err(),
        Some(LogError::UnknownFieldType { msg_type: 0x81, format_char: 'x' })
    );
}

#[test]
fn unknown_field_type_after_a_short_field_is_not_reached() {
    let mut data = fmt_record(0x81, 10, b"TEST", b"Ix", b"A,B");
    data.extend(message(0x81, &[0x01, 0x02]));
    let log = read_log(&data).unwrap();
    assert_eq!(log.messages[&0x81], vec![Vec::<FormatType>::new()]);
}

#[test]
fn invalid_labels_are_reported_before_an_invalid_name() {
    let data = fmt_record(0x81, 10, &[0xFF], b"B", &[0xC3]);
    assert_eq!(
        read_log(&data).err(),
        Some(LogError::InvalidText { msg_type: 0x81, part: FmtPart::Labels })
    );
    let data = fmt_record(0x81, 10, &[0xFF], &[0xFE], b"A");
    assert_eq!(
        read_log(&data).err(),
        Some(LogError::InvalidText { msg_type: 0x81, part: FmtPart::Name })
    );
    let data = fmt_record(0x81, 10, b"OK", &[0xFE], b"A");
    assert_eq!(
        read_log(&data).err(),
        Some(LogError::InvalidText { msg_type: 0x81, part: FmtPart::Format })
    );
}

#[test]
fn utf8_names_are_decoded() {
    let data = fmt_record(0x81, 10, "é".as_bytes(), b"B", "ü,x".as_bytes());
    let log = read_log(&data).unwrap();
    assert_eq!(log.formats[&0x81].name, "é");
    assert_eq!(log.formats[&0x81].labels, vec!["ü".to_string(), "x".to_string()]);
}

#[test]
fn special_formats_are_noted() {
    let mut data = fmt_record(0x40, 10, b"PARM", b"QNf", b"TimeUS,Name,Value");
    data.extend(fmt_record(0x41, 10, b"UNIT", b"QbZ", b"TimeUS,Id,Label"));
    data.extend(fmt_record(0x42, 10, b"FMTU", b"QBNN", b"TimeUS,FmtType,UnitIds,MultIds"));
    data.extend(fmt_record(0x43, 10, b"MULT", b"Qbd", b"TimeUS,Id,Mult"));
    let log = read_log(&data).unwrap();
    assert_eq!(log.param_id, Some(0x40));
    assert_eq!(log.unit_id, Some(0x41));
    assert_eq!(log.format_unit_id, Some(0x42));
    assert_eq!(log.mult_id, Some(0x43));
}

#[test]
fn every_field_type_decodes() {
    let mut body = Vec::new();
    body.extend((0..64).map(|i| i as u8)); // a
    body.push(0xFF); // b
    body.push(0xFF); // B
    body.extend([0x80, 0x00]); // h
    body.extend([0x80, 0x00]); // H
    body.extend([0xFF, 0xFF, 0xFF, 0xFE]); // i
    body.extend([0xFF, 0xFF, 0xFF, 0xFE]); // I
    body.extend(1.5f32.to_be_bytes()); // f
    body.extend((-2.25f64).to_be_bytes()); // d
    body.extend(*b"ABCD"); // n
    let mut data = fmt_record(0x90, 10, b"ALL", b"abBhHiIfdn", b"");
    data.extend(message(0x90, &body));
    let log = read_log(&data).unwrap();
    let row = &log.messages[&0x90][0];
    let expected_a: Vec<i16> = (0..32).map(|k| i16::from_le_bytes([2 * k as u8, 2 * k as u8 + 1])).collect();
    assert_eq!(row[0], FormatType::Int16Len32(expected_a));
    assert_eq!(row[1], FormatType::Int8(-1));
    assert_eq!(row[2], FormatType::Uint8(255));
    assert_eq!(row[3], FormatType::Int16(-32768));
    assert_eq!(row[4], FormatType::Uint16(32768));
    assert_eq!(row[5], FormatType::Int32(-2));
    assert_eq!(row[6], FormatType::Uint32(0xFFFF_FFFE));
    assert_eq!(row[7], FormatType::Float(1.5f32.to_bits()));
    assert_eq!(row[8], FormatType::Double((-2.25f64).to_bits()));
    assert_eq!(row[9], FormatType::CharLen4(b"ABCD".to_vec()));
}

#[test]
fn more_field_types_decode() {
    let mut body = Vec::new();
    body.extend(padded(b"sixteen", 16)); // N
    body.extend(padded(b"zz", 64)); // Z
    body.extend([0xFF, 0x9C]); // c
    body.extend([0x00, 0x64]); // C
    body.extend([0xFF, 0xFF, 0xFF, 0x9C]); // e
    body.extend([0x00, 0x00, 0x00, 0x64]); // E
    body.extend((-338_000_000i32).to_be_bytes()); // L
    body.push(4); // M
    body.extend((-5i64).to_be_bytes()); // q
    body.extend(u64::MAX.to_be_bytes()); // Q
    let mut data = fmt_record(0x91, 10, b"MORE", b"NZcCeELMqQ", b"");
    data.extend(message(0x91, &body));
    let log = read_log(&data).unwrap();
    let row = &log.messages[&0x91][0];
    assert_eq!(row[0], FormatType::CharLen16(padded(b"sixteen", 16)));
    assert_eq!(row[1], FormatType::CharLen64(padded(b"zz", 64)));
    assert_eq!(row[2], FormatType::Int16Mul100(-100));
    assert_eq!(row[3], FormatType::Uint16Mul100(100));
    assert_eq!(row[4], FormatType::Int32Mul100(-100));
    assert_eq!(row[5], FormatType::Uint32Mul100(100));
    assert_eq!(row[6], FormatType::Int32LatLon(-338_000_000));
    assert_eq!(row[7], FormatType::Uint8FlightMode(4));
    assert_eq!(row[8], FormatType::Int64(-5));
    assert_eq!(row[9], FormatType::Uint64(u64::MAX));
}

#[test]
fn read_be_reads_most_significant_byte_first() {
    assert_eq!(read_be(&[0x12, 0x34, 0x56], 1, 2), 0x3456);
    assert_eq!(read_be(&[1, 2, 3, 4, 5, 6, 7, 8], 0, 8), 0x0102030405060708);
    assert_eq!(read_be(&[9], 0, 0), 0);
}

#[test]
fn field_widths() {
    assert_eq!(field_width('a'), Some(64));
    assert_eq!(field_width('Z'), Some(64));
    assert_eq!(field_width('N'), Some(16));
    assert_eq!(field_width('q'), Some(8));
    assert_eq!(field_width('L'), Some(4));
    assert_eq!(field_width('c'), Some(2));
    assert_eq!(field_width('M'), Some(1));
    assert_eq!(field_width('x'), None);
}

#[test]
fn decode_field_at_offset() {
    assert_eq!(decode_field('H', &[0, 1, 2], 1), FormatType::Uint16(0x0102));
    assert_eq!(decode_field('b', &[0x80], 0), FormatType::Int8(-128));
}

#[test]
fn every_row_fits_its_format() {
    let mut data = fmt_record(0x81, 10, b"TEST", b"BhI", b"A,B,C");
    data.extend(message(0x81, &[1, 0, 2, 0, 0, 0, 3]));
    data.extend(fmt_record(0x82, 10, b"TWO", b"Q", b"T"));
    data.extend(message(0x82, &[0, 0, 0, 0, 0, 0, 0, 1]));
    data.extend(message(0x81, &[1, 0]));
    let log = read_log(&data).unwrap();
    let mut ids: Vec<u8> = log.formats.keys().copied().collect();
    let mut msg_ids: Vec<u8> = log.messages.keys().copied().collect();
    ids.sort();
    msg_ids.sort();
    assert_eq!(ids, msg_ids);
    for (id, rows) in &log.messages {
        let f = &log.formats[id];
        assert_eq!(f.id, *id);
        for row in rows {
            assert!(row.len() <= f.format.len());
        }
    }
    assert_eq!(log.messages[&0x81].len(), 2);
    assert_eq!(log.messages[&0x81][1], vec![FormatType::Uint8(1)]);
}

fn two_format_log() -> LogData {
    let mut data = fmt_record(0x83, 10, b"VIBE", b"B", b"X");
    data.extend(fmt_record(0x81, 10, b"ATT", b"BB", b"Roll,Pitch"));
    data.extend(fmt_record(0x82, 10, b"ATT", b"B", b"Y"));
    data.extend(fmt_record(0x80 + 0x10, 10, b"AHR2", b"B", b"Z"));
    data.extend(message(0x81, &[3, 4]));
    data.extend(message(0x81, &[5, 6]));
    read_log(&data).unwrap()
}

#[test]
fn formats_listed_by_name_then_type() {
    let log = two_format_log();
    assert_eq!(format_ids_by_name(&log), vec![0x90, 0x81, 0x82, 0x83]);
    assert_eq!(format_ids_by_name(&read_log(&[]).unwrap()), Vec::<u8>::new());
}

#[test]
fn field_lookup() {
    let log = two_format_log();
    assert_eq!(field_at(&log, 0x81, 1, 0), Some(&FormatType::Uint8(5)));
    assert_eq!(field_at(&log, 0x81, 0, 1), Some(&FormatType::Uint8(4)));
    assert_eq!(field_at(&log, 0x81, 2, 0), None);
    assert_eq!(field_at(&log, 0x81, 0, 2), None);
    assert_eq!(field_at(&log, 0x55, 0, 0), None);
}

#[test]
fn series_labels() {
    let log = two_format_log();
    assert_eq!(series_label(&log.formats[&0x81], 1), "ATT Pitch");
    assert_eq!(series_label(&log.formats[&0x81], 0), "ATT Roll");
}
