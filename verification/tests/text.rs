use ardupilot_log_parser::text::{decode_text, split_labels, trim_nul_chars, trim_nul_string};

#[test]
fn labels_split_on_commas() {
    assert_eq!(split_labels("a,,b\0\0"), vec!["a".to_string(), String::new(), "b".to_string()]);
    assert_eq!(split_labels(""), vec![String::new()]);
    assert_eq!(split_labels(","), vec![String::new(), String::new()]);
    assert_eq!(split_labels("\0\0"), vec![String::new()]);
}

#[test]
fn split_labels_join_back() {
    let text = "TimeUS,Roll,Pitch,Yaw";
    let parts = split_labels(text);
    assert_eq!(parts.join(","), text);
    assert!(parts.iter().all(|p| !p.contains(',')));
}

#[test]
fn trailing_nuls_are_trimmed() {
    assert_eq!(trim_nul_string("AB\0\0"), "AB");
    assert_eq!(trim_nul_string("A\0B\0"), "A\0B");
    assert_eq!(trim_nul_string("\0\0\0"), "");
    assert_eq!(trim_nul_chars("QBf\0"), vec!['Q', 'B', 'f']);
}

#[test]
fn utf8_is_checked_and_decoded() {
    assert_eq!(decode_text(b"abc"), Some("abc"));
    assert_eq!(decode_text(&[0xC3, 0xA9]), Some("\u{e9}"));
    assert_eq!(decode_text(&[0xC3]), None);
    assert_eq!(decode_text(&[0xED, 0xA0, 0x80]), None);
    assert_eq!(decode_text(&[]), Some(""));
}
