use chat_sentiment::error::ConversationError;
use chat_sentiment::escape::{decode_export, repair_escapes};

#[test]
fn escapes_become_bytes() {
    let raw = br#"caf\u00c3\u00a9"#.to_vec();
    assert_eq!(repair_escapes(&raw), "café".as_bytes().to_vec());
    let upper = br#"\u00C3\u00A9"#.to_vec();
    assert_eq!(repair_escapes(&upper), vec![0xC3, 0xA9]);
}

#[test]
fn incomplete_or_foreign_escapes_are_copied() {
    let tail = br#"ab\u00c"#.to_vec();
    assert_eq!(repair_escapes(&tail), tail);
    let non_hex = br#"\u00zz"#.to_vec();
    assert_eq!(repair_escapes(&non_hex), non_hex);
    let wide = br#"\u0123"#.to_vec();
    assert_eq!(repair_escapes(&wide), wide);
    assert_eq!(repair_escapes(&vec![]), Vec::<u8>::new());
}

#[test]
fn round_trip_of_escaped_text() {
    let text = "Hi ð\u{1F44D} é!";
    let mut escaped = Vec::new();
    for b in text.bytes() {
        if b < 128 {
            escaped.push(b);
        } else {
            escaped.extend_from_slice(format!("\\u00{:02x}", b).as_bytes());
        }
    }
    assert_eq!(repair_escapes(&escaped), text.as_bytes().to_vec());
    assert_eq!(decode_export(&escaped).unwrap(), text);
}

#[test]
fn decode_repairs_before_reading_text() {
    let raw = br#"{"content": "\u00f0\u009f\u0091\u008d"}"#.to_vec();
    assert_eq!(decode_export(&raw).unwrap(), "{\"content\": \"👍\"}");
}

#[test]
fn decode_rejects_invalid_utf8() {
    let raw = br#"\u00ff"#.to_vec();
    assert!(matches!(decode_export(&raw), Err(ConversationError::InvalidEncoding)));
}
