use chat_sentiment::conversation::{ends_with_quiet_notice, Message, ParsedConversation, Participant};

fn msg(sender: &str, t: usize, content: &str) -> Message {
    Message { sender_name: sender.to_string(), timestamp_ms: t, content: content.to_string() }
}

fn person(name: &str) -> Participant {
    Participant { name: name.to_string() }
}

#[test]
fn merge_sorts_filters_and_unites() {
    let a = ParsedConversation {
        participants: vec![person("A"), person("B")],
        messages: vec![
            msg("A", 300, "third"),
            msg("B", 100, ""),
            msg("A", 100, "first"),
        ],
    };
    let b = ParsedConversation {
        participants: vec![person("B"), person("C"), person("C")],
        messages: vec![
            msg("B", 200, "A wasn't notified about this message because they're in quiet mode."),
            msg("C", 100, "tie after first"),
            msg("B", 50, "earliest"),
        ],
    };
    let merged = ParsedConversation::merge(&[a, b]);
    let names: Vec<&str> = merged.participants.iter().map(|p| p.name.as_str()).collect();
    assert_eq!(names, vec!["A", "B", "C"]);
    let contents: Vec<&str> = merged.messages.iter().map(|m| m.content.as_str()).collect();
    assert_eq!(contents, vec!["earliest", "first", "tie after first", "third"]);
}

#[test]
fn merge_of_nothing_is_empty() {
    let merged = ParsedConversation::merge(&[]);
    assert!(merged.participants.is_empty());
    assert!(merged.messages.is_empty());
}

#[test]
fn merge_keeps_text_that_only_mentions_quiet_mode() {
    let a = ParsedConversation {
        participants: vec![person("A")],
        messages: vec![
            msg("A", 1, "wasn't notified about this message because they're in quiet mode."),
            msg("A", 2, "x wasn't notified about this message because they're in quiet mode. ok"),
        ],
    };
    let merged = ParsedConversation::merge(&[a]);
    assert_eq!(merged.messages.len(), 2);
}

#[test]
fn quiet_notice_suffix() {
    assert!(ends_with_quiet_notice(&"Sam wasn't notified about this message because they're in quiet mode.".to_string()));
    assert!(!ends_with_quiet_notice(&"hello".to_string()));
    assert!(!ends_with_quiet_notice(&"".to_string()));
}

#[test]
fn two_files_end_to_end() {
    let first = ParsedConversation {
        participants: vec![person("A"), person("B")],
        messages: vec![msg("A", 1000, "great day")],
    };
    let second = ParsedConversation {
        participants: vec![person("A"), person("B")],
        messages: vec![msg("B", 500, "Reacted 👍 to your message")],
    };
    let merged = ParsedConversation::merge(&[first, second]);
    assert_eq!(merged.participants.len(), 2);
    let order: Vec<(&str, usize)> =
        merged.messages.iter().map(|m| (m.sender_name.as_str(), m.timestamp_ms)).collect();
    assert_eq!(order, vec![("B", 500), ("A", 1000)]);
    assert_eq!(merged.messages[0].content, "Reacted 👍 to your message");
    let groups = merged.messages_by_sender();
    assert_eq!(groups.len(), 2);
    for (p, ms) in &groups {
        assert_eq!(ms.len(), 1);
        assert_eq!(ms[0].sender_name, p.name);
    }
}

#[test]
fn grouping_keeps_order_and_empty_senders() {
    let c = ParsedConversation {
        participants: vec![person("A"), person("Z")],
        messages: vec![msg("A", 1, "one"), msg("B", 2, "other"), msg("A", 3, "two")],
    };
    let groups = c.messages_by_sender();
    assert_eq!(groups.len(), 2);
    assert_eq!(groups[0].0.name, "A");
    let contents: Vec<&str> = groups[0].1.iter().map(|m| m.content.as_str()).collect();
    assert_eq!(contents, vec!["one", "two"]);
    assert_eq!(groups[1].0.name, "Z");
    assert!(groups[1].1.is_empty());
}

#[test]
fn participants_are_equal_by_name() {
    assert_eq!(person("A"), person("A"));
    assert_ne!(person("A"), person("B"));
}
