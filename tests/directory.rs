use chat_sentiment::directory::{message_file_name, ConversationDirectory, DirEntry};
use chat_sentiment::error::ConversationError;

fn file(name: &str) -> DirEntry {
    DirEntry { path: format!("/data/{name}"), file_name: name.to_string(), is_file: true }
}

#[test]
fn file_names() {
    assert!(message_file_name(&"message_7.json".to_string()));
    assert!(message_file_name(&"message_003.json".to_string()));
    assert!(message_file_name(&"message_12345678901234567890.json".to_string()));
    assert!(!message_file_name(&"messages_1.json".to_string()));
    assert!(!message_file_name(&"message_a.json".to_string()));
    assert!(!message_file_name(&"message_1.txt".to_string()));
    assert!(!message_file_name(&"message_.json".to_string()));
    assert!(!message_file_name(&"message_1.tar.json".to_string()));
    assert!(!message_file_name(&"message_-1.json".to_string()));
}

#[test]
fn directory_with_message_files() {
    let entries = vec![file("message_7.json"), file("notes.txt"), file("message_003.json")];
    let d = ConversationDirectory::from_listing("/data".to_string(), true, &entries).unwrap();
    assert_eq!(d.path, "/data");
    assert_eq!(d.message_file_paths, vec!["/data/message_7.json", "/data/message_003.json"]);
}

#[test]
fn directory_without_message_files() {
    let entries = vec![file("messages_1.json"), file("message_a.json"), file("message_1.txt")];
    let r = ConversationDirectory::from_listing("/data".to_string(), true, &entries);
    assert!(matches!(r, Err(ConversationError::NoConversationFiles)));
    let r = ConversationDirectory::from_listing("/data".to_string(), true, &vec![]);
    assert!(matches!(r, Err(ConversationError::NoConversationFiles)));
}

#[test]
fn directory_skips_non_files() {
    let mut sub = file("message_1.json");
    sub.is_file = false;
    let r = ConversationDirectory::from_listing("/data".to_string(), true, &vec![sub]);
    assert!(matches!(r, Err(ConversationError::NoConversationFiles)));
}

#[test]
fn path_that_is_no_directory() {
    let r = ConversationDirectory::from_listing("/data/x".to_string(), false, &vec![file("message_1.json")]);
    assert!(matches!(r, Err(ConversationError::NotADirectory)));
}
