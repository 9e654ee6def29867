use docent::outcome::{message_level, MessageLevel};

#[test]
fn warn_messages_are_warnings() {
    assert_eq!(message_level("warn"), MessageLevel::Warn);
}

#[test]
fn other_messages_are_information() {
    assert_eq!(message_level("info"), MessageLevel::Info);
    assert_eq!(message_level("Warn"), MessageLevel::Info);
    assert_eq!(message_level("warning"), MessageLevel::Info);
    assert_eq!(message_level(""), MessageLevel::Info);
}
