use touchpad_raw::window::{ansi_console_mode, classify_message, MessageAction};

#[test]
fn messages_are_told_apart() {
    assert_eq!(classify_message(0x00FF), MessageAction::DecodeRawInput);
    assert_eq!(classify_message(0x0002), MessageAction::Quit);
    assert_eq!(classify_message(0x0001), MessageAction::Default);
    assert_eq!(classify_message(0x0100), MessageAction::Default);
    assert_eq!(classify_message(0), MessageAction::Default);
}

#[test]
fn escapes_are_enabled_where_the_mode_is_known() {
    assert_eq!(ansi_console_mode(Some(0b0011)), Some(0b0111));
    assert_eq!(ansi_console_mode(Some(0b0111)), Some(0b0111));
    assert_eq!(ansi_console_mode(Some(0)), Some(4));
    assert_eq!(ansi_console_mode(None), None);
}
