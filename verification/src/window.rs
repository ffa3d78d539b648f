//! The decisions of the window and console plumbing.

use vstd::prelude::*;

verus! {

/// The window is being destroyed.
pub const WM_DESTROY: u32 = 0x0002;

/// A raw input event has arrived.
pub const WM_INPUT: u32 = 0x00FF;

/// The console mode bit that makes the console interpret escape sequences.
pub const ENABLE_VIRTUAL_TERMINAL_PROCESSING: u32 = 0x0004;

/// What the window procedure does with a message.
#[derive(Debug, Clone, Copy, PartialEq, Eq, Structural)]
pub enum MessageAction {
    /// Decode the raw input that the message announces.
    DecodeRawInput,
    /// Tell the message loop to stop.
    Quit,
    /// Leave the message to the system's default handling.
    Default,
}

/// What the window procedure does with a message.
pub open spec fn action_for(msg: u32) -> MessageAction {
    if msg == WM_INPUT {
        MessageAction::DecodeRawInput
    } else if msg == WM_DESTROY {
        MessageAction::Quit
    } else {
        MessageAction::Default
    }
}

/// What the window procedure does with a message: it decodes raw input, stops
/// the message loop when the window goes, and leaves the rest to the system.
pub fn classify_message(msg: u32) -> (action: MessageAction)
    ensures
        action == action_for(msg),
        action == MessageAction::DecodeRawInput <==> msg == WM_INPUT,
        action == MessageAction::Quit <==> msg == WM_DESTROY,
        action == MessageAction::Default <==> msg != WM_INPUT && msg != WM_DESTROY,
{
    if msg == WM_INPUT {
        MessageAction::DecodeRawInput
    } else if msg == WM_DESTROY {
        MessageAction::Quit
    } else {
        MessageAction::Default
    }
}

/// Raw input is decoded and the end of the window stops the message loop, each
/// told by the number that the system gives its message; every other message is
/// left to the system.
pub proof fn law_messages_are_told_by_their_numbers(msg: u32)
    ensures
        action_for(msg) == MessageAction::DecodeRawInput <==> msg == 0x00FF,
        action_for(msg) == MessageAction::Quit <==> msg == 0x0002,
{
}

/// The console mode with escape sequences enabled, where it is known.
pub open spec fn with_escapes(mode: Option<u32>) -> Option<u32> {
    match mode {
        Some(mode) => Some(mode | ENABLE_VIRTUAL_TERMINAL_PROCESSING),
        None => None,
    }
}

/// The console mode to set so that escape sequences are interpreted. Where the
/// current mode could not be read there is nothing to set.
pub fn ansi_console_mode(mode: Option<u32>) -> (wanted: Option<u32>)
    ensures
        wanted == with_escapes(mode),
        wanted == match mode {
            Some(mode) => Some(mode | ENABLE_VIRTUAL_TERMINAL_PROCESSING),
            None => None,
        },
{
    match mode {
        Some(mode) => Some(mode | ENABLE_VIRTUAL_TERMINAL_PROCESSING),
        None => None,
    }
}

/// Enabling escape sequences sets its one bit, leaves every other bit of the
/// console mode as it is, and changes nothing when it is done again.
pub proof fn law_enabling_escapes_sets_one_bit(mode: u32)
    ensures
        (mode | ENABLE_VIRTUAL_TERMINAL_PROCESSING) & ENABLE_VIRTUAL_TERMINAL_PROCESSING
            == ENABLE_VIRTUAL_TERMINAL_PROCESSING,
        (mode | ENABLE_VIRTUAL_TERMINAL_PROCESSING) & !ENABLE_VIRTUAL_TERMINAL_PROCESSING == mode
            & !ENABLE_VIRTUAL_TERMINAL_PROCESSING,
        (mode | ENABLE_VIRTUAL_TERMINAL_PROCESSING) | ENABLE_VIRTUAL_TERMINAL_PROCESSING == mode
            | ENABLE_VIRTUAL_TERMINAL_PROCESSING,
{
    let bit: u32 = ENABLE_VIRTUAL_TERMINAL_PROCESSING;
    assert((mode | bit) & bit == bit) by (bit_vector);
    assert((mode | bit) & !bit == mode & !bit) by (bit_vector);
    assert((mode | bit) | bit == mode | bit) by (bit_vector);
}

/// Enabling escape sequences sets the one bit for them, leaves every other bit of
/// the console mode as it is, and changes nothing when it is done again. Where
/// the mode is not known there is none to set.
pub proof fn law_the_console_mode_gains_one_bit(mode: Option<u32>)
    ensures
        with_escapes(mode) is Some <==> mode is Some,
        mode is Some ==> with_escapes(mode)->0 & 0x0004 == 0x0004,
        mode is Some ==> with_escapes(mode)->0 & !0x0004u32 == mode->0 & !0x0004u32,
        with_escapes(with_escapes(mode)) == with_escapes(mode),
{
    if let Some(mode) = mode {
        assert((mode | 0x0004) & 0x0004 == 0x0004) by (bit_vector);
        assert((mode | 0x0004) & !0x0004 == mode & !0x0004) by (bit_vector);
        assert((mode | 0x0004) | 0x0004 == mode | 0x0004) by (bit_vector);
    }
}

} // verus!
