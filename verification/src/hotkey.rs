//! The push-to-talk key: Right Command, seen through flags-changed events.
use vstd::prelude::*;

verus! {

/// The `CGEventType` of a modifier-flags change.
pub const FLAGS_CHANGED: u32 = 12;

/// The event field that holds the key code (`kCGKeyboardEventKeycode`).
pub const KEYCODE_FIELD: u32 = 9;

/// The key code of Right Command.
pub const RIGHT_CMD_KEYCODE: i64 = 54;

/// The event flag of a held Command key.
pub const CG_EVENT_FLAG_COMMAND: u64 = 0x0010_0000;

/// What the program does when the key goes down and up.
pub trait HotkeyHandler: Send + Sync {
    fn on_press(&self);

    fn on_release(&self);
}

/// A change of the push-to-talk key.
#[derive(PartialEq, Eq, Structural, Clone, Copy)]
pub enum HotkeyEvent {
    Press,
    Release,
}

/// What an event means for the push-to-talk key: only a flags change of
/// Right Command counts, as a press while Command is held, else a release.
pub open spec fn key_change(event_type: u32, keycode: i64, flags: u64) -> Option<HotkeyEvent> {
    if event_type != FLAGS_CHANGED || keycode != RIGHT_CMD_KEYCODE {
        None
    } else if flags & CG_EVENT_FLAG_COMMAND != 0 {
        Some(HotkeyEvent::Press)
    } else {
        Some(HotkeyEvent::Release)
    }
}

/// Law: for a flags change of Right Command, only the Command bit of the
/// flags decides: set means a press, clear a release, whatever the other
/// modifier bits (Caps Lock, Shift, Option, ...) hold.
pub proof fn lemma_only_command_bit_decides(flags: u64, other: u64)
    ensures
        flags & 0x0010_0000 != 0 ==> key_change(12, 54, flags) == Some(HotkeyEvent::Press),
        flags & 0x0010_0000 == 0 ==> key_change(12, 54, flags) == Some(HotkeyEvent::Release),
        key_change(12, 54, flags) == key_change(12, 54, flags & 0x0010_0000),
        other & 0x0010_0000 == 0 ==> key_change(12, 54, flags | other) == key_change(12, 54, flags),
{
    assert((flags & 0x0010_0000) & 0x0010_0000 == flags & 0x0010_0000) by (bit_vector);
    assert(other & 0x0010_0000 == 0 ==> (flags | other) & 0x0010_0000 == flags & 0x0010_0000)
        by (bit_vector);
}

/// Law: no event but a flags change of Right Command is a key change.
pub proof fn lemma_other_events_ignored(event_type: u32, keycode: i64, flags: u64)
    ensures
        event_type != 12 || keycode != 54 ==> key_change(event_type, keycode, flags) is None,
{
}

/// Classifies an event seen by the event tap.
pub fn hotkey_event(event_type: u32, keycode: i64, flags: u64) -> (r: Option<HotkeyEvent>)
    ensures
        r == key_change(event_type, keycode, flags),
{
    if event_type != FLAGS_CHANGED {
        return None;
    }
    if keycode != RIGHT_CMD_KEYCODE {
        return None;
    }
    if flags & CG_EVENT_FLAG_COMMAND != 0 {
        Some(HotkeyEvent::Press)
    } else {
        Some(HotkeyEvent::Release)
    }
}

} // verus!
