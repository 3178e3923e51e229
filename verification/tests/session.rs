use ptt::audio::AudioDevice;
use ptt::hotkey::{hotkey_event, HotkeyEvent, CG_EVENT_FLAG_COMMAND, FLAGS_CHANGED, RIGHT_CMD_KEYCODE};
use ptt::menu::{default_mic_index, mic_choice, mic_labels, warm_choice, MicChoice};
use ptt::session::{transcript_action, PttState, TranscriptAction};

fn dev(index: &str, name: &str) -> AudioDevice {
    AudioDevice { index: index.to_string(), name: name.to_string() }
}

#[test]
fn right_command_press_and_release() {
    assert!(hotkey_event(FLAGS_CHANGED, RIGHT_CMD_KEYCODE, CG_EVENT_FLAG_COMMAND) == Some(HotkeyEvent::Press));
    assert!(hotkey_event(12, 54, 0x0010_0100) == Some(HotkeyEvent::Press));
    assert!(hotkey_event(12, 54, 0x100) == Some(HotkeyEvent::Release));
    assert!(hotkey_event(12, 55, CG_EVENT_FLAG_COMMAND).is_none());
    assert!(hotkey_event(10, 54, CG_EVENT_FLAG_COMMAND).is_none());
}

#[test]
fn press_release_finish_cycle() {
    let mut s = PttState::new();
    assert!(s.press());
    assert!(!s.press());
    assert!(s.recording && !s.busy);
    assert!(s.release());
    assert!(!s.recording && s.busy);
    assert!(!s.press());
    assert!(!s.release());
    s.finish();
    assert!(!s.recording && !s.busy);
    assert!(s.press());
}

#[test]
fn transcripts_are_pasted_unless_blank() {
    assert!(matches!(transcript_action(Ok(" hi ".into())), TranscriptAction::Paste(t) if t == " hi "));
    assert!(matches!(transcript_action(Ok(" \n\t".into())), TranscriptAction::Empty));
    assert!(matches!(transcript_action(Err("boom".into())), TranscriptAction::Failed(e) if e == "boom"));
}

#[test]
fn macbook_microphone_is_preselected() {
    let devs = vec![dev("0", "External USB Microphone"), dev("1", "MACBOOK Pro Microphone")];
    assert_eq!(default_mic_index(&devs), 1);
    assert_eq!(default_mic_index(&vec![dev("0", "USB"), dev("3", "Other")]), 0);
    assert_eq!(mic_labels(&devs), vec!["[0] External USB Microphone", "[1] MACBOOK Pro Microphone"]);
}

#[test]
fn mic_choice_order_of_precedence() {
    let devs = vec![dev("0", "USB"), dev("5", "MacBook Air Microphone")];
    assert!(matches!(mic_choice(Some("9".into()), &devs, true), MicChoice::Use(m) if m == "9"));
    assert!(matches!(mic_choice(Some(String::new()), &vec![], true), MicChoice::Use(m) if m == "1"));
    assert!(matches!(mic_choice(None, &devs, false), MicChoice::Use(m) if m == "5"));
    match mic_choice(None, &devs, true) {
        MicChoice::Ask { labels, default } => {
            assert_eq!(default, 1);
            assert_eq!(labels, vec!["[0] USB", "[5] MacBook Air Microphone"]);
        }
        _ => panic!("expected Ask"),
    }
}

#[test]
fn mic_stays_warm_without_a_terminal() {
    assert_eq!(warm_choice(false), Some(true));
    assert_eq!(warm_choice(true), None);
}
