use ptt::audio::{
    capture_args, encode_args, parse_audio_devices, pcm_is_usable, usable_pcm, MIN_PCM_BYTES,
};

const LISTING: &str = "\
[AVFoundation indev @ 0x1] AVFoundation video devices:
[AVFoundation indev @ 0x1] [0] FaceTime HD Camera
[AVFoundation indev @ 0x1] [1] Capture screen 0
[AVFoundation indev @ 0x1] AVFoundation audio devices:
[AVFoundation indev @ 0x1] [0] External USB Microphone
[AVFoundation indev @ 0x1] [1] MacBook Pro Microphone
";

#[test]
fn parse_devices() {
    let devs = parse_audio_devices(LISTING);
    assert_eq!(devs.len(), 2);
    assert_eq!(devs[0].index, "0");
    assert!(devs[0].name.contains("External USB"));
    assert_eq!(devs[1].index, "1");
    assert!(devs[1].name.contains("MacBook"));
}

#[test]
fn parse_empty() {
    assert!(parse_audio_devices("").is_empty());
}

#[test]
fn device_names_are_trimmed_and_indices_exact() {
    let devs = parse_audio_devices(LISTING);
    assert_eq!(devs[0].name, "External USB Microphone");
    assert_eq!(devs[1].name, "MacBook Pro Microphone");
}

#[test]
fn video_devices_after_audio_are_not_listed() {
    let listing = "x audio devices:\nx [2] Mic\nx video devices:\nx [0] Camera\n";
    let devs = parse_audio_devices(listing);
    assert_eq!(devs.len(), 1);
    assert_eq!(devs[0].index, "2");
    assert_eq!(devs[0].name, "Mic");
}

#[test]
fn non_numeric_index_is_skipped_and_empty_index_kept() {
    let listing = "audio devices:\n[ab] Nope\n[] Unnamed\nno brackets here\n[3 unclosed\r\n";
    let devs = parse_audio_devices(listing);
    assert_eq!(devs.len(), 1);
    assert_eq!(devs[0].index, "");
    assert_eq!(devs[0].name, "Unnamed");
}

#[test]
fn last_bracket_of_a_line_holds_the_index() {
    let devs = parse_audio_devices("audio devices:\n[AVFoundation indev @ 0x1] [7] Mic [Pro]x\n");
    assert_eq!(devs.len(), 0);
    let devs = parse_audio_devices("audio devices:\n[AVFoundation indev @ 0x1] [7] Mic\n");
    assert_eq!(devs[0].index, "7");
}

#[test]
fn crlf_lines_are_read() {
    let devs = parse_audio_devices("audio devices:\r\n[4] Line In\r\n");
    assert_eq!(devs.len(), 1);
    assert_eq!(devs[0].index, "4");
    assert_eq!(devs[0].name, "Line In");
}

#[test]
fn short_recordings_are_dropped() {
    assert_eq!(MIN_PCM_BYTES, 4000);
    assert!(!pcm_is_usable(4000));
    assert!(pcm_is_usable(4001));
    assert_eq!(usable_pcm(vec![0u8; 4000]), None);
    assert_eq!(usable_pcm(vec![1u8; 4001]).map(|p| p.len()), Some(4001));
}

#[test]
fn capture_command_records_mono_48k_pcm() {
    assert_eq!(
        capture_args("2"),
        vec![
            "-hide_banner", "-loglevel", "error", "-f", "avfoundation", "-i", ":2", "-ac", "1",
            "-ar", "48000", "-f", "s16le", "-",
        ]
    );
}

#[test]
fn encode_command_writes_opus() {
    assert_eq!(
        encode_args(),
        vec![
            "-hide_banner", "-loglevel", "error", "-f", "s16le", "-ar", "48000", "-ac", "1",
            "-i", "-", "-c:a", "libopus", "-y",
        ]
    );
}
