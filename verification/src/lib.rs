//! Push-to-talk dictation: the logic behind recording, credentials and the
//! transcription request. Each function is proved against its contract,
//! except the trusted wrappers that make the outside calls: the JSON reads in
//! `json` (`read_u64_member`, `read_nested_str`, `read_str_member`), the
//! clock reads in `transcribe` (`clock_now`, `since_epoch`, `whole_seconds`),
//! `to_lowercase` in `menu` and `push_char` in `text`, whose contracts are
//! believed as stated.
pub mod text;
pub mod base64;
pub mod json;
pub mod config;
pub mod transcribe;
pub mod audio;
pub mod menu;
pub mod hotkey;
pub mod session;
