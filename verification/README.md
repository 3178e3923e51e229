# ptt

Push-to-talk dictation for macOS: hold Right Command, speak, release, and the
transcript from ChatGPT's voice-input endpoint is pasted into the focused field.

- `src/` is the verified library: reading `creds.env` and copied cURL commands
  (a shell-word reader, header and cookie options, the JWT account claim),
  base64url, the token and response checks, the retry policy, the ffmpeg
  device listing and command lines, the microphone choice, the hotkey and the
  push-to-talk session. Each function carries a contract that Verus proves,
  except eight small trusted wrappers around outside calls (the JSON reads
  made by `serde_json`, the system clock, `str::to_lowercase` and
  `String::push`), whose contracts Verus takes as given.
- `app/` is the program around it: ffmpeg processes, the macOS event tap,
  sounds and clipboard, the terminal menus and the HTTP client.
- `tests/` runs the library on concrete inputs.
