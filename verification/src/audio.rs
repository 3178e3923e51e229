//! Microphones and the ffmpeg commands that record and encode their audio.
use vstd::prelude::*;
use vstd::string::StringExecFns;
use crate::text::{
    chars_of, contains, decimal, decimal_chars, first_index, has_infix, last_index, lines,
    rfind_char, find_char, slice_of, string_of, string_views, text_lines, trim, views,
    ws_trimmed,
};

verus! {

/// The sample rate of recordings, in Hz (mono, signed 16-bit).
pub const RATE: u32 = 48000;

/// Recordings of at most this many bytes of PCM (about 40 ms) are dropped.
pub const MIN_PCM_BYTES: usize = 4000;

/// An audio input device as ffmpeg's avfoundation lists it.
pub struct AudioDevice {
    pub index: String,
    pub name: String,
}

impl View for AudioDevice {
    type V = (Seq<char>, Seq<char>);

    open spec fn view(&self) -> (Seq<char>, Seq<char>) {
        (self.index@, self.name@)
    }
}

pub open spec fn device_views(v: Seq<AudioDevice>) -> Seq<(Seq<char>, Seq<char>)> {
    v.map_values(|d: AudioDevice| d@)
}

pub open spec fn all_ascii_digits(s: Seq<char>) -> bool {
    forall|i: int| 0 <= i < s.len() ==> '0' <= #[trigger] s[i] <= '9'
}

/// The device a listing line names: after its last `[`, the text up to the
/// next `]` is the index (ASCII digits only, possibly none) and the trimmed
/// rest is the name.
pub open spec fn device_in_line(line: Seq<char>) -> Option<(Seq<char>, Seq<char>)> {
    match last_index(line, '[') {
        None => None,
        Some(b) => {
            let rest = line.skip(b + 1);
            match first_index(rest, ']') {
                None => None,
                Some(c) => {
                    let idx = rest.take(c);
                    if all_ascii_digits(idx) {
                        Some((idx, ws_trimmed(rest.skip(c + 1))))
                    } else {
                        None
                    }
                },
            }
        }
    }
}

/// The devices named by `lines`, reading audio devices only between an
/// `audio devices:` line and the next `video devices:` line.
pub open spec fn devices_from(lines: Seq<Seq<char>>, in_audio: bool) -> Seq<(Seq<char>, Seq<char>)>
    decreases lines.len(),
{
    if lines.len() == 0 {
        seq![]
    } else {
        let l = lines[0];
        let rest = lines.drop_first();
        if has_infix(l, "audio devices:"@) {
            devices_from(rest, true)
        } else if has_infix(l, "video devices:"@) {
            devices_from(rest, false)
        } else if !in_audio {
            devices_from(rest, false)
        } else {
            match device_in_line(l) {
                Some(d) => seq![d] + devices_from(rest, true),
                None => devices_from(rest, true),
            }
        }
    }
}

/// The audio devices of an ffmpeg `-list_devices` listing.
pub open spec fn listed_devices(listing: Seq<char>) -> Seq<(Seq<char>, Seq<char>)> {
    devices_from(text_lines(listing), false)
}

proof fn lemma_device_digits(line: Seq<char>)
    ensures
        device_in_line(line) matches Some(d) ==> all_ascii_digits(d.0),
{
}

proof fn lemma_devices_from_digits(lines: Seq<Seq<char>>, in_audio: bool)
    ensures
        forall|k: int|
            0 <= k < devices_from(lines, in_audio).len() ==> all_ascii_digits(
                #[trigger] devices_from(lines, in_audio)[k].0,
            ),
    decreases lines.len(),
{
    if lines.len() > 0 {
        let rest = lines.drop_first();
        lemma_devices_from_digits(rest, true);
        lemma_devices_from_digits(rest, false);
        lemma_device_digits(lines[0]);
        let res = devices_from(lines, in_audio);
        let rt = devices_from(rest, true);
        let rf = devices_from(rest, false);
        assert forall|k: int| 0 <= k < res.len() implies all_ascii_digits(#[trigger] res[k].0) by {
            let l = lines[0];
            if has_infix(l, "audio devices:"@) {
                assert(res[k] == rt[k]);
            } else if has_infix(l, "video devices:"@) || !in_audio {
                assert(res[k] == rf[k]);
            } else {
                match device_in_line(l) {
                    Some(d) => {
                        assert(res == seq![d] + rt);
                        if k > 0 {
                            assert(res[k] == rt[k - 1]);
                        }
                    },
                    None => {
                        assert(res[k] == rt[k]);
                    },
                }
            }
        }
    }
}

/// Law: every device read from a listing has an index made of ASCII digits.
pub proof fn lemma_listed_indices_are_digits(listing: Seq<char>)
    ensures
        forall|k: int|
            0 <= k < listed_devices(listing).len() ==> all_ascii_digits(
                #[trigger] listed_devices(listing)[k].0,
            ),
{
    lemma_devices_from_digits(text_lines(listing), false);
}

fn is_ascii_digits(cs: &[char]) -> (r: bool)
    ensures
        r == all_ascii_digits(cs@),
{
    let mut i: usize = 0;
    while i < cs.len()
        invariant
            i <= cs@.len(),
            forall|j: int| 0 <= j < i ==> '0' <= #[trigger] cs@[j] <= '9',
        decreases cs.len() - i,
    {
        if !('0' <= cs[i] && cs[i] <= '9') {
            return false;
        }
        i = i + 1;
    }
    true
}

/// The device that one listing line names, if any.
fn line_device(line: &[char]) -> (r: Option<AudioDevice>)
    ensures
        match device_in_line(line@) {
            Some(d) => r matches Some(x) && x@ == d,
            None => r is None,
        },
{
    let b = match rfind_char(line, '[') {
        Some(b) => b,
        None => {
            return None;
        },
    };
    let n = line.len();
    assert(b < n);
    let rest = slice_of(line, b + 1, n);
    assert(rest@ == line@.skip(b + 1));
    let c = match find_char(rest.as_slice(), ']') {
        Some(c) => c,
        None => {
            return None;
        },
    };
    let idx = slice_of(rest.as_slice(), 0, c);
    if !is_ascii_digits(idx.as_slice()) {
        return None;
    }
    let name = trim(slice_of(rest.as_slice(), c + 1, rest.len()).as_slice());
    Some(AudioDevice { index: string_of(idx.as_slice()), name: string_of(name.as_slice()) })
}

/// The audio devices of an ffmpeg avfoundation device listing
/// (`parse_audio_devices`).
pub fn parse_audio_devices(listing: &str) -> (r: Vec<AudioDevice>)
    ensures
        device_views(r@) == listed_devices(listing@),
{
    let cs = chars_of(listing);
    let ls = lines(cs.as_slice());
    let audio = chars_of("audio devices:");
    let video = chars_of("video devices:");
    let ghost all = views(ls@);
    let mut devices: Vec<AudioDevice> = Vec::new();
    let mut in_audio = false;
    let mut i: usize = 0;
    assert(all.skip(0) =~= all);
    assert(device_views(devices@) + devices_from(all, false) =~= listed_devices(listing@));
    while i < ls.len()
        invariant
            i <= ls@.len(),
            all == views(ls@),
            audio@ == "audio devices:"@,
            video@ == "video devices:"@,
            device_views(devices@) + devices_from(all.skip(i as int), in_audio) == listed_devices(
                listing@,
            ),
        decreases ls.len() - i,
    {
        let ghost rest = all.skip(i as int);
        assert(rest[0] == ls@[i as int]@);
        assert(rest.drop_first() =~= all.skip(i + 1));
        let line = ls[i].as_slice();
        if contains(line, audio.as_slice()) {
            in_audio = true;
        } else if contains(line, video.as_slice()) {
            in_audio = false;
        } else if in_audio {
            if let Some(d) = line_device(line) {
                let ghost before = device_views(devices@);
                let ghost dv = d@;
                devices.push(d);
                assert(device_views(devices@) =~= before.push(dv));
                assert(before + (seq![dv] + devices_from(rest.drop_first(), true)) =~= device_views(
                    devices@,
                ) + devices_from(rest.drop_first(), true));
            }
        }
        i = i + 1;
    }
    assert(all.skip(i as int) =~= seq![]);
    assert(device_views(devices@) + seq![] =~= device_views(devices@));
    devices
}

/// Whether a recording of `len` bytes of PCM is long enough to transcribe.
pub fn pcm_is_usable(len: usize) -> (r: bool)
    ensures
        r == (len > MIN_PCM_BYTES),
{
    len > MIN_PCM_BYTES
}

/// A recording when it is long enough to transcribe.
pub fn usable_pcm(pcm: Vec<u8>) -> (r: Option<Vec<u8>>)
    ensures
        pcm@.len() > MIN_PCM_BYTES ==> r == Some(pcm),
        pcm@.len() <= MIN_PCM_BYTES ==> r is None,
{
    if pcm_is_usable(pcm.len()) {
        Some(pcm)
    } else {
        None
    }
}

/// The ffmpeg arguments that record microphone `mic` as raw mono 16-bit PCM
/// at `RATE` on standard output.
pub open spec fn capture_command(mic: Seq<char>) -> Seq<Seq<char>> {
    seq![
        "-hide_banner"@,
        "-loglevel"@,
        "error"@,
        "-f"@,
        "avfoundation"@,
        "-i"@,
        ":"@ + mic,
        "-ac"@,
        "1"@,
        "-ar"@,
        decimal(RATE as nat),
        "-f"@,
        "s16le"@,
        "-"@,
    ]
}

/// The ffmpeg arguments that encode raw mono 16-bit PCM at `RATE` from
/// standard input as Opus, overwriting the output path that follows them.
pub open spec fn encode_command() -> Seq<Seq<char>> {
    seq![
        "-hide_banner"@,
        "-loglevel"@,
        "error"@,
        "-f"@,
        "s16le"@,
        "-ar"@,
        decimal(RATE as nat),
        "-ac"@,
        "1"@,
        "-i"@,
        "-"@,
        "-c:a"@,
        "libopus"@,
        "-y"@,
    ]
}

/// The ffmpeg arguments for recording microphone `mic`.
pub fn capture_args(mic: &str) -> (r: Vec<String>)
    ensures
        string_views(r@) == capture_command(mic@),
{
    let rate = string_of(decimal_chars(RATE as u64).as_slice());
    let mut r: Vec<String> = Vec::new();
    r.push(String::from_str("-hide_banner"));
    r.push(String::from_str("-loglevel"));
    r.push(String::from_str("error"));
    r.push(String::from_str("-f"));
    r.push(String::from_str("avfoundation"));
    r.push(String::from_str("-i"));
    r.push(String::from_str(":").concat(mic));
    r.push(String::from_str("-ac"));
    r.push(String::from_str("1"));
    r.push(String::from_str("-ar"));
    r.push(rate);
    r.push(String::from_str("-f"));
    r.push(String::from_str("s16le"));
    r.push(String::from_str("-"));
    assert(string_views(r@) =~= capture_command(mic@));
    r
}

/// The ffmpeg arguments for encoding a recording; the output path follows.
pub fn encode_args() -> (r: Vec<String>)
    ensures
        string_views(r@) == encode_command(),
{
    let rate = string_of(decimal_chars(RATE as u64).as_slice());
    let mut r: Vec<String> = Vec::new();
    r.push(String::from_str("-hide_banner"));
    r.push(String::from_str("-loglevel"));
    r.push(String::from_str("error"));
    r.push(String::from_str("-f"));
    r.push(String::from_str("s16le"));
    r.push(String::from_str("-ar"));
    r.push(rate);
    r.push(String::from_str("-ac"));
    r.push(String::from_str("1"));
    r.push(String::from_str("-i"));
    r.push(String::from_str("-"));
    r.push(String::from_str("-c:a"));
    r.push(String::from_str("libopus"));
    r.push(String::from_str("-y"));
    assert(string_views(r@) =~= encode_command());
    r
}

} // verus!
