//! Choosing the microphone: the default device, the menu labels, and when
//! the user is asked at all.
use vstd::prelude::*;
use vstd::string::StringExecFns;
use crate::audio::{device_views, AudioDevice};
use crate::text::{chars_of, contains, has_infix, string_views};

verus! {

/// What `str::to_lowercase` returns (Unicode lowercase mapping).
pub uninterp spec fn lowercase(s: Seq<char>) -> Seq<char>;

/// `str::to_lowercase`: the contract claims only that the result is the one
/// named by `lowercase` for this text.
#[verifier::external_body]
fn to_lowercase(s: &str) -> (r: String)
    ensures
        r@ == lowercase(s@),
{
    s.to_lowercase()
}

/// Whether a device name mentions a MacBook, in any letter case.
pub open spec fn is_macbook(name: Seq<char>) -> bool {
    has_infix(lowercase(name), "macbook"@)
}

/// The first device at or after `i` whose name mentions a MacBook.
pub open spec fn macbook_from(devs: Seq<(Seq<char>, Seq<char>)>, i: int) -> Option<int>
    decreases devs.len() - i,
{
    if i < 0 || i >= devs.len() {
        None
    } else if is_macbook(devs[i].1) {
        Some(i)
    } else {
        macbook_from(devs, i + 1)
    }
}

/// The preselected device: the first MacBook microphone, else the first one.
pub open spec fn default_device(devs: Seq<(Seq<char>, Seq<char>)>) -> int {
    match macbook_from(devs, 0) {
        Some(i) => i,
        None => 0,
    }
}

/// The index in `devices` of the preselected microphone.
pub fn default_mic_index(devices: &Vec<AudioDevice>) -> (r: usize)
    ensures
        r as int == default_device(device_views(devices@)),
        devices@.len() > 0 ==> r < devices@.len(),
{
    let ghost devs = device_views(devices@);
    let needle = chars_of("macbook");
    let mut i: usize = 0;
    while i < devices.len()
        invariant
            i <= devices@.len(),
            devs == device_views(devices@),
            needle@ == "macbook"@,
            macbook_from(devs, 0) == macbook_from(devs, i as int),
        decreases devices.len() - i,
    {
        let lower = to_lowercase(devices[i].name.as_str());
        let lc = chars_of(lower.as_str());
        assert(devs[i as int].1 == devices@[i as int].name@);
        if contains(lc.as_slice(), needle.as_slice()) {
            return i;
        }
        i = i + 1;
    }
    0
}

/// The menu entry of a device: `[index] name`.
pub open spec fn device_label(d: (Seq<char>, Seq<char>)) -> Seq<char> {
    "["@ + d.0 + "] "@ + d.1
}

/// The menu entries of the devices, in order.
pub fn mic_labels(devices: &Vec<AudioDevice>) -> (r: Vec<String>)
    ensures
        string_views(r@) == device_views(devices@).map_values(|d: (Seq<char>, Seq<char>)| device_label(d)),
{
    let ghost want = device_views(devices@).map_values(|d: (Seq<char>, Seq<char>)| device_label(d));
    let mut r: Vec<String> = Vec::new();
    let mut i: usize = 0;
    while i < devices.len()
        invariant
            i <= devices@.len(),
            want == device_views(devices@).map_values(|d: (Seq<char>, Seq<char>)| device_label(d)),
            string_views(r@) == want.take(i as int),
        decreases devices.len() - i,
    {
        let d = &devices[i];
        let label = String::from_str("[").concat(d.index.as_str()).concat("] ").concat(
            d.name.as_str(),
        );
        let ghost before = r@;
        r.push(label);
        assert(string_views(r@) =~= string_views(before).push(label@));
        i = i + 1;
        assert(want.take(i as int) =~= want.take(i - 1).push(want[i - 1]));
    }
    assert(want.take(i as int) =~= want);
    r
}

/// A setting's text when it is given and not empty.
pub open spec fn nonempty_setting(v: Option<String>) -> Option<Seq<char>> {
    match v {
        Some(m) => if m@.len() > 0 {
            Some(m@)
        } else {
            None
        },
        None => None,
    }
}

/// How the microphone is settled.
pub enum MicChoice {
    /// Use this device index.
    Use(String),
    /// Ask the user among these labels, with this one preselected.
    Ask { labels: Vec<String>, default: usize },
}

/// The choice of microphone (the decisions of `choose_mic`): a non-empty
/// `MIC` setting wins; with no devices listed, device `1`; without a
/// terminal, the preselected device; otherwise the user is asked.
pub fn mic_choice(env_mic: Option<String>, devices: &Vec<AudioDevice>, interactive: bool) -> (r:
    MicChoice)
    ensures
        match nonempty_setting(env_mic) {
            Some(m) => r matches MicChoice::Use(x) && x@ == m,
            None => {
                let devs = device_views(devices@);
                if devs.len() == 0 {
                    r matches MicChoice::Use(x) && x@ == "1"@
                } else if !interactive {
                    r matches MicChoice::Use(x) && x@ == devs[default_device(devs)].0
                } else {
                    r matches MicChoice::Ask { labels, default } && default as int
                        == default_device(devs) && string_views(labels@) == devs.map_values(
                        |d: (Seq<char>, Seq<char>)| device_label(d),
                    )
                }
            },
        },
{
    if let Some(m) = env_mic {
        if m.as_str().is_empty() == false {
            return MicChoice::Use(m);
        }
    }
    if devices.len() == 0 {
        return MicChoice::Use(String::from_str("1"));
    }
    let default = default_mic_index(devices);
    if !interactive {
        assert(device_views(devices@)[default as int].0 == devices@[default as int].index@);
        return MicChoice::Use(devices[default].index.clone());
    }
    MicChoice::Ask { labels: mic_labels(devices), default }
}

/// Whether the microphone stays open between recordings (the decision of
/// `choose_warm`): without a terminal it does (`Some(true)`); with one the
/// user is asked (`None`).
pub fn warm_choice(interactive: bool) -> (r: Option<bool>)
    ensures
        !interactive ==> r == Some(true),
        interactive ==> r is None,
{
    if interactive {
        None
    } else {
        Some(true)
    }
}

} // verus!
