//! The push-to-talk session: when a key press starts a recording, when a
//! release ends one, and what becomes of a transcript.
use vstd::prelude::*;
use crate::text::{chars_of, trim, ws_trimmed};

verus! {

/// Whether a recording is under way and whether one is being transcribed.
pub struct PttState {
    pub recording: bool,
    pub busy: bool,
}

impl PttState {
    /// No recording at once with a transcription.
    pub open spec fn wf(self) -> bool {
        !(self.recording && self.busy)
    }

    /// The state after a press, and whether a recording starts: only when
    /// neither recording nor transcribing.
    pub open spec fn pressed(self) -> (PttState, bool) {
        if self.recording || self.busy {
            (self, false)
        } else {
            (PttState { recording: true, busy: self.busy }, true)
        }
    }

    /// The state after a release, and whether a recording ends: only when
    /// one is under way, which then goes to transcription.
    pub open spec fn released(self) -> (PttState, bool) {
        if !self.recording {
            (self, false)
        } else {
            (PttState { recording: false, busy: true }, true)
        }
    }

    /// The state once a transcription is over.
    pub open spec fn finished(self) -> PttState {
        PttState { recording: self.recording, busy: false }
    }

    pub fn new() -> (r: PttState)
        ensures
            r == (PttState { recording: false, busy: false }),
    {
        PttState { recording: false, busy: false }
    }

    /// The key went down (`on_press`): returns whether to start recording.
    pub fn press(&mut self) -> (start: bool)
        ensures
            (*final(self), start) == old(self).pressed(),
    {
        if self.recording || self.busy {
            return false;
        }
        self.recording = true;
        true
    }

    /// The key went up (`on_release`): returns whether to stop recording and
    /// transcribe.
    pub fn release(&mut self) -> (stop: bool)
        ensures
            (*final(self), stop) == old(self).released(),
    {
        if !self.recording {
            return false;
        }
        self.recording = false;
        self.busy = true;
        true
    }

    /// The transcription is over.
    pub fn finish(&mut self)
        ensures
            *final(self) == old(self).finished(),
    {
        self.busy = false;
    }
}

/// Law: press, release and the end of a transcription each keep a session
/// from recording while it transcribes.
pub proof fn lemma_steps_keep_wf(s: PttState)
    requires
        s.wf(),
    ensures
        s.pressed().0.wf(),
        s.released().0.wf(),
        s.finished().wf(),
{
}

/// Law: while a transcription runs, a press starts nothing and leaves the
/// session as it is.
pub proof fn lemma_busy_ignores_press(s: PttState)
    requires
        s.busy,
    ensures
        s.pressed() == (s, false),
{
}

/// Law: from idle, press, release and the end of the transcription start
/// one recording, end it, and return to idle.
pub proof fn lemma_cycle_returns_to_idle()
    ensures
        ({
            let idle = PttState { recording: false, busy: false };
            let (a, started) = idle.pressed();
            let (b, stopped) = a.released();
            started && stopped && b.busy && b.finished() == idle
        }),
{
}

/// What becomes of a transcription's result.
pub enum TranscriptAction {
    /// Paste this text.
    Paste(String),
    /// Nothing was said.
    Empty,
    /// Report this error.
    Failed(String),
}

/// A transcript that is blank once trimmed is reported as empty; any other
/// is pasted as it came.
pub fn transcript_action(result: Result<String, String>) -> (r: TranscriptAction)
    ensures
        match result {
            Ok(text) => if ws_trimmed(text@).len() > 0 {
                r matches TranscriptAction::Paste(t) && t@ == text@
            } else {
                r is Empty
            },
            Err(e) => r matches TranscriptAction::Failed(m) && m@ == e@,
        },
{
    match result {
        Ok(text) => {
            let t = trim(chars_of(text.as_str()).as_slice());
            if t.len() > 0 {
                TranscriptAction::Paste(text)
            } else {
                TranscriptAction::Empty
            }
        },
        Err(e) => TranscriptAction::Failed(e),
    }
}

} // verus!
