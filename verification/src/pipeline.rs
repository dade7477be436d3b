//! The decisions taken while a recording is transcribed chunk by chunk: which answers are
//! kept, which failures are counted, and whether the recording ends up with a transcript.

use vstd::prelude::*;

use crate::text::{push_str, trim, trimmed};

verus! {

/// What the recognizer answered for one chunk of speech.
pub enum Reply {
    /// The words it heard, as it sent them.
    Text(String),
    /// Why the chunk could not be transcribed.
    Failed(String),
}

/// A chunk that was heard: its first sample, the sample after its last, and its words.
pub struct Heard {
    pub start: usize,
    pub end: usize,
    pub text: String,
}

/// What the chunks transcribed so far have given.
pub struct Tally {
    pub heard: Vec<Heard>,
    pub failures: usize,
    pub last_error: String,
}

/// An answer is kept when something is left of it without white space at its ends.
pub open spec fn keeps(text: Seq<char>) -> bool {
    trim(text).len() > 0
}

/// The text the transcription fails with, after the last failure's reason.
pub open spec fn failed_text(last_error: Seq<char>) -> Seq<char> {
    "Transcription failed: "@ + last_error
}

/// The text the transcription fails with when every chunk was answered with silence.
pub open spec fn silence_text() -> Seq<char> {
    "No speech was recognized in the recording."@
}

impl Tally {
    /// Nothing heard and nothing failed yet.
    pub fn new() -> (t: Tally)
        ensures
            t.heard@.len() == 0,
            t.failures == 0,
            t.last_error@ == Seq::<char>::empty(),
    {
        Tally { heard: Vec::new(), failures: 0, last_error: String::new() }
    }

    /// Takes in the recognizer's answer for the chunk `[start, end)`. Words are kept trimmed,
    /// and only when some are left; a failure is counted and its reason remembered, and
    /// the chunks after it are still tried.
    pub fn record(&mut self, start: usize, end: usize, reply: Reply)
        requires
            old(self).failures < usize::MAX,
        ensures
            match reply {
                Reply::Text(text) => {
                    &&& final(self).failures == old(self).failures
                    &&& final(self).last_error@ == old(self).last_error@
                    &&& if keeps(text@) {
                        &&& final(self).heard@.len() == old(self).heard@.len() + 1
                        &&& final(self).heard@.take(old(self).heard@.len() as int) == old(self).heard@
                        &&& final(self).heard@.last().start == start
                        &&& final(self).heard@.last().end == end
                        &&& final(self).heard@.last().text@ == trim(text@)
                    } else {
                        final(self).heard@ == old(self).heard@
                    }
                },
                Reply::Failed(reason) => {
                    &&& final(self).heard@ == old(self).heard@
                    &&& final(self).failures == old(self).failures + 1
                    &&& final(self).last_error@ == reason@
                },
            },
    {
        match reply {
            Reply::Text(text) => {
                let words = trimmed(text.as_str());
                if !words.as_str().is_empty() {
                    self.heard.push(Heard { start, end, text: words });
                    proof {
                        assert(self.heard@.take(old(self).heard@.len() as int) == old(self).heard@);
                    }
                }
            },
            Reply::Failed(reason) => {
                self.failures = self.failures + 1;
                self.last_error = reason;
            },
        }
    }

    /// The transcript stands when some chunk was heard. Otherwise the recording fails: with
    /// the last failure's reason when a chunk failed, else because only silence came back.
    pub fn outcome(&self) -> (r: Result<(), String>)
        ensures
            r is Ok <==> self.heard@.len() > 0,
            self.heard@.len() == 0 && self.failures > 0 ==> (r matches Err(e) && e@ == failed_text(
                self.last_error@,
            )),
            self.heard@.len() == 0 && self.failures == 0 ==> (r matches Err(e) && e@ == silence_text()),
    {
        if self.heard.len() > 0 {
            Ok(())
        } else if self.failures > 0 {
            let mut e = String::new();
            push_str(&mut e, "Transcription failed: ");
            push_str(&mut e, self.last_error.as_str());
            Err(e)
        } else {
            let mut e = String::new();
            push_str(&mut e, "No speech was recognized in the recording.");
            Err(e)
        }
    }
}

} // verus!
