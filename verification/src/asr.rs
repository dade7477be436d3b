//! Talking to a speech recognizer over OpenAI's transcription API: where requests go, the
//! words it should prefer, and which failures are worth another try.

use vstd::prelude::*;

use crate::minutes::without_trailing_slashes;
use crate::text::{chars_of, decimal, push_chars, push_decimal, push_str, slice_of, trim, trim_bounds};

verus! {

/// What can go wrong in speech recognition.
#[derive(Debug, Clone, PartialEq, Eq)]
pub enum Error {
    Audio(String),
    Request(String),
    Server { status: u16, body: String },
    ServerStart(String),
}

impl Error {
    /// Worth another try a little later: no answer, too many requests, or a server trouble.
    /// A refused key or an unknown model is not.
    pub open spec fn passing(&self) -> bool {
        match self {
            Error::Request(_) => true,
            Error::Server { status, .. } => *status == 408 || *status == 429 || *status >= 500,
            Error::Audio(_) | Error::ServerStart(_) => false,
        }
    }

    pub fn is_passing(&self) -> (r: bool)
        ensures
            r == self.passing(),
    {
        match self {
            Error::Request(_) => true,
            Error::Server { status, .. } => *status == 408 || *status == 429 || *status >= 500,
            Error::Audio(_) | Error::ServerStart(_) => false,
        }
    }

    /// How the error is told.
    pub open spec fn message_of(&self) -> Seq<char> {
        match self {
            Error::Audio(detail) => "could not prepare audio for Qwen3-ASR: "@ + detail@,
            Error::Request(detail) => "the speech recognizer could not be reached: "@ + detail@,
            Error::Server { status, body } => "the speech recognizer answered "@ + decimal(*status as nat) + ": "@
                + body@,
            Error::ServerStart(detail) => "could not start llama-server: "@ + detail@,
        }
    }

    pub fn message(&self) -> (r: String)
        ensures
            r@ == self.message_of(),
    {
        let mut r = String::new();
        match self {
            Error::Audio(detail) => {
                push_str(&mut r, "could not prepare audio for Qwen3-ASR: ");
                push_str(&mut r, detail.as_str());
            },
            Error::Request(detail) => {
                push_str(&mut r, "the speech recognizer could not be reached: ");
                push_str(&mut r, detail.as_str());
            },
            Error::Server { status, body } => {
                push_str(&mut r, "the speech recognizer answered ");
                push_decimal(&mut r, *status as u64);
                push_str(&mut r, ": ");
                push_str(&mut r, body.as_str());
            },
            Error::ServerStart(detail) => {
                push_str(&mut r, "could not start llama-server: ");
                push_str(&mut r, detail.as_str());
            },
        }
        r
    }
}

/// Server trouble is worth another try: every answer of status 500 or above, a timeout
/// (408) and too many requests (429), and no answer at all. Any other answer, and audio
/// that could not be prepared or a server that did not start, is not.
pub proof fn law_server_trouble_is_tried_again(status: u16, body: String, detail: String)
    ensures
        status >= 500 ==> (Error::Server { status, body }).passing(),
        status == 408 || status == 429 ==> (Error::Server { status, body }).passing(),
        status < 500 && status != 408 && status != 429 ==> !(Error::Server { status, body }).passing(),
        (Error::Request(detail)).passing(),
        !(Error::Audio(detail)).passing(),
        !(Error::ServerStart(detail)).passing(),
{
}

/// A failure is tried again while pauses are left for it: a passing one, once per pause.
pub fn try_again(error: &Error, pauses_left: usize) -> (r: bool)
    ensures
        r == (error.passing() && pauses_left > 0),
{
    error.is_passing() && pauses_left > 0
}

/// The transcription endpoint under an OpenAI-style root.
pub open spec fn endpoint_of(base_url: Seq<char>) -> Seq<char> {
    without_trailing_slashes(trim(base_url)) + "/audio/transcriptions"@
}

pub fn endpoint(base_url: &str) -> (r: String)
    ensures
        r@ == endpoint_of(base_url@),
{
    let v = chars_of(base_url);
    let (a, b) = trim_bounds(v.as_slice());
    let t = slice_of(v.as_slice(), a, b);
    let mut n = t.len();
    assert(t@.take(t.len() as int) == t@);
    while n > 0 && t[n - 1] == '/'
        invariant
            n <= t@.len(),
            without_trailing_slashes(t@.take(n as int)) == without_trailing_slashes(t@),
        decreases n,
    {
        assert(t@.take(n as int).drop_last() == t@.take(n - 1));
        n = n - 1;
    }
    let kept = slice_of(t.as_slice(), 0, n);
    assert(kept@ == t@.take(n as int));
    let mut r = String::new();
    push_chars(&mut r, kept.as_slice());
    push_str(&mut r, "/audio/transcriptions");
    r
}

/// The words the recognizer is asked to prefer, trimmed, empty ones left out.
pub open spec fn terms_of(vocabulary: Seq<Seq<char>>) -> Seq<Seq<char>>
    decreases vocabulary.len(),
{
    if vocabulary.len() == 0 {
        Seq::empty()
    } else {
        let before = terms_of(vocabulary.drop_last());
        let term = trim(vocabulary.last());
        if term.len() > 0 {
            before.push(term)
        } else {
            before
        }
    }
}

/// The prompt that carries the vocabulary: the terms joined by commas, or none.
pub open spec fn prompt_of(vocabulary: Seq<Seq<char>>) -> Option<Seq<char>> {
    let terms = terms_of(vocabulary);
    if terms.len() > 0 {
        Some(crate::text::join(terms, ", "@))
    } else {
        None
    }
}

pub fn vocabulary_prompt(vocabulary: &[String]) -> (r: Option<String>)
    ensures
        match prompt_of(vocabulary@.map_values(|t: String| t@)) {
            Some(p) => r matches Some(s) && s@ == p,
            None => r is None,
        },
{
    let ghost words = vocabulary@.map_values(|t: String| t@);
    let mut terms: Vec<String> = Vec::new();
    let mut i: usize = 0;
    while i < vocabulary.len()
        invariant
            i <= vocabulary@.len(),
            words == vocabulary@.map_values(|t: String| t@),
            terms@.map_values(|t: String| t@) == terms_of(words.take(i as int)),
        decreases vocabulary.len() - i,
    {
        assert(words.take(i + 1).drop_last() == words.take(i as int));
        assert(words.take(i + 1).last() == vocabulary@[i as int]@);
        let term = crate::text::trimmed(vocabulary[i].as_str());
        if !term.as_str().is_empty() {
            let ghost before = terms@.map_values(|t: String| t@);
            terms.push(term);
            assert(terms@.map_values(|t: String| t@) =~= before.push(trim(vocabulary@[i as int]@)));
        }
        i = i + 1;
    }
    assert(words.take(vocabulary.len() as int) == words);
    if terms.len() == 0 {
        return None;
    }
    let ghost tv = terms@.map_values(|t: String| t@);
    let mut joined = String::new();
    let mut k: usize = 0;
    while k < terms.len()
        invariant
            k <= terms@.len(),
            terms@.len() > 0,
            tv == terms@.map_values(|t: String| t@),
            k > 0 ==> joined@ == crate::text::join(tv.take(k as int), ", "@),
            k == 0 ==> joined@.len() == 0,
        decreases terms.len() - k,
    {
        proof {
            reveal_strlit(", ");
        }
        if k > 0 {
            push_str(&mut joined, ", ");
        }
        push_str(&mut joined, terms[k].as_str());
        proof {
            assert(tv.take(k + 1).drop_last() == tv.take(k as int));
            assert(tv.take(k + 1).last() == tv[k as int]);
        }
        k = k + 1;
    }
    assert(tv.take(terms.len() as int) == tv);
    Some(joined)
}

} // verus!
