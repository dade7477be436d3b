//! The rules behind what the app keeps on disk: where a meeting stands, what its folder is
//! called, the settings and where their two secrets go, and what is ready to run.

use vstd::prelude::*;

use crate::email::EmailSettings;
use crate::minutes::LlmConfig;
use crate::templates::{DEFAULT_SYSTEM_PROMPT, DEFAULT_TEMPLATE};
use crate::text::{chars_of, contains, decimal, has, occurs_at, push_decimal, push_str, trim, trimmed};

verus! {

/// Where a meeting stands.
#[derive(Debug, Clone, Copy, PartialEq, Eq, Structural)]
pub enum Status {
    Recording,
    Transcribing,
    Summarizing,
    Done,
    Failed,
}

impl Status {
    /// Work that is under way while the app runs.
    pub open spec fn under_way(self) -> bool {
        self is Recording || self is Transcribing || self is Summarizing
    }

    pub fn is_unfinished(self) -> (r: bool)
        ensures
            r == self.under_way(),
    {
        match self {
            Status::Recording | Status::Transcribing | Status::Summarizing => true,
            Status::Done | Status::Failed => false,
        }
    }

    /// The status a meeting has when the app starts again: work that was under way when
    /// it last closed cannot still be running, and has failed.
    pub fn after_restart(self) -> (r: Status)
        ensures
            r == (if self.under_way() {
                Status::Failed
            } else {
                self
            }),
            !r.under_way(),
    {
        if self.is_unfinished() {
            Status::Failed
        } else {
            self
        }
    }
}

/// Why a meeting that was under way when the app closed has failed.
pub const INTERRUPTED: &'static str = "The app closed before this finished. Process it again.";

// ---------------------------------------------------------------------------------------
// Meeting folders.

/// A folder name the app could have made: not empty, and nothing that could point
/// elsewhere.
pub open spec fn meeting_id_ok(id: Seq<char>) -> bool {
    &&& id.len() > 0
    &&& !contains(id, seq!['/'])
    &&& !contains(id, seq!['\\'])
    &&& !contains(id, seq!['.', '.'])
}

/// Only a meeting id may be deleted.
pub fn check_meeting_id(id: &str) -> (r: Result<(), String>)
    ensures
        r is Ok <==> meeting_id_ok(id@),
        r matches Err(e) ==> e@ == "Not a meeting id."@,
{
    let v = chars_of(id);
    let slash = vec!['/'];
    let backslash = vec!['\\'];
    let dots = vec!['.', '.'];
    proof {
        assert(slash@ == seq!['/']);
        assert(backslash@ == seq!['\\']);
        assert(dots@ == seq!['.', '.']);
    }
    if v.len() == 0 || has(v.as_slice(), slash.as_slice()) || has(v.as_slice(), backslash.as_slice())
        || has(v.as_slice(), dots.as_slice()) {
        Err("Not a meeting id.".to_owned())
    } else {
        Ok(())
    }
}

/// The `n`th name tried for a meeting folder: the time it started, then the same with
/// `-1`, `-2` and so on for meetings started in the same second.
pub open spec fn meeting_id_of(base: Seq<char>, n: nat) -> Seq<char> {
    if n == 0 {
        base
    } else {
        base + seq!['-'] + decimal(n)
    }
}

pub fn meeting_id(base: &str, n: u64) -> (r: String)
    ensures
        r@ == meeting_id_of(base@, n as nat),
{
    let mut r = String::new();
    push_str(&mut r, base);
    if n > 0 {
        push_str(&mut r, "-");
        push_decimal(&mut r, n);
        proof {
            reveal_strlit("-");
        }
    }
    r
}

/// A number read back from its decimal digits.
proof fn lemma_decimal_value(n: nat)
    ensures
        crate::text::digits_value(decimal(n)) == n,
        decimal(n).len() >= 1,
    decreases n,
{
    if n >= 10 {
        lemma_decimal_value(n / 10);
        let d = decimal(n);
        assert(d.drop_last() == decimal(n / 10));
        assert((d.last() as u32) - 48 == n % 10);
        assert(crate::text::digits_value(d) == crate::text::digits_value(d.drop_last()) * 10 + ((d.last() as u32) - 48) as nat);
        assert(n == (n / 10) * 10 + n % 10);
    } else {
        let d = decimal(n);
        assert((d.last() as u32) - 48 == n);
        assert(d.drop_last().len() == 0);
        assert(crate::text::digits_value(d.drop_last()) == 0);
    }
}

/// Two meetings never get the same folder: the names tried for one start time all differ.
pub proof fn law_meeting_ids_never_collide(base: Seq<char>, n: nat, m: nat)
    requires
        n != m,
    ensures
        meeting_id_of(base, n) != meeting_id_of(base, m),
{
    lemma_decimal_value(n);
    lemma_decimal_value(m);
    if n != 0 && m != 0 {
        let a = meeting_id_of(base, n);
        let b = meeting_id_of(base, m);
        if a == b {
            assert(a.subrange(base.len() + 1int, a.len() as int) == decimal(n));
            assert(b.subrange(base.len() + 1int, b.len() as int) == decimal(m));
        }
    } else if n == 0 {
        assert(meeting_id_of(base, m).len() > base.len());
    } else {
        assert(meeting_id_of(base, n).len() > base.len());
    }
}

proof fn lemma_decimal_digits(n: nat)
    ensures
        forall|k: int| 0 <= k < decimal(n).len() ==> crate::text::is_ascii_digit(#[trigger] decimal(n)[k]),
    decreases n,
{
    if n >= 10 {
        lemma_decimal_digits(n / 10);
        let d = decimal(n);
        assert(d.last() as u32 == 48 + n % 10);
        assert forall|k: int| 0 <= k < d.len() implies crate::text::is_ascii_digit(#[trigger] d[k]) by {
            if k < d.len() - 1 {
                assert(d[k] == decimal(n / 10)[k]);
            }
        }
    } else {
        assert(decimal(n)[0] as u32 == 48 + n);
    }
}

/// A pattern whose last character `tail` never holds stands in `base + tail` only where it
/// already stood in `base`.
proof fn lemma_not_across(base: Seq<char>, tail: Seq<char>, p: Seq<char>)
    requires
        p.len() > 0,
        !contains(base, p),
        forall|k: int| 0 <= k < tail.len() ==> #[trigger] tail[k] != p.last(),
    ensures
        !contains(base + tail, p),
{
    let s = base + tail;
    assert forall|i: int| !occurs_at(s, p, i) by {
        if occurs_at(s, p, i) {
            if i + p.len() <= base.len() {
                assert(s.subrange(i, i + p.len()) == base.subrange(i, i + p.len()));
                assert(occurs_at(base, p, i));
            } else {
                let k = i + p.len() - 1;
                assert(s.subrange(i, i + p.len())[p.len() - 1] == s[k]);
                assert(s[k] == tail[k - base.len()]);
            }
        }
    }
}

/// Every folder name the app makes for a meeting is one it accepts when the meeting is
/// deleted: the numbers added to a good start time never make it point elsewhere.
pub proof fn law_made_ids_can_be_deleted(base: Seq<char>, n: nat)
    requires
        meeting_id_ok(base),
    ensures
        meeting_id_ok(meeting_id_of(base, n)),
{
    if n > 0 {
        lemma_decimal_digits(n);
        let tail = seq!['-'] + decimal(n);
        assert forall|k: int| 0 <= k < tail.len() implies #[trigger] tail[k] == '-' || crate::text::is_ascii_digit(
            tail[k],
        ) by {
            if k > 0 {
                assert(tail[k] == decimal(n)[k - 1]);
            }
        }
        assert(seq!['.', '.'].last() == '.');
        lemma_not_across(base, tail, seq!['/']);
        lemma_not_across(base, tail, seq!['\\']);
        lemma_not_across(base, tail, seq!['.', '.']);
        assert(meeting_id_of(base, n) == base + tail);
    }
}

// ---------------------------------------------------------------------------------------
// Settings.

pub struct Settings {
    pub llm_base_url: String,
    pub llm_api_key: String,
    pub llm_model: String,
    pub system_prompt: String,
    pub default_template: String,
    /// Names and terms the recognizer should prefer.
    pub vocabulary: Vec<String>,
    pub max_chars_per_call: usize,
    pub email: EmailSettings,
    /// Record what the computer plays (the other side of a call) next to the microphone.
    pub record_system_audio: bool,
}

impl Clone for Settings {
    fn clone(&self) -> (r: Self)
        ensures
            r.llm_base_url@ == self.llm_base_url@,
            r.llm_api_key@ == self.llm_api_key@,
            r.llm_model@ == self.llm_model@,
            r.system_prompt@ == self.system_prompt@,
            r.default_template@ == self.default_template@,
            r.vocabulary@.len() == self.vocabulary@.len(),
            forall|i: int| 0 <= i < r.vocabulary@.len() ==> r.vocabulary@[i]@ == self.vocabulary@[i]@,
            r.max_chars_per_call == self.max_chars_per_call,
            r.email.to@ == self.email.to@,
            r.email.from@ == self.email.from@,
            r.email.password@ == self.email.password@,
            r.email.server@ == self.email.server@,
            r.record_system_audio == self.record_system_audio,
    {
        let mut vocabulary: Vec<String> = Vec::new();
        let mut i: usize = 0;
        while i < self.vocabulary.len()
            invariant
                i <= self.vocabulary.len(),
                vocabulary@.len() == i,
                forall|j: int| 0 <= j < i ==> vocabulary@[j]@ == self.vocabulary@[j]@,
            decreases self.vocabulary.len() - i,
        {
            vocabulary.push(self.vocabulary[i].clone());
            i = i + 1;
        }
        Settings {
            llm_base_url: self.llm_base_url.clone(),
            llm_api_key: self.llm_api_key.clone(),
            llm_model: self.llm_model.clone(),
            system_prompt: self.system_prompt.clone(),
            default_template: self.default_template.clone(),
            vocabulary,
            max_chars_per_call: self.max_chars_per_call,
            email: EmailSettings {
                to: self.email.to.clone(),
                from: self.email.from.clone(),
                password: self.email.password.clone(),
                server: self.email.server.clone(),
            },
            record_system_audio: self.record_system_audio,
        }
    }
}

impl Default for Settings {
    /// LM Studio's local server, the default prompt and template, no mail, and the other
    /// side of a call recorded.
    fn default() -> (r: Self)
        ensures
            r.llm_base_url@ == "http://localhost:1234/v1"@,
            r.llm_api_key@.len() == 0,
            r.llm_model@.len() == 0,
            r.system_prompt@ == DEFAULT_SYSTEM_PROMPT@,
            r.default_template@ == DEFAULT_TEMPLATE@,
            r.vocabulary@.len() == 0,
            r.max_chars_per_call == 24_000,
            r.email.to@.len() == 0,
            r.email.from@.len() == 0,
            r.email.password@.len() == 0,
            r.email.server@.len() == 0,
            r.record_system_audio,
    {
        Settings {
            llm_base_url: "http://localhost:1234/v1".to_owned(),
            llm_api_key: String::new(),
            llm_model: String::new(),
            system_prompt: DEFAULT_SYSTEM_PROMPT.to_owned(),
            default_template: DEFAULT_TEMPLATE.to_owned(),
            vocabulary: Vec::new(),
            max_chars_per_call: 24_000,
            email: EmailSettings {
                to: String::new(),
                from: String::new(),
                password: String::new(),
                server: String::new(),
            },
            record_system_audio: true,
        }
    }
}

/// What the minutes are written with.
pub fn llm_config(settings: &Settings) -> (r: LlmConfig)
    ensures
        r.base_url@ == settings.llm_base_url@,
        r.api_key@ == settings.llm_api_key@,
        r.model@ == settings.llm_model@,
        r.max_chars_per_call == settings.max_chars_per_call,
{
    LlmConfig {
        base_url: settings.llm_base_url.clone(),
        api_key: settings.llm_api_key.clone(),
        model: settings.llm_model.clone(),
        max_chars_per_call: settings.max_chars_per_call,
    }
}

// ---------------------------------------------------------------------------------------
// Secrets: the API key and the mail password go to the system keychain where there is
// one, and stay in `settings.json` only where it refuses them.

/// What a secret field shows: what `settings.json` holds, or else what the secret store
/// answered when asked (`None` when it was not asked). A store that could not be read, or
/// holds nothing, shows an empty field.
pub open spec fn shown_secret_of(in_file: Seq<char>, kept: Option<Result<Option<String>, String>>) -> Seq<char> {
    if in_file.len() > 0 {
        in_file
    } else {
        match kept {
            Some(Ok(Some(secret))) => secret@,
            _ => Seq::empty(),
        }
    }
}

pub fn shown_secret(in_file: &str, kept: Option<Result<Option<String>, String>>) -> (r: String)
    ensures
        r@ == shown_secret_of(in_file@, kept),
{
    if !in_file.is_empty() {
        return in_file.to_owned();
    }
    match kept {
        Some(Ok(Some(secret))) => secret,
        _ => String::new(),
    }
}

/// Whether saving a secret field is handed to the secret store. An empty field only means
/// "remove it" if the secret could have been shown: when the store cannot be read the
/// field is empty for that reason alone, and what is stored stays as it is.
pub open spec fn hands_over(value: Seq<char>, store_readable: bool) -> bool {
    value.len() > 0 || store_readable
}

pub fn hands_to_store(value: &str, store_readable: bool) -> (r: bool)
    ensures
        r == hands_over(value@, store_readable),
{
    !value.is_empty() || store_readable
}

/// What `settings.json` keeps of a secret the store was handed: nothing once the store
/// has it, the secret itself where the store refused it.
pub open spec fn kept_in_file_of(value: Seq<char>, stored: Result<(), String>) -> Seq<char> {
    match stored {
        Ok(()) => Seq::empty(),
        Err(_) => value,
    }
}

pub fn kept_in_file(value: &str, stored: &Result<(), String>) -> (r: String)
    ensures
        r@ == kept_in_file_of(value@, *stored),
{
    match stored {
        Ok(()) => String::new(),
        Err(_) => value.to_owned(),
    }
}

/// A secret the store will not take is never lost: it stays in the file, and reads back
/// from there whatever the store answers.
pub proof fn law_a_refused_secret_is_never_lost(
    value: Seq<char>,
    refusal: String,
    kept: Option<Result<Option<String>, String>>,
)
    requires
        value.len() > 0,
    ensures
        kept_in_file_of(value, Err(refusal)) == value,
        shown_secret_of(kept_in_file_of(value, Err(refusal)), kept) == value,
{
}

/// A secret the store took reads back as it was saved, from a store that gives back what
/// it was handed (and nothing for an empty value, which removes it).
pub proof fn law_a_stored_secret_reads_back(value: Seq<char>, secret: String)
    requires
        secret@ == value,
    ensures
        shown_secret_of(
            kept_in_file_of(value, Ok(())),
            Some(Ok(if value.len() > 0 { Some(secret) } else { None })),
        ) == value,
{
}

/// A store that cannot be read is never told to forget: an empty field saved while it is
/// unreadable is not handed over.
pub proof fn law_an_unreadable_store_keeps_what_it_holds(value: Seq<char>)
    requires
        value.len() == 0,
    ensures
        !hands_over(value, false),
{
}

/// Whether secrets an older version left in `settings.json` are to be moved to the secret
/// store: only where there is one and the file holds a secret.
pub fn secrets_to_move(on_disk: &Settings, has_store: bool) -> (r: bool)
    ensures
        r == (has_store && (on_disk.llm_api_key@.len() > 0 || on_disk.email.password@.len() > 0)),
{
    has_store && (!on_disk.llm_api_key.as_str().is_empty() || !on_disk.email.password.as_str().is_empty())
}

// ---------------------------------------------------------------------------------------
// Readiness.

/// Whether transcription can start, and if not, what is missing.
pub struct Readiness {
    pub model_found: bool,
    pub model_location: Option<String>,
    pub model_install_dir: String,
    pub server_found: bool,
    pub server_location: Option<String>,
    pub llm_configured: bool,
    pub email_configured: bool,
}

/// What is ready, from where the model files and `llama-server` were found (the folder
/// the model files are in, none when they were not found) and the settings. The model
/// counts as found exactly when a folder is given for it, and so does the server.
pub fn readiness(
    model_location: Option<String>,
    model_install_dir: String,
    server_location: Option<String>,
    settings: &Settings,
) -> (r: Readiness)
    ensures
        r.model_found == model_location.is_some(),
        r.model_location == model_location,
        r.model_install_dir == model_install_dir,
        r.server_found == server_location.is_some(),
        r.server_location == server_location,
        r.llm_configured == (trim(settings.llm_base_url@).len() > 0 && trim(settings.llm_model@).len() > 0),
        r.email_configured == settings.email.configured(),
{
    let base = trimmed(settings.llm_base_url.as_str());
    let model = trimmed(settings.llm_model.as_str());
    let llm_configured = !base.as_str().is_empty() && !model.as_str().is_empty();
    let email_configured = settings.email.is_configured();
    let server_found = server_location.is_some();
    let model_found = model_location.is_some();
    Readiness {
        model_found,
        model_location,
        model_install_dir,
        server_found,
        server_location,
        llm_configured,
        email_configured,
    }
}

} // verus!
