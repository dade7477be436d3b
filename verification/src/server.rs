//! What the app tells and asks of the local `llama-server` it runs: the alias that marks
//! a server as its own, the settings it is started with, and what to say when it cannot
//! be started.

use std::path::PathBuf;
use std::time::Duration;

use vstd::prelude::*;

use crate::model::Qwen3AsrFiles;
use crate::text::{chars_of, contains, push_str, same};

verus! {

/// Passed as `--alias` so a server we launched can be told apart from a `llama-server`
/// the user runs themselves; only processes carrying it are ever killed.
pub const SERVER_ALIAS: &'static str = "zillanote-lite-qwen3-asr";
pub const BINARY_PATH_ENV: &'static str = "ZILLANOTE_LLAMA_SERVER";

/// What `Duration::from_secs` gives for `secs`.
pub uninterp spec fn seconds(secs: u64) -> Duration;

/// `Duration::from_secs`.
#[verifier::external_body]
pub(crate) fn duration_from_secs(secs: u64) -> (d: Duration)
    ensures
        d == seconds(secs),
{
    Duration::from_secs(secs)
}

/// How long a server may take to load the model before it is given up on.
pub const STARTUP_TIMEOUT_SECONDS: u64 = 180;

#[derive(Debug)]
pub struct LlamaServerConfig {
    pub binary: PathBuf,
    pub files: Qwen3AsrFiles,
    pub startup_timeout: Duration,
}

impl Clone for LlamaServerConfig {
    fn clone(&self) -> (r: Self)
        ensures
            r == *self,
    {
        LlamaServerConfig { binary: self.binary.clone(), files: self.files.clone(), startup_timeout: self.startup_timeout }
    }
}

impl LlamaServerConfig {
    pub fn new(binary: PathBuf, files: Qwen3AsrFiles) -> (r: Self)
        ensures
            r.binary == binary,
            r.files == files,
            r.startup_timeout == seconds(STARTUP_TIMEOUT_SECONDS),
    {
        LlamaServerConfig { binary, files, startup_timeout: duration_from_secs(STARTUP_TIMEOUT_SECONDS) }
    }
}

/// A process is one of ours when it is a `llama-server` started with our alias: `--alias`
/// followed directly by [`SERVER_ALIAS`] somewhere on its command line.
pub open spec fn is_our_server_of(name: Seq<char>, cmd: Seq<Seq<char>>) -> bool {
    &&& contains(name, "llama-server"@)
    &&& exists|i: int| #[trigger] alias_at(cmd, i)
}

/// `--alias` and our alias stand at `i` and `i + 1`.
pub open spec fn alias_at(cmd: Seq<Seq<char>>, i: int) -> bool {
    0 <= i && i + 1 < cmd.len() && cmd[i] == "--alias"@ && cmd[i + 1] == SERVER_ALIAS@
}

pub fn is_our_server(name: &str, cmd: &[String]) -> (r: bool)
    ensures
        r == is_our_server_of(name@, cmd@.map_values(|a: String| a@)),
{
    let ghost words = cmd@.map_values(|a: String| a@);
    let named = crate::text::has(chars_of(name).as_slice(), chars_of("llama-server").as_slice());
    if !named {
        return false;
    }
    let alias_flag = chars_of("--alias");
    let alias = chars_of(SERVER_ALIAS);
    let mut i: usize = 0;
    while i < cmd.len() && i + 1 < cmd.len()
        invariant
            words == cmd@.map_values(|a: String| a@),
            contains(name@, "llama-server"@),
            alias_flag@ == "--alias"@,
            alias@ == SERVER_ALIAS@,
            forall|j: int| 0 <= j < i ==> !#[trigger] alias_at(words, j),
        decreases cmd.len() - i,
    {
        let a = chars_of(cmd[i].as_str());
        let b = chars_of(cmd[i + 1].as_str());
        if same(a.as_slice(), alias_flag.as_slice()) && same(b.as_slice(), alias.as_slice()) {
            assert(alias_at(words, i as int));
            return true;
        }
        i = i + 1;
    }
    assert forall|j: int| !#[trigger] alias_at(words, j) by {
        if 0 <= j && j + 1 < words.len() {
            assert(j < i);
        }
    }
    false
}

/// Said when no `llama-server` is found.
pub open spec fn missing_binary_message() -> Seq<char> {
    "llama-server was not found. Install llama.cpp (for example `brew install llama.cpp`) or set "@
        + BINARY_PATH_ENV@ + " to the llama-server binary."@
}

pub fn describe_missing_binary() -> (r: String)
    ensures
        r@ == missing_binary_message(),
{
    let mut r = String::new();
    push_str(&mut r, "llama-server was not found. Install llama.cpp (for example `brew install llama.cpp`) or set ");
    push_str(&mut r, BINARY_PATH_ENV);
    push_str(&mut r, " to the llama-server binary.");
    r
}

/// Said when the model files are in neither place they are looked for; `models_dir` is
/// the folder they can be put in, as it is shown to the user.
pub open spec fn missing_model_message(models_dir: Seq<char>, repo: Seq<char>) -> Seq<char> {
    "Qwen3-ASR model files were not found. Download "@ + repo
        + " in LM Studio, or place the model and mmproj GGUF files in "@ + models_dir + "."@
}

pub fn describe_missing_model(models_dir: &str, repo: &str) -> (r: String)
    ensures
        r@ == missing_model_message(models_dir@, repo@),
{
    let mut r = String::new();
    push_str(&mut r, "Qwen3-ASR model files were not found. Download ");
    push_str(&mut r, repo);
    push_str(&mut r, " in LM Studio, or place the model and mmproj GGUF files in ");
    push_str(&mut r, models_dir);
    push_str(&mut r, ".");
    r
}

} // verus!
