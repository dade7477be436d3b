use std::path::PathBuf;
use std::time::Duration;

use zillanote::model::Qwen3AsrFiles;
use zillanote::server::{describe_missing_binary, describe_missing_model, is_our_server, LlamaServerConfig, SERVER_ALIAS};

fn words(list: &[&str]) -> Vec<String> {
    list.iter().map(|word| word.to_string()).collect()
}

#[test]
fn only_servers_we_launched_count_as_ours() {
    let ours = words(&["llama-server", "--port", "8123", "--alias", SERVER_ALIAS]);
    let users = words(&["llama-server", "--port", "8080", "--alias", "my-model"]);

    assert!(is_our_server("llama-server", &ours));
    assert!(!is_our_server("llama-server", &users));
    assert!(!is_our_server("llama-server", &words(&["llama-server"])));
    assert!(!is_our_server("python", &ours));
}

#[test]
fn the_alias_must_follow_the_flag() {
    assert!(!is_our_server("llama-server", &words(&[SERVER_ALIAS, "--alias"])));
    assert!(is_our_server("llama-server.exe", &words(&["--alias", SERVER_ALIAS])));
}

#[test]
fn a_server_is_given_three_minutes_to_load() {
    let files = Qwen3AsrFiles { model: PathBuf::from("/m/model.gguf"), mmproj: PathBuf::from("/m/mmproj.gguf") };
    let config = LlamaServerConfig::new(PathBuf::from("/usr/bin/llama-server"), files.clone());
    assert_eq!(config.startup_timeout, Duration::from_secs(180));
    assert_eq!(config.binary, PathBuf::from("/usr/bin/llama-server"));
    assert_eq!(config.files, files);
    assert_eq!(config.clone().files.model, PathBuf::from("/m/model.gguf"));
}

#[test]
fn what_is_missing_is_said_with_what_to_do() {
    assert_eq!(
        describe_missing_binary(),
        "llama-server was not found. Install llama.cpp (for example `brew install llama.cpp`) or set ZILLANOTE_LLAMA_SERVER to the llama-server binary."
    );
    assert_eq!(
        describe_missing_model("/data/models", "ggml-org/Qwen3-ASR-1.7B-GGUF"),
        "Qwen3-ASR model files were not found. Download ggml-org/Qwen3-ASR-1.7B-GGUF in LM Studio, or place the model and mmproj GGUF files in /data/models."
    );
}
