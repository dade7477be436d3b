use zillanote::email::EmailSettings;
use zillanote::store::{
    check_meeting_id, hands_to_store, kept_in_file, llm_config, meeting_id, readiness, secrets_to_move, shown_secret,
    Settings, Status, INTERRUPTED,
};
use zillanote::templates::{DEFAULT_SYSTEM_PROMPT, DEFAULT_TEMPLATE};

#[test]
fn ids_tried_for_one_start_time_never_collide() {
    let base = "2026-09-20-093000";
    assert_eq!(meeting_id(base, 0), base);
    assert_eq!(meeting_id(base, 1), "2026-09-20-093000-1");
    assert_eq!(meeting_id(base, 12), "2026-09-20-093000-12");
    let ids = (0..30).map(|n| meeting_id(base, n)).collect::<Vec<_>>();
    for (i, a) in ids.iter().enumerate() {
        for b in &ids[i + 1..] {
            assert_ne!(a, b);
        }
    }
}

#[test]
fn every_id_the_app_makes_can_be_deleted() {
    for n in [0, 1, 9, 10, 123] {
        assert_eq!(check_meeting_id(&meeting_id("2026-09-20-093000", n)), Ok(()));
    }
}

#[test]
fn only_meeting_ids_may_be_deleted() {
    assert_eq!(check_meeting_id("../meetings"), Err("Not a meeting id.".to_string()));
    assert!(check_meeting_id("").is_err());
    assert!(check_meeting_id("a/b").is_err());
    assert!(check_meeting_id("a\\b").is_err());
    assert!(check_meeting_id("..").is_err());
    assert!(check_meeting_id("2026-09-20-093000").is_ok());
    assert!(check_meeting_id("v1.2").is_ok());
}

#[test]
fn unfinished_work_fails_on_the_next_start_and_finished_work_stays() {
    assert_eq!(Status::Recording.after_restart(), Status::Failed);
    assert_eq!(Status::Transcribing.after_restart(), Status::Failed);
    assert_eq!(Status::Summarizing.after_restart(), Status::Failed);
    assert_eq!(Status::Done.after_restart(), Status::Done);
    assert_eq!(Status::Failed.after_restart(), Status::Failed);
    assert!(Status::Recording.is_unfinished());
    assert!(!Status::Done.is_unfinished());
    assert!(INTERRUPTED.contains("Process it again"));
}

#[test]
fn settings_start_from_lm_studio_and_the_default_prompt() {
    let settings = Settings::default();
    assert_eq!(settings.llm_base_url, "http://localhost:1234/v1");
    assert_eq!(settings.system_prompt, DEFAULT_SYSTEM_PROMPT);
    assert_eq!(settings.default_template, DEFAULT_TEMPLATE);
    assert_eq!(settings.max_chars_per_call, 24_000);
    assert!(settings.record_system_audio);
    assert!(settings.llm_api_key.is_empty() && settings.email.password.is_empty());
}

#[test]
fn a_copy_of_the_settings_is_the_same() {
    let mut settings = Settings::default();
    settings.vocabulary = vec!["ZillaNote".to_string(), "Qwen".to_string()];
    settings.email.to = "hui@example.com".to_string();
    let copy = settings.clone();
    assert_eq!(copy.vocabulary, settings.vocabulary);
    assert_eq!(copy.email.to, "hui@example.com");
    assert_eq!(copy.llm_base_url, settings.llm_base_url);
}

#[test]
fn the_language_model_settings_carry_over() {
    let mut settings = Settings::default();
    settings.llm_model = "qwen/qwen3.8-27b".to_string();
    settings.llm_api_key = "sk-secret".to_string();
    let config = llm_config(&settings);
    assert_eq!(config.base_url, "http://localhost:1234/v1");
    assert_eq!(config.model, "qwen/qwen3.8-27b");
    assert_eq!(config.api_key, "sk-secret");
    assert_eq!(config.max_chars_per_call, 24_000);
}

#[test]
fn a_secret_in_the_file_counts_and_otherwise_the_store_answers() {
    assert_eq!(shown_secret("sk-file", Some(Ok(Some("sk-kept".to_string())))), "sk-file");
    assert_eq!(shown_secret("", Some(Ok(Some("sk-kept".to_string())))), "sk-kept");
    assert_eq!(shown_secret("", Some(Ok(None))), "");
    assert_eq!(shown_secret("", Some(Err("denied".to_string()))), "");
    assert_eq!(shown_secret("", None), "");
}

#[test]
fn a_keychain_that_refuses_never_costs_the_secret_in_the_decisions() {
    let kept = kept_in_file("sk-secret", &Err("locked".to_string()));
    assert_eq!(kept, "sk-secret");
    assert_eq!(shown_secret(&kept, Some(Err("locked".to_string()))), "sk-secret");
    assert_eq!(kept_in_file("sk-secret", &Ok(())), "");
}

#[test]
fn an_unreadable_keychain_is_never_told_to_forget() {
    assert!(!hands_to_store("", false));
    assert!(hands_to_store("", true), "clearing a secret clears it for good");
    assert!(hands_to_store("sk-secret", false));
}

#[test]
fn secrets_in_the_file_are_moved_only_where_there_is_a_store() {
    let mut settings = Settings::default();
    assert!(!secrets_to_move(&settings, true));
    settings.email.password = "app-password".to_string();
    assert!(secrets_to_move(&settings, true));
    assert!(!secrets_to_move(&settings, false));
}

#[test]
fn readiness_reports_what_was_found_and_what_is_configured() {
    let mut settings = Settings::default();
    let ready = readiness(None, "/data/models/qwen3-asr/qwen3-asr-1.7b".to_string(), None, &settings);
    assert!(!ready.model_found && !ready.server_found);
    assert!(!ready.llm_configured, "no model chosen yet");
    assert!(!ready.email_configured);

    settings.llm_model = "qwen".to_string();
    settings.email = EmailSettings {
        to: "hui@example.com".to_string(),
        from: "me@qq.com".to_string(),
        password: "code".to_string(),
        server: String::new(),
    };
    let ready = readiness(
        Some("/models".to_string()),
        "/data".to_string(),
        Some("/usr/bin/llama-server".to_string()),
        &settings,
    );
    assert!(ready.model_found && ready.server_found && ready.llm_configured && ready.email_configured);
    assert_eq!(ready.server_location.as_deref(), Some("/usr/bin/llama-server"));
    assert_eq!(ready.model_location.as_deref(), Some("/models"));
}
