use zillanote::asr_text::{split_clauses, split_units, strip_asr_prefix};

#[test]
fn strips_the_leaked_language_preamble() {
    assert_eq!(strip_asr_prefix("language Chinese<asr_text>在我视频看这个节目。"), "在我视频看这个节目。");
    assert_eq!(strip_asr_prefix("language English<asr_text> Hello there. "), "Hello there.");
}

#[test]
fn strips_every_preamble_in_a_code_switched_chunk() {
    assert_eq!(
        strip_asr_prefix("language English<asr_text>Let's start.language Chinese<asr_text>我们开始吧。"),
        "Let's start. 我们开始吧。"
    );
}

#[test]
fn keeps_text_that_only_looks_like_a_preamble() {
    assert_eq!(strip_asr_prefix("We should pick a language first."), "We should pick a language first.");
    assert_eq!(strip_asr_prefix("plain text"), "plain text");
    assert_eq!(strip_asr_prefix("<asr_text>tag only"), "tag only");
}

// Of our own: the text side of spreading a chunk's time over its words.

#[test]
fn units_are_english_words_split_on_spaces() {
    assert_eq!(split_units("Ship the release today"), ["Ship", "the", "release", "today"]);
}

#[test]
fn units_cut_chinese_into_clauses_at_punctuation() {
    assert_eq!(
        split_units("我猜你最关心两个问题：这阵风能不能过去？好的。"),
        ["我猜你最关心两个问题：", "这阵风能不能过去？", "好的。"]
    );
}

#[test]
fn units_keep_english_words_and_chinese_clauses_apart() {
    assert_eq!(split_units("我们用 llama server 来跑，效果不错。"), ["我们用", "llama", "server", "来跑，", "效果不错。"]);
}

#[test]
fn unpunctuated_chinese_units_are_bounded() {
    let text = "一".repeat(40);
    let units = split_units(&text);
    assert_eq!(units.len(), 3);
    assert!(units.iter().all(|unit| unit.chars().count() <= 16));
    assert_eq!(units.concat(), text);
}

#[test]
fn repeated_punctuation_stays_with_its_clause_unit() {
    assert_eq!(split_units("真的吗？！好。"), ["真的吗？！", "好。"]);
    assert_eq!(split_clauses("真的吗？！好。"), ["真的吗？！", "好。"]);
}

#[test]
fn blank_text_has_no_units() {
    assert!(split_units("   ").is_empty());
}

use zillanote::asr::{endpoint, try_again, vocabulary_prompt, Error};

#[test]
fn a_busy_or_unreachable_recognizer_is_worth_another_try_and_a_refusal_is_not() {
    assert!(Error::Request("timed out".into()).is_passing());
    assert!(Error::Server { status: 503, body: String::new() }.is_passing());
    assert!(Error::Server { status: 429, body: String::new() }.is_passing());
    assert!(Error::Server { status: 408, body: String::new() }.is_passing());
    assert!(!Error::Server { status: 401, body: String::new() }.is_passing());
    assert!(!Error::Audio("x".into()).is_passing());
    assert!(try_again(&Error::Request("x".into()), 1));
    assert!(!try_again(&Error::Request("x".into()), 0));
}

#[test]
fn errors_say_what_went_wrong() {
    assert_eq!(
        Error::Server { status: 401, body: "bad key".into() }.message(),
        "the speech recognizer answered 401: bad key"
    );
    assert_eq!(Error::ServerStart("no port".into()).message(), "could not start llama-server: no port");
}

#[test]
fn requests_go_to_the_transcription_endpoint() {
    assert_eq!(endpoint(" http://127.0.0.1:8080/v1/ "), "http://127.0.0.1:8080/v1/audio/transcriptions");
}

#[test]
fn the_vocabulary_becomes_one_prompt() {
    let words = vec![" ZillaNote ".to_string(), "".to_string(), "Qwen3-ASR".to_string(), "  ".to_string()];
    assert_eq!(vocabulary_prompt(&words).as_deref(), Some("ZillaNote, Qwen3-ASR"));
    assert_eq!(vocabulary_prompt(&["  ".to_string()]), None);
    assert_eq!(vocabulary_prompt(&[]), None);
}

#[test]
fn cleaned_text_has_no_tag_single_spaces_and_cleans_to_itself() {
    for raw in [
        "language English<asr_text>  Hello   world ",
        "<asr<asr_text>_text> x",
        "language Chinese<asr_text>你好 language English<asr_text>hi\tthere",
        "  plain\n text  ",
    ] {
        let once = strip_asr_prefix(raw);
        assert!(!once.contains("<asr_text>"), "{raw}");
        assert_eq!(once, once.split_whitespace().collect::<Vec<_>>().join(" "));
        assert_eq!(strip_asr_prefix(&once), once);
    }
    assert_eq!(strip_asr_prefix("  plain\n text  "), "plain text");
}
