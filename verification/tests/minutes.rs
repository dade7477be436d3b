use zillanote::minutes::{
    call_count, chat_url, is_llm_configured, is_loopback, minutes_request, notes_source, part_request, part_size,
    split_at_lines, strip_reasoning, transcript_source, LlmConfig, next_call, MinutesCall,
};

#[test]
fn a_short_transcript_is_one_part_and_a_long_one_splits_between_lines() {
    assert_eq!(split_at_lines("one\ntwo", 100), vec!["one\ntwo\n"]);

    let text = (0..10).map(|i| format!("[00:0{i}] 这是第{i}句话。")).collect::<Vec<_>>();
    let parts = split_at_lines(&text.join("\n"), 40);

    assert!(parts.len() > 1);
    assert!(parts.iter().all(|part| part.chars().count() <= 40));
    assert_eq!(parts.concat().lines().count(), 10);
    assert!(parts.iter().all(|part| part.starts_with('[')));
}

#[test]
fn thinking_is_removed_from_the_answer() {
    assert_eq!(strip_reasoning("<think>\nhmm\n</think>\n\n## Summary\nDone."), "## Summary\nDone.");
    assert_eq!(strip_reasoning("## Summary"), "## Summary");
    assert_eq!(strip_reasoning("Answer<think>cut off"), "Answer");
}

#[test]
fn only_this_machine_counts_as_loopback() {
    assert!(is_loopback("http://localhost:1234/v1/chat/completions"));
    assert!(is_loopback("http://127.0.0.1:8080/v1"));
    assert!(!is_loopback("https://api.openai.com/v1"));
}

// Of our own.

fn config(base_url: &str, model: &str, max_chars_per_call: usize) -> LlmConfig {
    LlmConfig {
        base_url: base_url.to_string(),
        api_key: String::new(),
        model: model.to_string(),
        max_chars_per_call,
    }
}

#[test]
fn minutes_need_an_endpoint_and_a_model() {
    assert!(!is_llm_configured(&config("", "", 24_000)));
    assert!(!is_llm_configured(&config("http://localhost:1234/v1", "  ", 24_000)));
    assert!(is_llm_configured(&config("http://localhost:1234/v1", "qwen", 24_000)));
}

#[test]
fn parts_are_never_smaller_than_the_floor() {
    assert_eq!(part_size(&config("u", "m", 100)), 2_000);
    assert_eq!(part_size(&config("u", "m", 24_000)), 24_000);
}

#[test]
fn a_long_transcript_takes_a_call_per_part_and_one_more() {
    assert_eq!(call_count(1), 1);
    assert_eq!(call_count(3), 4);
}

#[test]
fn a_line_longer_than_the_limit_is_a_part_of_its_own() {
    let parts = split_at_lines("short\nthis line is far too long for the limit\nend", 10);
    assert_eq!(parts, vec!["short\n", "this line is far too long for the limit\n", "end\n"]);
}

#[test]
fn every_line_of_the_transcript_is_kept_in_order() {
    let text = "[00:00] a\n[00:01] bb\n[00:02] ccc\n[00:03] dddd";
    let parts = split_at_lines(text, 25);
    assert_eq!(parts.concat(), format!("{text}\n"));
}

#[test]
fn only_white_space_at_the_very_end_is_left_out() {
    let parts = split_at_lines("a\nbb\n\n  \n", 3);
    assert_eq!(parts, vec!["a\n", "bb\n", "\n"]);
}

#[test]
fn the_requests_say_what_is_asked() {
    assert!(part_request(0, 3, "x").starts_with("This is part 1 of 3 of a long transcript."));
    assert!(part_request(0, 3, "x").ends_with("Transcript part:\n\nx"));
    assert_eq!(transcript_source("t"), "Transcript:\n\nt");
    assert_eq!(
        notes_source(&vec!["a".to_string(), "b".to_string()]),
        "Notes taken on the consecutive parts of the transcript:\n\na\n\n---\n\nb"
    );
    assert_eq!(minutes_request("P", "T", "S"), "P\n\nMeeting title: T\n\nS");
}

#[test]
fn the_chat_endpoint_hangs_under_the_root() {
    assert_eq!(chat_url(" http://localhost:1234/v1// "), "http://localhost:1234/v1/chat/completions");
}

#[test]
fn unclosed_thinking_at_the_start_leaves_nothing() {
    assert_eq!(strip_reasoning("<think>still going"), "");
}

#[test]
fn every_part_ends_a_line_and_is_as_full_as_it_can_be() {
    let text = (0..12).map(|i| format!("[00:{i:02}] line number {i}")).collect::<Vec<_>>().join("\n");
    let parts = split_at_lines(&text, 60);
    assert!(parts.len() > 1);
    for part in &parts {
        assert!(part.ends_with('\n'));
    }
    for pair in parts.windows(2) {
        let next_line = pair[1].split('\n').next().unwrap();
        assert!(pair[0].chars().count() + next_line.chars().count() + 1 > 60);
    }
}

#[test]
fn a_long_transcript_gets_notes_on_each_part_then_the_minutes() {
    let parts = vec!["a\n".to_string(), "b\n".to_string()];
    let mut notes: Vec<String> = Vec::new();
    match next_call(&parts, &notes, "Write minutes.", "Budget") {
        MinutesCall::Part { index, request, done, total } => {
            assert_eq!((index, done, total), (0, 0, 3));
            assert_eq!(request, part_request(0, 2, "a\n"));
        }
        MinutesCall::Minutes { .. } => panic!("the first part comes first"),
    }
    notes.push("notes a".to_string());
    assert!(matches!(next_call(&parts, &notes, "Write minutes.", "Budget"), MinutesCall::Part { index: 1, done: 1, .. }));
    notes.push("notes b".to_string());
    match next_call(&parts, &notes, "Write minutes.", "Budget") {
        MinutesCall::Minutes { request, done, total } => {
            assert_eq!((done, total), (2, 3));
            assert_eq!(request, minutes_request("Write minutes.", "Budget", &notes_source(&notes)));
        }
        MinutesCall::Part { .. } => panic!("all parts have notes"),
    }
}

#[test]
fn a_short_transcript_goes_straight_to_the_minutes() {
    let parts = vec!["one\n".to_string()];
    match next_call(&parts, &Vec::new(), "Write minutes.", "Standup") {
        MinutesCall::Minutes { request, done, total } => {
            assert_eq!((done, total), (0, 1));
            assert_eq!(request, minutes_request("Write minutes.", "Standup", &transcript_source("one\n")));
        }
        MinutesCall::Part { .. } => panic!("one part needs no notes"),
    }
}
