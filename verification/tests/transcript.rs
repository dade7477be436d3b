use zillanote::transcript::{clock, transcript_text, Line};

#[test]
fn lines_carry_the_time_and_the_speaker_when_known() {
    let lines = vec![
        Line { start_second: 75.4f64 as u64, speaker: None, text: "我们开始。".to_string() },
        Line { start_second: 3725.0f64 as u64, speaker: Some("Speaker 2".to_string()), text: "Sounds good.".to_string() },
    ];

    assert_eq!(transcript_text(&lines), "[01:15] 我们开始。\n[1:02:05] Speaker 2: Sounds good.");
}

#[test]
fn the_clock_pads_minutes_and_seconds_and_shows_hours_only_when_there_are_some() {
    assert_eq!(clock(0), "00:00");
    assert_eq!(clock(9), "00:09");
    assert_eq!(clock(600), "10:00");
    assert_eq!(clock(3599), "59:59");
    assert_eq!(clock(3600), "1:00:00");
    assert_eq!(clock(36_061), "10:01:01");
}

#[test]
fn an_empty_transcript_is_no_text() {
    assert_eq!(transcript_text(&[]), "");
}
