use zillanote::pipeline::{Reply, Tally};

#[test]
fn heard_chunks_are_kept_trimmed_with_their_bounds() {
    let mut tally = Tally::new();
    tally.record(0, 16000, Reply::Text("  Good morning.\n".to_string()));
    tally.record(16000, 32000, Reply::Text(" \t ".to_string()));
    tally.record(32000, 48000, Reply::Text("Let's start.".to_string()));
    assert_eq!(tally.heard.len(), 2);
    assert_eq!((tally.heard[0].start, tally.heard[0].end), (0, 16000));
    assert_eq!(tally.heard[0].text, "Good morning.");
    assert_eq!((tally.heard[1].start, tally.heard[1].end), (32000, 48000));
    assert_eq!(tally.heard[1].text, "Let's start.");
    assert_eq!(tally.failures, 0);
    assert!(tally.outcome().is_ok());
}

#[test]
fn a_few_failed_chunks_leave_gaps_but_the_transcript_stands() {
    let mut tally = Tally::new();
    tally.record(0, 10, Reply::Failed("timeout".to_string()));
    tally.record(10, 20, Reply::Text("still here".to_string()));
    assert_eq!(tally.failures, 1);
    assert_eq!(tally.last_error, "timeout");
    assert_eq!(tally.heard.len(), 1);
    assert_eq!(tally.outcome(), Ok(()));
}

#[test]
fn every_chunk_failing_fails_with_the_last_reason() {
    let mut tally = Tally::new();
    tally.record(0, 10, Reply::Failed("first".to_string()));
    tally.record(10, 20, Reply::Text("   ".to_string()));
    tally.record(20, 30, Reply::Failed("connection refused".to_string()));
    assert_eq!(tally.failures, 2);
    assert_eq!(tally.outcome(), Err("Transcription failed: connection refused".to_string()));
}

#[test]
fn only_silence_back_is_no_transcript() {
    let mut tally = Tally::new();
    tally.record(0, 10, Reply::Text(String::new()));
    tally.record(10, 20, Reply::Text("\n".to_string()));
    assert_eq!(tally.outcome(), Err("No speech was recognized in the recording.".to_string()));
}
