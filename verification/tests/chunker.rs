use zillanote::chunker::{frame_chunks, Chunk, ChunkFrames};

/// 30 ms frames at 16 kHz, as the recording is measured.
const FRAME: usize = 480;

fn frames() -> ChunkFrames {
    ChunkFrames { min_pause: 5, max_frames: 833, long_pause: 67, min_speech: 10, padding: 1_600 }
}

/// `(frames, is_speech)` pieces.
fn speech(pieces: &[(usize, bool)]) -> Vec<bool> {
    pieces.iter().flat_map(|(count, is_speech)| std::iter::repeat(*is_speech).take(*count)).collect()
}

fn chunks(pieces: &[(usize, bool)]) -> Vec<Chunk> {
    let speech = speech(pieces);
    frame_chunks(&speech, FRAME, speech.len() * FRAME, frames())
}

#[test]
fn short_pauses_stay_inside_one_chunk_of_frames() {
    // 1 s quiet, 3 s speech, 0.42 s pause, 4 s speech, 1 s quiet.
    let found = chunks(&[(33, false), (100, true), (14, false), (133, true), (33, false)]);
    assert_eq!(found, [Chunk { start: 33 * FRAME - 1_600, end: 280 * FRAME + 1_600 }]);
}

#[test]
fn a_dip_shorter_than_a_pause_is_part_of_the_word() {
    let found = chunks(&[(50, true), (3, false), (50, true)]);
    assert_eq!(found, [Chunk { start: 0, end: 103 * FRAME }]);
}

#[test]
fn a_long_silence_is_left_out_of_the_frames() {
    let found = chunks(&[(67, true), (167, false), (67, true)]);
    assert_eq!(found.len(), 2);
    assert_eq!(found[0], Chunk { start: 0, end: 67 * FRAME + 1_600 });
    assert_eq!(found[1], Chunk { start: 234 * FRAME - 1_600, end: 301 * FRAME });
}

#[test]
fn a_chunk_closes_at_a_pause_before_it_gets_too_long() {
    // Three 10 s utterances with half a second between: the third does not fit in 25 s.
    let found = chunks(&[(333, true), (17, false), (333, true), (17, false), (333, true)]);
    assert_eq!(found.len(), 2);
    assert_eq!(found[0].end, 683 * FRAME + 1_600);
    assert_eq!(found[1].start, 700 * FRAME - 1_600);
}

#[test]
fn speech_without_a_pause_is_cut_to_size() {
    let found = chunks(&[(2_000, true)]);
    assert_eq!(found.len(), 3);
    assert!(found.iter().all(|chunk| chunk.end - chunk.start <= 833 * FRAME + 2 * 1_600));
    assert_eq!(found[1].start, 833 * FRAME - 1_600);
    assert_eq!(found[2].end, 2_000 * FRAME);
}

#[test]
fn silence_and_clicks_give_no_chunks() {
    assert!(chunks(&[(100, false), (3, true), (100, false)]).is_empty());
    assert!(chunks(&[]).is_empty());
}

#[test]
fn chunks_stay_inside_a_recording_that_ends_mid_frame() {
    let speech = vec![true; 40];
    let found = frame_chunks(&speech, FRAME, 39 * FRAME + 7, frames());
    assert_eq!(found, [Chunk { start: 0, end: 39 * FRAME + 7 }]);
}

#[test]
fn a_minute_of_unbroken_speech_gives_three_chunks_in_order() {
    let found = chunks(&[(2_000, true)]);
    assert_eq!(found.len(), 3);
    for pair in found.windows(2) {
        assert!(pair[0].start <= pair[1].start);
    }
    for chunk in &found {
        assert!(chunk.start < chunk.end && chunk.end <= 2_000 * FRAME);
        assert!(chunk.end - chunk.start <= 833 * FRAME + 2 * 1_600);
    }
}
