use zillanote::diarize::{
    anchors, majority_frames, merge_floor, merge_known, relabel, renumber, step_samples, window_count,
};
use zillanote::speakers::{SpeakerBounds, WindowActivity, FRAME_SIZE, WINDOW_SAMPLES};

#[test]
fn a_short_recording_is_one_window_and_a_long_one_takes_hops() {
    assert_eq!(window_count(1, 32_000), 1);
    assert_eq!(window_count(WINDOW_SAMPLES, 32_000), 1);
    assert_eq!(window_count(WINDOW_SAMPLES + 1, 32_000), 2);
    assert_eq!(window_count(WINDOW_SAMPLES + 64_000, 32_000), 3);
    assert_eq!(window_count(WINDOW_SAMPLES + 64_001, 32_000), 4);
}

#[test]
fn the_step_grows_on_long_recordings() {
    // 2 s asked for: 118 frames.
    assert_eq!(step_samples(118, 1_800, 16_000 * 60), 118 * FRAME_SIZE);
    // Two hours at 1800 windows needs a longer hop.
    let total = 16_000 * 3_600 * 2;
    let step = step_samples(118, 1_800, total);
    assert!(step > 118 * FRAME_SIZE);
    assert_eq!(step, 237 * FRAME_SIZE);
    assert!(window_count(total, step) <= 1_800);
    // Never more than a window's worth of frames, never less than a frame.
    assert_eq!(step_samples(10_000, 1_800, 1), 589 * FRAME_SIZE);
    assert_eq!(step_samples(0, 1_800, 1), FRAME_SIZE);
}

#[test]
fn clustering_is_anchored_on_clean_speech_or_on_everything() {
    assert_eq!(anchors(&[false, true, true, false]), vec![1, 2]);
    assert_eq!(anchors(&[false, false]), vec![0, 1]);
    assert!(anchors(&[]).is_empty());
}

#[test]
fn known_voices_merge_clusters_but_not_below_the_floor() {
    // Clusters 0 and 2 sound like voice 0, 1 and 3 like voice 1.
    let best = [Some(0), Some(1), Some(0), Some(1), None];
    assert_eq!(merge_known(&best, 2, 1), (vec![0, 1, 0, 1, 4], 3));
    // With four speakers expected only one merge may happen.
    assert_eq!(merge_known(&best, 2, 4), (vec![0, 1, 0, 3, 4], 4));
    // A voice nobody matched changes nothing.
    assert_eq!(merge_known(&[None, None], 3, 1), (vec![0, 1], 2));
    assert_eq!(merge_floor(&SpeakerBounds::exact(3)), 3);
    assert_eq!(merge_floor(&SpeakerBounds { num_speakers: None, min_speakers: Some(2), max_speakers: None }), 2);
    assert_eq!(merge_floor(&SpeakerBounds::default()), 1);
}

#[test]
fn labels_are_numbered_again_after_a_merge() {
    let remap = [0, 1, 0, 1, 4];
    assert_eq!(relabel(&[2, 4, 1, 0, 3], &remap, 3), vec![0, 1, 2, 0, 2]);
    assert_eq!(relabel(&[2, 4, 1], &[0, 1, 2, 3, 4], 5), vec![2, 4, 1], "nothing merged, nothing changes");
}

#[test]
fn speakers_are_numbered_as_they_are_first_heard() {
    let (segments, speakers) = renumber(&[2, 1, 2, 0], &[0, 1, 2, 3], 4);
    assert_eq!(segments, vec![0, 1, 0, 2]);
    assert_eq!(speakers, vec![2, 1, 0, 0]);
}

#[test]
fn a_speaker_talks_where_half_the_windows_say_so() {
    // Two windows of three frames, the second starting one frame later.
    let acts = vec![
        WindowActivity { frames: vec![[true, false, false], [true, false, false], [false, true, false]] },
        WindowActivity { frames: vec![[false, false, false], [true, false, false], [true, false, false]] },
    ];
    // One embedding per window and local speaker 0, both speaker 0; local speaker 1 of the
    // first window is speaker 1.
    let items = [(0, 0), (1, 0), (0, 1)];
    let labels = [0, 0, 1];
    let rows = majority_frames(&acts, &items, &labels, FRAME_SIZE, 5, 2);
    assert_eq!(rows[0], vec![true, true, true, true, false]);
    assert_eq!(rows[1], vec![false, false, true, false, false]);
}
