use zillanote::speakers::{
    cluster_sizes, frame_start_sample, frames_for_samples, large_cluster_count, SpeakerBounds, WindowActivity,
    FRAME_SIZE, FRAME_START, WINDOW_SAMPLES,
};

fn activity() -> WindowActivity {
    WindowActivity {
        frames: vec![
            [true, false, false],
            [true, true, false],
            [false, true, false],
            [false, false, false],
            [true, false, false],
        ],
    }
}

#[test]
fn frames_are_counted_per_speaker_alone_and_together() {
    let window = activity();
    assert_eq!(window.active_frames(0), 3);
    assert_eq!(window.active_frames(1), 2);
    assert_eq!(window.active_frames(2), 0);
    assert_eq!(window.clean_frames(0), 2, "the overlapped frame does not count");
    assert_eq!(window.clean_frames(1), 1);
    assert_eq!(window.speech_frames(), 4);
}

#[test]
fn frames_sit_on_the_models_grid() {
    assert_eq!(frame_start_sample(0), FRAME_START);
    assert_eq!(frame_start_sample(3), FRAME_START + 3 * FRAME_SIZE);
    assert_eq!(frames_for_samples(0), 0);
    assert_eq!(frames_for_samples(FRAME_START + 2 * FRAME_SIZE + 1), 2);
    assert_eq!(frames_for_samples(WINDOW_SAMPLES), 589);
}

#[test]
fn an_exact_count_wins_and_no_bound_is_below_one() {
    assert_eq!(SpeakerBounds::exact(3).range(), (3, 3));
    assert_eq!(SpeakerBounds::exact(0).range(), (1, 1));
    assert_eq!(SpeakerBounds::default().range(), (1, usize::MAX));
    let bounds = SpeakerBounds { num_speakers: None, min_speakers: Some(4), max_speakers: Some(2) };
    assert_eq!(bounds.range(), (4, 4), "a maximum below the minimum is raised to it");
    let bounds = SpeakerBounds { num_speakers: None, min_speakers: Some(0), max_speakers: Some(6) };
    assert_eq!(bounds.range(), (1, 6));
}

#[test]
fn clusters_are_sized_by_label() {
    assert_eq!(cluster_sizes(&[0, 1, 0, 2, 0]), vec![3, 1, 1]);
    assert_eq!(cluster_sizes(&[]), Vec::<usize>::new());
    assert_eq!(cluster_sizes(&[2]), vec![0, 0, 1]);
    assert_eq!(large_cluster_count(&[0, 1, 0, 2, 0, 1], 2), 2);
    assert_eq!(large_cluster_count(&[0, 1, 2], 2), 0);
}

use zillanote::speakers::{choose_cut, cut, cut_counts, large_labels, number_groups};

/// The merges centroid linkage makes on two groups of three: each group first, then the two.
fn two_group_merges() -> Vec<(usize, usize)> {
    vec![(0, 1), (3, 4), (0, 2), (3, 5), (0, 3)]
}

#[test]
fn cut_labels_are_compact_after_the_merges() {
    let merges = two_group_merges();
    let labels = cut(6, &merges, 4);
    assert_eq!(labels, vec![0, 0, 0, 1, 1, 1]);
    assert_eq!(*labels.iter().max().unwrap(), 1);
    assert_eq!(cut(6, &merges, 0), vec![0, 1, 2, 3, 4, 5]);
    assert_eq!(cut(6, &merges, 5), vec![0; 6]);
    assert_eq!(cut(6, &merges, 99), vec![0; 6], "more merges than there are is all of them");
}

#[test]
fn labels_follow_the_first_appearance_of_each_group() {
    // Items 1 and 4 go together first; 0 comes first and keeps label 0.
    assert_eq!(cut(5, &[(4, 1), (3, 2)], 2), vec![0, 1, 2, 2, 1]);
    assert_eq!(number_groups(&[7, 3, 7, 9], 10).0, vec![0, 1, 0, 2]);
}

#[test]
fn large_clusters_are_counted_after_every_merge() {
    let counts = cut_counts(6, &two_group_merges(), 3);
    assert_eq!(counts, vec![0, 0, 0, 1, 2, 1]);
}

#[test]
fn the_threshold_cut_stands_unless_it_breaks_the_bounds() {
    let counts = vec![0, 0, 0, 1, 2, 1];
    assert_eq!(choose_cut(&counts, 4, &SpeakerBounds::default()), (4, 2));
    // Exactly one speaker: the nearest cut with one large cluster.
    assert_eq!(choose_cut(&counts, 4, &SpeakerBounds::exact(1)), (3, 1));
    // At most one: the same.
    let at_most_one = SpeakerBounds { num_speakers: None, min_speakers: None, max_speakers: Some(1) };
    assert_eq!(choose_cut(&counts, 4, &at_most_one), (3, 1));
    // Three asked for, two at best: the closest, nearest the threshold.
    assert_eq!(choose_cut(&counts, 3, &SpeakerBounds::exact(3)), (4, 2));
}

#[test]
fn small_clusters_have_no_large_label() {
    assert_eq!(large_labels(&[0, 0, 1, 2, 2, 2], 2), vec![Some(0), Some(0), None, Some(1), Some(1), Some(1)]);
    assert_eq!(large_labels(&[], 2), Vec::<Option<usize>>::new());
}
