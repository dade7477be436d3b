use zillanote::chunker::Chunk;
use zillanote::turns::{pieces, speaker_runs, split_runs, Piece};

#[test]
fn steps_become_runs_of_one_speaker() {
    let timeline = [None, Some(0), Some(0), None, Some(1), Some(1), Some(0)];
    assert_eq!(speaker_runs(&timeline, 0, 7), vec![(0, 0, 4), (1, 4, 6), (0, 6, 7)]);
    assert_eq!(speaker_runs(&timeline, 2, 5), vec![(0, 2, 4), (1, 4, 5)]);
    assert!(speaker_runs(&[None, None], 0, 2).is_empty());
}

#[test]
fn a_word_thrown_in_joins_the_speaker_around_it() {
    // Speaker 0 for 150 steps, speaker 1 for 20, speaker 0 for 230: the short run joins
    // the one before it, and the two of speaker 0 become one.
    let mut timeline = vec![Some(0); 150];
    timeline.extend(vec![Some(1); 20]);
    timeline.extend(vec![Some(0); 230]);
    assert_eq!(split_runs(&timeline, 0, 400, 50), vec![(0, 0, 400)]);
}

#[test]
fn a_real_change_of_speaker_stays() {
    let mut timeline = vec![Some(0); 200];
    timeline.extend(vec![Some(1); 200]);
    assert_eq!(split_runs(&timeline, 0, 400, 50), vec![(0, 0, 200), (1, 200, 400)]);
}

#[test]
fn a_short_first_run_joins_the_one_after_it() {
    let mut timeline = vec![Some(2); 10];
    timeline.extend(vec![Some(0); 100]);
    assert_eq!(split_runs(&timeline, 0, 110, 50), vec![(0, 0, 110)]);
}

#[test]
fn the_shortest_run_goes_first() {
    // 60, 30, 40, 60 steps of 0, 1, 0, 1: the 30 joins the 60 before it, which then joins
    // the 40 of the same speaker.
    let mut timeline = vec![Some(0); 60];
    timeline.extend(vec![Some(1); 30]);
    timeline.extend(vec![Some(0); 40]);
    timeline.extend(vec![Some(1); 60]);
    assert_eq!(split_runs(&timeline, 0, 190, 50), vec![(0, 0, 130), (1, 130, 190)]);
}

#[test]
fn pieces_follow_the_runs_and_the_cuts() {
    let chunk = Chunk { start: 16_000, end: 144_000 };
    assert_eq!(
        pieces(chunk, &[0, 1], &[81_600]),
        vec![
            Piece { start: 16_000, end: 81_600, speaker: Some(0) },
            Piece { start: 81_600, end: 144_000, speaker: Some(1) },
        ]
    );
    assert_eq!(pieces(chunk, &[], &[]), vec![Piece { start: 16_000, end: 144_000, speaker: None }]);
}
