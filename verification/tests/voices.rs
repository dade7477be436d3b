use zillanote::voices::{default_label, known_speakers, name_speaker, unname_speaker, Speaker, Voice, MAX_EXAMPLES};

#[test]
fn speakers_are_numbered_from_one() {
    assert_eq!(default_label(0), "Speaker 1");
    assert_eq!(default_label(1), "Speaker 2");
    assert_eq!(default_label(9), "Speaker 10");
}

fn bits(values: &[f32]) -> Vec<u32> {
    values.iter().map(|value| value.to_bits()).collect()
}

fn speaker(index: usize, centroid: &[f32]) -> Speaker {
    Speaker { index, label: default_label(index), voice_id: None, centroid: bits(centroid) }
}

fn ids() -> impl FnMut() -> String {
    let mut next = 0;
    move || {
        next += 1;
        format!("voice-{next}")
    }
}

#[test]
fn naming_a_speaker_remembers_the_voice_under_that_name() {
    let mut voices: Vec<Voice> = Vec::new();
    let mut hui = speaker(0, &[1.0, 0.0]);

    name_speaker(&mut voices, &mut hui, "  Hui ", ids());

    assert_eq!((hui.label.as_str(), hui.voice_id.as_deref()), ("Hui", Some("voice-1")));
    assert_eq!(voices.len(), 1);
    assert_eq!(voices[0].examples, [bits(&[1.0, 0.0])]);
    assert_eq!(known_speakers(&voices).len(), 1);
}

#[test]
fn the_same_name_in_another_meeting_adds_an_example_and_old_ones_make_room() {
    let mut voices: Vec<Voice> = Vec::new();
    for meeting in 0..7 {
        let mut hui = speaker(0, &[meeting as f32, 1.0]);
        name_speaker(&mut voices, &mut hui, if meeting % 2 == 0 { "Hui" } else { "hui" }, ids());
    }

    assert_eq!(voices.len(), 1);
    assert_eq!(voices[0].examples.len(), MAX_EXAMPLES);
    assert_eq!(voices[0].examples[0], bits(&[2.0, 1.0]));
}

#[test]
fn a_corrected_name_takes_the_example_back() {
    let mut voices: Vec<Voice> = Vec::new();
    let mut speaker = speaker(1, &[0.0, 1.0]);
    let mut next_id = ids();

    name_speaker(&mut voices, &mut speaker, "Alice", &mut next_id);
    name_speaker(&mut voices, &mut speaker, "Bob", &mut next_id);

    assert_eq!(voices.iter().map(|voice| voice.name.as_str()).collect::<Vec<_>>(), ["Bob"]);
    assert_eq!(speaker.label, "Bob");

    unname_speaker(&mut voices, &mut speaker);

    assert!(voices.is_empty());
    assert_eq!((speaker.label.as_str(), speaker.voice_id), ("Speaker 2", None));
}

#[test]
fn a_voice_named_in_two_meetings_survives_one_correction() {
    let mut voices: Vec<Voice> = Vec::new();
    let mut first = speaker(0, &[1.0, 0.0]);
    let mut second = speaker(0, &[0.9, 0.1]);
    let mut next_id = ids();
    name_speaker(&mut voices, &mut first, "Hui", &mut next_id);
    name_speaker(&mut voices, &mut second, "Hui", &mut next_id);

    unname_speaker(&mut voices, &mut second);

    assert_eq!(voices[0].examples, [bits(&[1.0, 0.0])]);
}

#[test]
fn a_speaker_named_without_a_voice_makes_a_voice_without_examples() {
    let mut voices: Vec<Voice> = Vec::new();
    let mut silent = speaker(2, &[]);
    name_speaker(&mut voices, &mut silent, "Carol", ids());
    assert_eq!(voices.len(), 1);
    assert!(voices[0].examples.is_empty());
    assert!(known_speakers(&voices).is_empty());
}

#[test]
fn every_example_is_told_under_its_voice() {
    let mut voices: Vec<Voice> = Vec::new();
    let mut next_id = ids();
    let mut a = speaker(0, &[1.0]);
    let mut b = speaker(1, &[2.0]);
    let mut c = speaker(0, &[3.0]);
    name_speaker(&mut voices, &mut a, "Ann", &mut next_id);
    name_speaker(&mut voices, &mut b, "Ben", &mut next_id);
    name_speaker(&mut voices, &mut c, "ann", &mut next_id);
    let known = known_speakers(&voices)
        .into_iter()
        .map(|known| (known.id, known.embedding))
        .collect::<Vec<_>>();
    assert_eq!(
        known,
        [
            ("voice-1".to_string(), bits(&[1.0])),
            ("voice-1".to_string(), bits(&[3.0])),
            ("voice-2".to_string(), bits(&[2.0])),
        ]
    );
}
