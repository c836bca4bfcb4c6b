use ocarina_listener::notes::{
    can_interpret, interpret_note, note_name, register_pitch, silence_string,
};
use std::collections::VecDeque;

fn batch(values: &[i16]) -> Vec<i16> {
    values.to_vec()
}

fn repeated(value: i16, n: usize) -> Vec<i16> {
    vec![value; n]
}

fn notekeeper(q: &VecDeque<String>) -> Vec<String> {
    q.iter().cloned().collect()
}

#[test]
fn note_names_follow_pitch_class_and_octave() {
    assert_eq!(note_name(0), "C4");
    assert_eq!(note_name(9), "A4");
    assert_eq!(note_name(13), "C#5");
    assert_eq!(note_name(-12), "C3");
    assert_eq!(note_name(-24), "C2");
    assert_eq!(note_name(23), "B5");
    assert_eq!(note_name(30), "F#6");
}

#[test]
fn notes_below_c4_are_in_octave_3() {
    assert_eq!(note_name(-1), "B3");
    assert_eq!(note_name(-3), "A3");
    assert_eq!(note_name(-10), "D3");
    assert_eq!(note_name(-13), "B2");
    assert_eq!(note_name(-48), "C0");
    assert_eq!(note_name(-49), "B-1");
}

#[test]
fn note_name_extremes() {
    assert_eq!(note_name(i16::MAX), "G2734");
    assert_eq!(note_name(i16::MIN), "E-2727");
    assert_eq!(silence_string(), "--");
}

#[test]
fn short_backlog_is_not_interpreted() {
    let mut backlog = repeated(9, 29);
    let mut played = VecDeque::new();
    let mut last = String::from("--");
    interpret_note(&mut backlog, &mut played, &mut last);
    assert_eq!(backlog.len(), 29);
    assert!(played.is_empty());
    assert_eq!(last, "--");
}

#[test]
fn full_batch_is_heard_as_its_note() {
    let mut backlog = repeated(9, 30);
    let mut played = VecDeque::new();
    let mut last = String::from("--");
    interpret_note(&mut backlog, &mut played, &mut last);
    assert!(backlog.is_empty());
    assert_eq!(last, "A4");
    assert_eq!(notekeeper(&played), vec!["A4".to_string()]);
}

#[test]
fn held_note_is_added_once() {
    let mut played = VecDeque::new();
    let mut last = String::from("--");
    let mut backlog = repeated(2, 30);
    interpret_note(&mut backlog, &mut played, &mut last);
    let mut backlog = repeated(2, 30);
    interpret_note(&mut backlog, &mut played, &mut last);
    assert_eq!(notekeeper(&played), vec!["D4".to_string()]);
    assert_eq!(last, "D4");
}

#[test]
fn note_after_silence_is_added_again() {
    let mut played = VecDeque::new();
    let mut last = String::from("--");
    let mut backlog = repeated(2, 30);
    interpret_note(&mut backlog, &mut played, &mut last);
    let mut backlog = repeated(i16::MIN, 30);
    interpret_note(&mut backlog, &mut played, &mut last);
    assert_eq!(last, "--");
    assert_eq!(notekeeper(&played), vec!["D4".to_string()]);
    let mut backlog = repeated(2, 30);
    interpret_note(&mut backlog, &mut played, &mut last);
    assert_eq!(notekeeper(&played), vec!["D4".to_string(), "D4".to_string()]);
}

#[test]
fn mostly_silent_batch_is_silence() {
    // 15 sounded samples are not enough; 16 are.
    let mut values = repeated(4, 15);
    values.extend(repeated(i16::MIN, 15));
    let mut backlog = batch(&values);
    let mut played = VecDeque::new();
    let mut last = String::from("E4");
    interpret_note(&mut backlog, &mut played, &mut last);
    assert!(backlog.is_empty());
    assert_eq!(last, "--");
    assert!(played.is_empty());

    let mut values = repeated(4, 16);
    values.extend(repeated(i16::MIN, 14));
    let mut backlog = batch(&values);
    interpret_note(&mut backlog, &mut played, &mut last);
    assert_eq!(last, "E4");
    assert_eq!(notekeeper(&played), vec!["E4".to_string()]);
}

#[test]
fn ties_go_to_the_higher_pitch_class_and_octave() {
    // Eight C4, eight E5 and fourteen silent samples: C and E tie as pitch
    // classes, octaves 4 and 5 tie: the larger of each wins.
    let mut values = repeated(0, 8);
    values.extend(repeated(16, 8));
    values.extend(repeated(i16::MIN, 14));
    let mut backlog = batch(&values);
    let mut played = VecDeque::new();
    let mut last = String::from("--");
    interpret_note(&mut backlog, &mut played, &mut last);
    assert_eq!(last, "E5");
}

#[test]
fn pitch_class_and_octave_are_counted_apart() {
    // Pitch classes: ten D (2 and 14), eight G (7); octaves: eleven octave 4
    // (2, 7 three times), seven octave 5 (14).
    let mut values = repeated(2, 3);
    values.extend(repeated(14, 7));
    values.extend(repeated(7, 8));
    values.extend(repeated(i16::MIN, 12));
    let mut backlog = batch(&values);
    let mut played = VecDeque::new();
    let mut last = String::from("--");
    interpret_note(&mut backlog, &mut played, &mut last);
    assert_eq!(last, "D4");
}

#[test]
fn low_octaves_are_clamped_to_one() {
    let mut backlog = repeated(-100, 30);
    let mut played = VecDeque::new();
    let mut last = String::from("--");
    interpret_note(&mut backlog, &mut played, &mut last);
    // pitch class of -100 is 8 (G#), octave is max(1, -9 + 4) = 1:
    // semitone 8 - 36 = -28, in octave 1.
    assert_eq!(last, "G#1");
}

#[test]
fn notekeeper_drops_its_oldest_note() {
    let mut played = VecDeque::new();
    let mut last = String::from("--");
    for s in 0..8i16 {
        let mut backlog = repeated(s, 30);
        interpret_note(&mut backlog, &mut played, &mut last);
    }
    assert_eq!(played.len(), 8);
    assert_eq!(played[0], "C4");
    let mut backlog = repeated(8, 30);
    interpret_note(&mut backlog, &mut played, &mut last);
    assert_eq!(played.len(), 8);
    assert_eq!(played[0], "C#4");
    assert_eq!(played[7], "G#4");
    for s in 9..12i16 {
        let mut backlog = repeated(s, 30);
        interpret_note(&mut backlog, &mut played, &mut last);
    }
    assert_eq!(played.len(), 8);
    assert_eq!(played[0], "E4");
    assert_eq!(played[7], "B4");
}

#[test]
fn batch_below_c4_is_heard_in_octave_3() {
    let mut backlog = repeated(-3, 30);
    let mut played = VecDeque::new();
    let mut last = String::from("--");
    interpret_note(&mut backlog, &mut played, &mut last);
    assert!(backlog.is_empty());
    assert_eq!(last, "A3");
    assert_eq!(notekeeper(&played), vec!["A3".to_string()]);
}

#[test]
fn long_backlog_is_interpreted_whole() {
    let mut values = repeated(7, 40);
    values.extend(repeated(0, 5));
    let mut backlog = batch(&values);
    let mut played = VecDeque::new();
    let mut last = String::from("--");
    interpret_note(&mut backlog, &mut played, &mut last);
    assert!(backlog.is_empty());
    assert_eq!(last, "G4");
}

#[test]
fn can_interpret_flags_overflowing_batches() {
    assert!(can_interpret(&repeated(0, 5)));
    assert!(can_interpret(&repeated(0, 30)));
    assert!(can_interpret(&repeated(0, 127)));
    assert!(!can_interpret(&repeated(0, 128)));
    assert!(can_interpret(&repeated(i16::MIN, 300)));
    // pitch class B (11) is the mode, octave 2734 too (tied with 2733, the
    // larger wins): B in octave 2734 lies above i16::MAX.
    let mut values = repeated(32767, 12);
    values.extend(repeated(32759, 12));
    values.extend(repeated(11, 6));
    assert!(!can_interpret(&values));
    assert!(can_interpret(&repeated(i16::MAX, 30)));
}

#[test]
fn register_pitch_names_and_stores_samples() {
    let mut played = VecDeque::new();
    let mut backlog = Vec::new();
    let mut last = String::from("--");
    let shown = register_pitch(Some(0), &mut played, &mut backlog, &mut last);
    assert_eq!(shown, (0, "C4".to_string()));
    assert_eq!(backlog, vec![0]);
    let shown = register_pitch(None, &mut played, &mut backlog, &mut last);
    assert_eq!(shown, (i16::MIN, "--".to_string()));
    assert_eq!(backlog, vec![0, i16::MIN]);
    for _ in 0..28 {
        register_pitch(Some(0), &mut played, &mut backlog, &mut last);
    }
    assert!(backlog.is_empty());
    assert_eq!(last, "C4");
    assert_eq!(notekeeper(&played), vec!["C4".to_string()]);
}
