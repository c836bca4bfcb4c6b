use ocarina_listener::songs::{
    check_played_notes, load_songbook, load_songbook_entries, notes_end_in_ascii,
    try_load_songbook, Songbook, SongbookError,
};
use std::collections::VecDeque;

fn book(json: &str) -> Songbook {
    let mut b = Songbook::new();
    load_songbook(&mut b, json);
    b
}

fn names(b: &Songbook) -> Vec<(String, String)> {
    (0..b.len()).map(|i| {
        let (n, m) = b.entry(i);
        (n.clone(), m.clone())
    }).collect()
}

fn notes(v: &[&str]) -> VecDeque<String> {
    v.iter().map(|s| s.to_string()).collect()
}

#[test]
fn songbook_is_sorted_by_name() {
    let b = book(r#"{"Zelda's Lullaby": "B4 D5 A4", "Epona's Song": "D5 B4 A4", "Saria's Song": "F4 A4 B4"}"#);
    assert_eq!(b.len(), 3);
    assert_eq!(
        names(&b),
        vec![
            ("Epona's Song".to_string(), "D5 B4 A4".to_string()),
            ("Saria's Song".to_string(), "F4 A4 B4".to_string()),
            ("Zelda's Lullaby".to_string(), "B4 D5 A4".to_string()),
        ]
    );
}

#[test]
fn invalid_json_is_refused() {
    let mut b = book(r#"{"a": "C4"}"#);
    assert_eq!(try_load_songbook(&mut b, "{not json"), Err(SongbookError::InvalidJson));
    assert_eq!(names(&b), vec![("a".to_string(), "C4".to_string())]);
}

#[test]
fn non_object_json_loads_nothing() {
    let mut b = Songbook::new();
    assert_eq!(try_load_songbook(&mut b, "[1, 2]"), Ok(()));
    assert_eq!(b.len(), 0);
}

#[test]
fn values_are_loaded_as_their_display_text() {
    let b = book(r#"{"n": 5, "t": true, "s": "C4 E4"}"#);
    assert_eq!(
        names(&b),
        vec![
            ("n".to_string(), "5".to_string()),
            ("s".to_string(), "C4 E4".to_string()),
            ("t".to_string(), "true".to_string()),
        ]
    );
}

#[test]
fn storing_a_name_again_replaces_its_melody() {
    let mut b = Songbook::new();
    b.insert("song".to_string(), "C4".to_string());
    b.insert("other".to_string(), "D4".to_string());
    b.insert("song".to_string(), "E4".to_string());
    assert_eq!(
        names(&b),
        vec![
            ("other".to_string(), "D4".to_string()),
            ("song".to_string(), "E4".to_string()),
        ]
    );
    let mut c = Songbook::new();
    load_songbook_entries(
        &mut c,
        &vec![
            ("x".to_string(), "1".to_string()),
            ("x".to_string(), "2".to_string()),
        ],
    );
    assert_eq!(names(&c), vec![("x".to_string(), "2".to_string())]);
}

#[test]
fn names_order_by_code_point() {
    let mut b = Songbook::new();
    b.insert("b".to_string(), "".to_string());
    b.insert("B".to_string(), "".to_string());
    b.insert("ab".to_string(), "".to_string());
    b.insert("a".to_string(), "".to_string());
    b.insert("é".to_string(), "".to_string());
    let order: Vec<String> = names(&b).into_iter().map(|e| e.0).collect();
    assert_eq!(order, vec!["B", "a", "ab", "b", "é"]);
}

#[test]
fn song_is_recognized_as_played() {
    let mut b = book(r#"{"Zelda's Lullaby": "B4 D5 A4"}"#);
    let mut played = notes(&["C4", "B4", "D5", "A4"]);
    check_played_notes(&mut played, &mut b);
    assert_eq!(played, notes(&["Zelda's Lullaby"]));
}

#[test]
fn song_is_recognized_an_octave_lower() {
    let mut b = book(r#"{"Zelda's Lullaby": "B4 D5 A4"}"#);
    let mut played = notes(&["B3", "D4", "A3"]);
    check_played_notes(&mut played, &mut b);
    assert_eq!(played, notes(&["Zelda's Lullaby"]));
}

#[test]
fn song_is_recognized_an_octave_higher() {
    let mut b = book(r#"{"Zelda's Lullaby": "B4 D5 A4"}"#);
    let mut played = notes(&["B5", "D6", "A5"]);
    check_played_notes(&mut played, &mut b);
    assert_eq!(played, notes(&["Zelda's Lullaby"]));
}

#[test]
fn unmatched_notes_are_kept() {
    let mut b = book(r#"{"Zelda's Lullaby": "B4 D5 A4"}"#);
    let mut played = notes(&["B4", "D5", "G4"]);
    check_played_notes(&mut played, &mut b);
    assert_eq!(played, notes(&["B4", "D5", "G4"]));
    assert_eq!(b.len(), 1);
}

#[test]
fn last_matching_song_in_name_order_wins() {
    let mut b = book(r#"{"Beta": "C4 D4", "Alpha": "C4", "Gamma": "E4"}"#);
    let mut played = notes(&["C4", "D4"]);
    check_played_notes(&mut played, &mut b);
    assert_eq!(played, notes(&["Beta"]));
}

#[test]
fn octave_nine_goes_up_to_ten() {
    // One octave up, C9 renders as C10.
    let mut b = book(r#"{"High": "C10 "}"#);
    let mut played = notes(&["C9"]);
    check_played_notes(&mut played, &mut b);
    assert_eq!(played, notes(&["High"]));
}

#[test]
fn octave_zero_does_not_go_below_zero() {
    let mut b = book(r#"{"Low": "-|-C0 "}"#);
    let mut played = notes(&["C0"]);
    check_played_notes(&mut played, &mut b);
    assert_eq!(played, notes(&["Low"]));
}

#[test]
fn a_song_title_is_shifted_by_its_last_character() {
    // After a song is recognized the title stands in the notekeeper; its last
    // character is not a digit, so it is read as octave 0.
    let mut b = book(r#"{"Tune": "Tun1 "}"#);
    let mut played = notes(&["Tune"]);
    check_played_notes(&mut played, &mut b);
    assert_eq!(played, notes(&["Tune"]));
}

#[test]
fn empty_melody_matches_anything() {
    let mut b = book(r#"{"Silence": ""}"#);
    let mut played: VecDeque<String> = VecDeque::new();
    check_played_notes(&mut played, &mut b);
    assert_eq!(played, notes(&["Silence"]));
}

#[test]
fn note_endings_are_checked() {
    assert!(notes_end_in_ascii(&notes(&["C4", "Tune"])));
    assert!(!notes_end_in_ascii(&notes(&["C4", ""])));
    assert!(!notes_end_in_ascii(&notes(&["Song♪"])));
}

#[test]
fn try_load_songbook_loads_json() {
    let mut b = Songbook::new();
    assert_eq!(try_load_songbook(&mut b, r#"{"b": "C4", "a": "D4"}"#), Ok(()));
    assert_eq!(
        names(&b),
        vec![("a".to_string(), "D4".to_string()), ("b".to_string(), "C4".to_string())]
    );
}
