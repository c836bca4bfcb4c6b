use ocarina_listener::display::{display_message, recent_notes_text};

fn v(s: &[&str]) -> Vec<String> {
    s.iter().map(|x| x.to_string()).collect()
}

#[test]
fn display_line_carries_the_four_most_recent_notes() {
    let line = display_message("440", 9, "A4", &v(&["C4", "D4", "E4", "F4", "G4"]));
    assert_eq!(line, "440||9||A4||D4 E4 F4 G4\n");
}

#[test]
fn display_line_with_few_notes() {
    assert_eq!(display_message("0.0001", -32768, "--", &v(&[])), "0.0001||-32768||--||\n");
    assert_eq!(display_message("261.6", 0, "C4", &v(&["C4"])), "261.6||0||C4||C4\n");
}

#[test]
fn recent_notes_are_joined_by_spaces() {
    assert_eq!(recent_notes_text(&v(&["a", "b"])), "a b");
    assert_eq!(recent_notes_text(&v(&["a", "b", "c", "d"])), "a b c d");
    assert_eq!(recent_notes_text(&v(&["x", "a", "b", "c", "d"])), "a b c d");
    assert_eq!(recent_notes_text(&v(&[])), "");
}
