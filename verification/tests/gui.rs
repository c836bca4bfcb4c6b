use ocarina_listener::display::display_message;
use ocarina_listener::gui::{
    announced_song, clip_action, refresh_step, clip_command, listener_line_fields, listener_update,
    os_version_from_release, song_step, trimmed, version_or_unknown, ClipAction, ClipStatus, Cue,
    SongStep,
};

#[test]
fn listener_line_splits_into_fields() {
    let fields = listener_line_fields("440||9||A4||C4 D4");
    assert_eq!(fields, vec!["440", "9", "A4", "C4 D4"]);
    let fields = listener_line_fields("a|||b||");
    assert_eq!(fields, vec!["a", "|b", ""]);
    assert_eq!(listener_line_fields(""), vec![""]);
}

#[test]
fn listener_update_reads_note_and_played_notes() {
    let fields = listener_line_fields("440||9||A4|| C4 % D4 %");
    let u = listener_update(&fields);
    assert_eq!(u.note_name, "A4");
    assert!(u.listening);
    assert_eq!(u.played_notes, vec!["C4", "D4", ""]);
    let fields = listener_line_fields("0.0001||-32768||--||");
    let u = listener_update(&fields);
    assert!(!u.listening);
    assert_eq!(u.played_notes, vec![""]);
}

#[test]
fn announcements_need_more_than_three_bytes() {
    assert_eq!(announced_song("C4"), None);
    assert_eq!(announced_song("C#4"), None);
    assert_eq!(announced_song("oZelda"), Some((Cue::SongCorrect, "Zelda".to_string())));
    assert_eq!(announced_song("xSun"), Some((Cue::SecretFound, "Sun".to_string())));
    // "oé" is three bytes
    assert_eq!(announced_song("oé"), None);
    assert_eq!(announced_song("oéa"), Some((Cue::SongCorrect, "éa".to_string())));
}

#[test]
fn song_steps() {
    let a = "Zelda".to_string();
    let b = "Sun".to_string();
    assert_eq!(song_step(&a, &b, 1), SongStep::Show { start_clip: true });
    assert_eq!(song_step(&a, &b, 2), SongStep::Show { start_clip: false });
    assert_eq!(song_step(&a, &a, 2), SongStep::PollClip);
    assert_eq!(song_step(&a, &a, 1), SongStep::Nothing);
}

#[test]
fn clip_actions() {
    assert_eq!(clip_action(ClipStatus::Running), ClipAction::Wait);
    assert_eq!(
        clip_action(ClipStatus::Finished { success: true, code: Some(0) }),
        ClipAction::Finish
    );
    assert_eq!(
        clip_action(ClipStatus::Finished { success: false, code: Some(1) }),
        ClipAction::Report("Err - Some(1)".to_string())
    );
    assert_eq!(
        clip_action(ClipStatus::Finished { success: false, code: Some(-2147483648) }),
        ClipAction::Report(format!("Err - {:?}", Some(-2147483648i32)))
    );
    assert_eq!(
        clip_action(ClipStatus::Finished { success: false, code: None }),
        ClipAction::Report("Err - None".to_string())
    );
    assert_eq!(
        clip_action(ClipStatus::QueryFailed("no child".to_string())),
        ClipAction::Report("OSErr - no child".to_string())
    );
}

#[test]
fn clip_command_plays_cue_then_song() {
    assert_eq!(
        clip_command(Cue::SongCorrect, "Zelda"),
        "aplay -D plughw:CARD=b1,DEV=0 /usr/share/ocarina/sounds/song_correct.wav && aplay -D plughw:CARD=b1,DEV=0 \"/usr/share/ocarina/sounds/Zelda.wav\""
    );
    assert!(clip_command(Cue::SecretFound, "x").contains("secret_found.wav"));
}

#[test]
fn os_version_is_read_from_the_version_line() {
    let release = "NAME=\"Poky\"\nVERSION=\"5.0.3 (scarthgap)\"\nID=poky\n";
    assert_eq!(os_version_from_release(release), "5.0.3 (scarthgap)");
    assert_eq!(os_version_from_release("ID=x\r\nVERSION=1.0\r\n"), "1.0");
    assert_eq!(os_version_from_release("VERSION=VERSION=\"\"2\"\""), "2");
    assert_eq!(os_version_from_release("ID=x\n"), "unknown");
    assert_eq!(os_version_from_release(""), "unknown");
    assert_eq!(os_version_from_release("VERSION=3\r"), "3\r");
    assert_eq!(os_version_from_release("X=1\nVERSION=a\nVERSION=b"), "a");
}

#[test]
fn trimming_matches_str_trim() {
    for s in ["  a b  ", "\t\n x\u{3000}", "", "   ", "\u{85}y\u{a0}"] {
        assert_eq!(trimmed(s), s.trim());
    }
    assert_eq!(version_or_unknown(Some(" 1.2\n")), "1.2");
    assert_eq!(version_or_unknown(None), "unknown");
}

#[test]
fn display_reads_back_what_the_listener_sends() {
    let notes: Vec<String> = ["C4", "D4", "E4", "F4", "G4"].iter().map(|s| s.to_string()).collect();
    let line = display_message("392.1", 7, "G4", &notes);
    let fields = listener_line_fields(line.trim_end_matches('\n'));
    assert_eq!(fields, vec!["392.1", "7", "G4", "D4 E4 F4 G4"]);
    let u = listener_update(&fields);
    assert_eq!(u.note_name, "G4");
    assert_eq!(u.played_notes, vec!["D4 E4 F4 G4"]);
}

#[test]
fn ip_is_refreshed_every_one_and_a_half_seconds() {
    let s = refresh_step(1500, false);
    assert!(s.refresh_ip && s.set_versions);
    let s = refresh_step(1500, true);
    assert!(s.refresh_ip && !s.set_versions);
    let s = refresh_step(1499, false);
    assert!(!s.refresh_ip && !s.set_versions);
}
