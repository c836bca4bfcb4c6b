//! The line that the listener sends to the display for each sample.

use vstd::prelude::*;
use crate::text::{chars_of, int_decimal, push_char, push_chars, push_int_decimal};

verus! {

/// How many of the most recent notes the display line carries.
pub const SHOWN_NOTES: usize = 4;

/// The notes joined by single spaces.
pub open spec fn join_spaced(notes: Seq<Seq<char>>) -> Seq<char>
    decreases notes.len(),
{
    if notes.len() == 0 {
        Seq::empty()
    } else if notes.len() == 1 {
        notes[0]
    } else {
        join_spaced(notes.drop_last()) + seq![' '] + notes.last()
    }
}

/// The last `SHOWN_NOTES` notes (all of them when there are fewer).
pub open spec fn most_recent(notes: Seq<Seq<char>>) -> Seq<Seq<char>> {
    if notes.len() <= SHOWN_NOTES {
        notes
    } else {
        notes.subrange(notes.len() - SHOWN_NOTES, notes.len() as int)
    }
}

/// The separator between the fields of a display line.
pub open spec fn field_separator() -> Seq<char> {
    seq!['|', '|']
}

/// A display line: frequency, semitones, note name and the most recent
/// notes, separated by [`field_separator`] and ended by a newline.
pub open spec fn display_line(
    freq_text: Seq<char>,
    semitones: int,
    note_name: Seq<char>,
    notes: Seq<Seq<char>>,
) -> Seq<char> {
    freq_text + field_separator() + int_decimal(semitones) + field_separator() + note_name
        + field_separator() + join_spaced(most_recent(notes)) + seq!['\n']
}

fn push_separator(line: &mut String)
    ensures
        final(line)@ == old(line)@ + field_separator(),
{
    push_char(line, '|');
    push_char(line, '|');
    assert(final(line)@ =~= old(line)@ + field_separator());
}

/// The most recent notes (at most `SHOWN_NOTES`), joined by spaces.
pub fn recent_notes_text(notes: &Vec<String>) -> (text: String)
    ensures
        text@ == join_spaced(most_recent(notes@.map_values(|s: String| s@))),
{
    let ghost all = notes@.map_values(|s: String| s@);
    let n = notes.len();
    let start: usize = if n > SHOWN_NOTES {
        n - SHOWN_NOTES
    } else {
        0
    };
    let ghost shown = most_recent(all);
    assert(shown =~= all.subrange(start as int, n as int));
    let mut text = String::new();
    let mut i: usize = start;
    while i < n
        invariant
            start <= i <= n,
            n == notes@.len(),
            all == notes@.map_values(|s: String| s@),
            shown == all.subrange(start as int, n as int),
            text@ == join_spaced(shown.take(i - start)),
        decreases n - i,
    {
        let ghost k = i - start;
        assert(shown.take(k + 1).drop_last() =~= shown.take(k));
        if i > start {
            push_char(&mut text, ' ');
        }
        let cs = chars_of(notes[i].as_str());
        push_chars(&mut text, &cs);
        i += 1;
        assert(text@ =~= join_spaced(shown.take(i - start)));
    }
    assert(shown.take(n - start) =~= shown);
    text
}

/// The line sent to the display for one sample, given the frequency as
/// text, the sample's semitones and note name, and the notekeeper.
pub fn display_message(
    freq_text: &str,
    semitones: i16,
    note_name: &str,
    notes_played: &Vec<String>,
) -> (line: String)
    ensures
        line@ == display_line(
            freq_text@,
            semitones as int,
            note_name@,
            notes_played@.map_values(|s: String| s@),
        ),
{
    let mut line = String::new();
    push_chars(&mut line, &chars_of(freq_text));
    push_separator(&mut line);
    push_int_decimal(&mut line, semitones as i64);
    push_separator(&mut line);
    push_chars(&mut line, &chars_of(note_name));
    push_separator(&mut line);
    let recent = recent_notes_text(notes_played);
    push_chars(&mut line, &chars_of(recent.as_str()));
    push_char(&mut line, '\n');
    assert(line@ =~= display_line(
        freq_text@,
        semitones as int,
        note_name@,
        notes_played@.map_values(|s: String| s@),
    ));
    line
}

} // verus!
