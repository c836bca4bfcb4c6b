//! Properties of the listener that hold across calls: what the notekeeper
//! keeps, when notes are added, what the songbook stores and what is
//! recognized.

use vstd::prelude::*;
use crate::notes::{
    BATCH_LEN, MIN_SOUNDED, NOTEKEEPER_CAP, heard_name, interpretation, keep_recent, silence_name,
    sounded_count,
};
use crate::order::{lemma_name_less_irreflexive, name_less};
use crate::songs::{
    book_insert, lemma_book_insert_sorted, lemma_lower_bound_facts, lower_bound, melody_of, names_sorted, notes_line, octave_separator, recognized,
    rendering,
};
use crate::text::{
    contains_seq, int_decimal, lemma_decimal_chars, lemma_split_leading_piece,
    lemma_split_no_separator, occurs_at,
};
use crate::display::{display_line, field_separator, join_spaced, most_recent};
use crate::gui::{
    announced, byte_len, clip_command_text, listener_fields, os_version_text, starts_with,
    strip_prefixes, text_lines, trim_end_char, trim_start_char, unknown_text, version_key, Cue,
};
use crate::notes::{note_name_seq, pitch_class_name};

verus! {

/// The notekeeper holds at most `NOTEKEEPER_CAP` notes: a notekeeper within
/// that bound stays within it after any interpretation.
pub proof fn law_notekeeper_bounded(backlog: Seq<i16>, played: Seq<Seq<char>>, last: Seq<char>)
    requires
        played.len() <= NOTEKEEPER_CAP,
    ensures
        interpretation(backlog, played, last).1.len() <= NOTEKEEPER_CAP,
{
}

/// A note is added to the notekeeper only from a full batch of which more
/// than `MIN_SOUNDED` samples were sounded, only when it differs from the
/// last note heard and is not silence; it goes at the back, and the entries
/// before it are the most recent of the earlier ones, in order.
pub proof fn law_when_notes_are_added(backlog: Seq<i16>, played: Seq<Seq<char>>, last: Seq<char>)
    requires
        interpretation(backlog, played, last).1 != played,
    ensures
        ({
            let after = interpretation(backlog, played, last);
            let heard = heard_name(backlog);
            &&& backlog.len() >= BATCH_LEN
            &&& sounded_count(backlog) > MIN_SOUNDED
            &&& heard != last
            &&& heard != silence_name()
            &&& after.2 == heard
            &&& after.1.len() >= 1
            &&& after.1.last() == heard
            &&& after.1.drop_last() == played.subrange(
                played.len() - (after.1.len() - 1),
                played.len() as int,
            )
        }),
{
    let after = interpretation(backlog, played, last);
    let heard = heard_name(backlog);
    if sounded_count(backlog) <= MIN_SOUNDED {
        assert(heard == silence_name());
    }
    let p = played.push(heard);
    if p.len() > NOTEKEEPER_CAP {
        assert(after.1.drop_last() =~= played.subrange(1, played.len() as int));
    } else {
        assert(after.1.drop_last() =~= played.subrange(0, played.len() as int));
    }
}

/// A note held on is added once: when the next full batch is heard as the
/// same note (or is the same silence), neither the notekeeper nor the last
/// note changes.
pub proof fn law_held_note_not_repeated(
    first: Seq<i16>,
    second: Seq<i16>,
    played: Seq<Seq<char>>,
    last: Seq<char>,
)
    requires
        first.len() >= BATCH_LEN,
        second.len() >= BATCH_LEN,
        heard_name(first) == heard_name(second),
    ensures
        ({
            let after_first = interpretation(first, played, last);
            let after_second = interpretation(second, after_first.1, after_first.2);
            &&& after_second.1 == after_first.1
            &&& after_second.2 == after_first.2
        }),
{
}

/// A note played again after a silent batch is added again.
pub proof fn law_repeat_after_silence(
    first: Seq<i16>,
    silent: Seq<i16>,
    again: Seq<i16>,
    played: Seq<Seq<char>>,
    last: Seq<char>,
)
    requires
        first.len() >= BATCH_LEN,
        silent.len() >= BATCH_LEN,
        again.len() >= BATCH_LEN,
        heard_name(silent) == silence_name(),
        heard_name(again) == heard_name(first),
        heard_name(first) != silence_name(),
    ensures
        ({
            let s1 = interpretation(first, played, last);
            let s2 = interpretation(silent, s1.1, s1.2);
            let s3 = interpretation(again, s2.1, s2.2);
            &&& s2.1 == s1.1
            &&& s3.1 == keep_recent(s1.1, heard_name(first))
            &&& s3.2 == heard_name(first)
        }),
{
}

/// The book holds at most one entry per name when names are sorted.
proof fn lemma_sorted_unique(book: Seq<(Seq<char>, Seq<char>)>, i: int, j: int)
    requires
        names_sorted(book),
        0 <= i < book.len(),
        0 <= j < book.len(),
        book[i].0 == book[j].0,
    ensures
        i == j,
{
    lemma_name_less_irreflexive(book[i].0);
    if i < j {
        assert(name_less(book[i].0, book[j].0));
    } else if j < i {
        assert(name_less(book[j].0, book[i].0));
    }
}

proof fn lemma_melody_at(book: Seq<(Seq<char>, Seq<char>)>, i: int)
    requires
        names_sorted(book),
        0 <= i < book.len(),
    ensures
        melody_of(book, book[i].0) == Some(book[i].1),
{
    let j = choose|j: int| 0 <= j < book.len() && book[j].0 == book[i].0;
    lemma_sorted_unique(book, i, j);
}

/// What is stored is what is found: after storing `melody` under `name`,
/// `name` finds `melody`, and every other name finds what it found before.
pub proof fn law_songbook_insert_lookup(
    book: Seq<(Seq<char>, Seq<char>)>,
    name: Seq<char>,
    melody: Seq<char>,
    other: Seq<char>,
)
    requires
        names_sorted(book),
        other != name,
    ensures
        melody_of(book_insert(book, name, melody), name) == Some(melody),
        melody_of(book_insert(book, name, melody), other) == melody_of(book, other),
{
    let after = book_insert(book, name, melody);
    let pos = lower_bound(book, name);
    lemma_book_insert_sorted(book, name, melody);
    lemma_lower_bound_facts(book, name);
    assert(after[pos].0 == name && after[pos].1 == melody);
    lemma_melody_at(after, pos);
    if exists|i: int| 0 <= i < book.len() && book[i].0 == other {
        let i = choose|i: int| 0 <= i < book.len() && book[i].0 == other;
        lemma_melody_at(book, i);
        let k = if pos < book.len() && book[pos].0 == name {
            i
        } else if i < pos {
            i
        } else {
            i + 1
        };
        assert(after[k] == book[i]);
        lemma_melody_at(after, k);
    } else {
        assert forall|k: int| 0 <= k < after.len() implies after[k].0 != other by {
            if pos < book.len() && book[pos].0 == name {
                if k != pos {
                    assert(after[k] == book[k]);
                }
            } else if k < pos {
                assert(after[k] == book[k]);
            } else if k > pos {
                assert(after[k] == book[k - 1]);
            }
        }
    }
}

proof fn lemma_contains_within(a: Seq<char>, r: Seq<char>, b: Seq<char>, m: Seq<char>)
    requires
        contains_seq(r, m),
    ensures
        contains_seq(a + r + b, m),
{
    let k = choose|k: int| occurs_at(r, m, k);
    let line = a + r + b;
    assert(line.subrange(a.len() + k, a.len() + k + m.len()) =~= r.subrange(k, k + m.len()));
    assert(occurs_at(line, m, a.len() + k));
}

proof fn lemma_recognized_some(book: Seq<(Seq<char>, Seq<char>)>, line: Seq<char>, i: int)
    requires
        0 <= i < book.len(),
        contains_seq(line, book[i].1),
    ensures
        exists|j: int|
            i <= j < book.len() && contains_seq(line, book[j].1) && recognized(book, line) == Some(
                book[j].0,
            ),
    decreases book.len(),
{
    let j = book.len() - 1;
    if contains_seq(line, book.last().1) {
        assert(i <= j && contains_seq(line, book[j].1) && recognized(book, line) == Some(book[j].0));
    } else {
        lemma_recognized_some(book.drop_last(), line, i);
        let j2 = choose|j2: int|
            i <= j2 < book.drop_last().len() && contains_seq(line, book.drop_last()[j2].1)
                && recognized(book.drop_last(), line) == Some(book.drop_last()[j2].0);
        assert(book.drop_last()[j2] == book[j2]);
    }
}

/// Songs are recognized whatever octave they are played in: when the melody
/// of a song occurs in the notes as played, or in the notes one octave up or
/// down, a song is recognized: that one or one after it in name order whose
/// melody also occurs.
pub proof fn law_recognized_in_any_octave(
    book: Seq<(Seq<char>, Seq<char>)>,
    notes: Seq<Seq<char>>,
    i: int,
    shift: int,
)
    requires
        0 <= i < book.len(),
        -1 <= shift <= 1,
        contains_seq(rendering(notes, shift), book[i].1),
    ensures
        exists|j: int|
            i <= j < book.len() && contains_seq(notes_line(notes), book[j].1) && recognized(
                book,
                notes_line(notes),
            ) == Some(book[j].0),
{
    let r0 = rendering(notes, 0);
    let r1 = rendering(notes, 1);
    let r2 = rendering(notes, -1);
    let sep = octave_separator();
    let m = book[i].1;
    let line = notes_line(notes);
    if shift == 0 {
        lemma_contains_within(Seq::empty(), r0, sep + r1 + sep + r2, m);
        assert(Seq::<char>::empty() + r0 + (sep + r1 + sep + r2) =~= line);
    } else if shift == 1 {
        lemma_contains_within(r0 + sep, r1, sep + r2, m);
        assert(r0 + sep + r1 + (sep + r2) =~= line);
    } else {
        lemma_contains_within(r0 + sep + r1 + sep, r2, Seq::empty(), m);
        assert(r0 + sep + r1 + sep + r2 + Seq::<char>::empty() =~= line);
    }
    lemma_recognized_some(book, line, i);
}

/// No character of `s` is `|`.
pub open spec fn bar_free(s: Seq<char>) -> bool {
    forall|i: int| 0 <= i < s.len() ==> s[i] != '|'
}

proof fn lemma_join_bar_free(notes: Seq<Seq<char>>)
    requires
        forall|i: int| 0 <= i < notes.len() ==> bar_free(#[trigger] notes[i]),
    ensures
        bar_free(join_spaced(notes)),
    decreases notes.len(),
{
    if notes.len() > 1 {
        lemma_join_bar_free(notes.drop_last());
        let a = join_spaced(notes.drop_last());
        let l = notes.last();
        assert(bar_free(l));
        assert forall|i: int| 0 <= i < join_spaced(notes).len() implies join_spaced(notes)[i] != '|' by {
            let j = a + seq![' '] + l;
            assert(join_spaced(notes) == j);
            if i < a.len() {
                assert(j[i] == a[i]);
            } else if i == a.len() {
                assert(j[i] == ' ');
            } else {
                assert(j[i] == l[i - a.len() - 1]);
            }
        }
    } else if notes.len() == 1 {
        assert(bar_free(notes[0]));
    }
}

proof fn lemma_decimal_bar_free(v: int)
    ensures
        bar_free(int_decimal(v)),
{
    if v < 0 {
        let n = (-v) as nat;
        lemma_decimal_chars(n);
        assert forall|i: int| 0 <= i < int_decimal(v).len() implies int_decimal(v)[i] != '|' by {
            if i > 0 {
                assert(int_decimal(v)[i] == crate::text::nat_decimal(n)[i - 1]);
                assert(48 <= (crate::text::nat_decimal(n)[i - 1] as int) < 58);
            }
        }
    } else {
        lemma_decimal_chars(v as nat);
        assert forall|i: int| 0 <= i < int_decimal(v).len() implies int_decimal(v)[i] != '|' by {
            assert(48 <= (crate::text::nat_decimal(v as nat)[i] as int) < 58);
        }
    }
}

/// What the listener sends, the display reads back: a display line, read
/// without its newline, splits into the frequency, the semitones, the note
/// name and the recent notes, provided none of the texts holds a `|`.
pub proof fn law_display_line_fields(
    freq: Seq<char>,
    semitones: int,
    name: Seq<char>,
    notes: Seq<Seq<char>>,
)
    requires
        bar_free(freq),
        bar_free(name),
        forall|i: int| 0 <= i < notes.len() ==> bar_free(#[trigger] notes[i]),
    ensures
        listener_fields(display_line(freq, semitones, name, notes).drop_last()) == seq![
            freq,
            int_decimal(semitones),
            name,
            join_spaced(most_recent(notes)),
        ],
{
    let sep = field_separator();
    let d = int_decimal(semitones);
    let recent = most_recent(notes);
    assert forall|i: int| 0 <= i < recent.len() implies bar_free(#[trigger] recent[i]) by {
        if notes.len() > 4 {
            assert(recent[i] == notes[notes.len() - 4 + i]);
        }
    }
    lemma_join_bar_free(recent);
    lemma_decimal_bar_free(semitones);
    let j = join_spaced(recent);
    let line = display_line(freq, semitones, name, notes).drop_last();
    let r3 = j;
    let r2 = name + sep + r3;
    let r1 = d + sep + r2;
    assert(line =~= freq + sep + r1);
    lemma_split_leading_piece(freq, sep, r1);
    lemma_split_leading_piece(d, sep, r2);
    lemma_split_leading_piece(name, sep, r3);
    lemma_split_no_separator(j, sep);
    assert(listener_fields(line) =~= seq![freq, d, name, j]);
}

/// The chromatic scale from C, one name per pitch class.
pub open spec fn chromatic_scale() -> Seq<Seq<char>> {
    seq![
        seq!['C'],
        seq!['C', '#'],
        seq!['D'],
        seq!['D', '#'],
        seq!['E'],
        seq!['F'],
        seq!['F', '#'],
        seq!['G'],
        seq!['G', '#'],
        seq!['A'],
        seq!['A', '#'],
        seq!['B'],
    ]
}

/// A note is named by its place in the chromatic scale from C (the
/// non-negative remainder of its offset from C4 by 12) followed by its
/// octave, which is 4 for C4 up to B4 and changes by one every 12 semitones,
/// below C4 too.
pub proof fn law_note_names(s: int)
    ensures
        note_name_seq(s) == chromatic_scale()[s % 12] + int_decimal(s / 12 + 4),
        0 <= s % 12 < 12,
        (s + 12) / 12 + 4 == s / 12 + 4 + 1,
        (s + 12) % 12 == s % 12,
{
    let t = s % 12;
    let c = chromatic_scale();
    if t == 0 {
        assert(pitch_class_name(t) == c[0]);
    } else if t == 1 {
        assert(pitch_class_name(t) == c[1]);
    } else if t == 2 {
        assert(pitch_class_name(t) == c[2]);
    } else if t == 3 {
        assert(pitch_class_name(t) == c[3]);
    } else if t == 4 {
        assert(pitch_class_name(t) == c[4]);
    } else if t == 5 {
        assert(pitch_class_name(t) == c[5]);
    } else if t == 6 {
        assert(pitch_class_name(t) == c[6]);
    } else if t == 7 {
        assert(pitch_class_name(t) == c[7]);
    } else if t == 8 {
        assert(pitch_class_name(t) == c[8]);
    } else if t == 9 {
        assert(pitch_class_name(t) == c[9]);
    } else if t == 10 {
        assert(pitch_class_name(t) == c[10]);
    } else {
        assert(pitch_class_name(t) == c[11]);
    }
}

/// The display line carries the last `min(n, 4)` of the `n` notes, oldest
/// first and newest last: the newest note is always shown, and adding a note
/// shows it at the end after the most recent of the notes shown before.
pub proof fn law_display_shows_newest_notes(
    freq: Seq<char>,
    semitones: int,
    name: Seq<char>,
    notes: Seq<Seq<char>>,
    next: Seq<char>,
)
    ensures
        ({
            let n = notes.len() as int;
            let k = if n < 4 { n } else { 4 };
            &&& most_recent(notes) == notes.subrange(n - k, n)
            &&& most_recent(notes).len() == k
            &&& n > 0 ==> most_recent(notes).last() == notes.last()
            &&& display_line(freq, semitones, name, notes) == freq + seq!['|', '|'] + int_decimal(
                semitones,
            ) + seq!['|', '|'] + name + seq!['|', '|'] + join_spaced(notes.subrange(n - k, n))
                + seq!['\n']
            &&& most_recent(notes.push(next)).last() == next
            &&& most_recent(notes.push(next)).drop_last() == most_recent(notes).subrange(
                if k == 4 { 1 } else { 0 },
                k,
            )
        }),
{
    let n = notes.len() as int;
    let k = if n < 4 { n } else { 4 };
    if n <= 4 {
        assert(notes.subrange(0, n) =~= notes);
    }
    let p = notes.push(next);
    let k2 = if n + 1 < 4 { n + 1 } else { 4 };
    if n + 1 <= 4 {
        assert(p.subrange(0, n + 1) =~= p);
    }
    assert(most_recent(p) =~= p.subrange(n + 1 - k2, n + 1));
    assert(most_recent(p).drop_last() =~= most_recent(notes).subrange(
        if k == 4 { 1 } else { 0 },
        k,
    ));
}

/// The clip command plays the cue's sound and then, for every cue, the
/// song's clip: the commands of the two cues differ only in the cue's file
/// name, and every command ends with the song's file.
pub proof fn law_clip_command(cue: Cue, song: Seq<char>)
    ensures
        clip_command_text(cue, song) == "aplay -D plughw:CARD=b1,DEV=0 /usr/share/ocarina/sounds/"@
            + (match cue {
            Cue::SongCorrect => "song_correct"@,
            Cue::SecretFound => "secret_found"@,
        }) + ".wav && aplay -D plughw:CARD=b1,DEV=0 \"/usr/share/ocarina/sounds/"@ + song
            + ".wav\""@,
        ({
            let text = clip_command_text(cue, song);
            let tail = song + ".wav\""@;
            text.subrange(text.len() - tail.len(), text.len() as int) == tail
        }),
{
    let text = clip_command_text(cue, song);
    let tail = song + ".wav\""@;
    let head = "aplay -D plughw:CARD=b1,DEV=0 /usr/share/ocarina/sounds/"@ + crate::gui::cue_file(
        cue,
    ) + ".wav && aplay -D plughw:CARD=b1,DEV=0 \"/usr/share/ocarina/sounds/"@;
    assert(text =~= head + tail);
    assert(text.subrange(head.len() as int, text.len() as int) =~= tail);
}

/// An announcement is the entry split after its first character: the cue
/// character followed by the announced song gives back the whole entry, the
/// cue says whether that character is `o`, and only entries of more than
/// three bytes announce a song.
pub proof fn law_announcement_splits_entry(first: Seq<char>)
    ensures
        announced(first) is Some <==> byte_len(first) > 3,
        announced(first) matches Some((cue, song)) ==> first.len() > 0 && seq![first[0]] + song
            == first && (cue == Cue::SongCorrect <==> first[0] == 'o'),
{
    if byte_len(first) > 3 {
        if first.len() == 0 {
            assert(byte_len(first) == 0);
        }
        assert(seq![first[0]] + first.drop_first() =~= first);
    }
}

proof fn lemma_first_version_line_at(lines: Seq<Seq<char>>, i: int)
    requires
        0 <= i < lines.len(),
        starts_with(lines[i], version_key()),
        forall|j: int| 0 <= j < i ==> !starts_with(#[trigger] lines[j], version_key()),
    ensures
        crate::gui::first_version_line(lines) == Some(lines[i]),
    decreases i,
{
    if i > 0 {
        assert(!starts_with(lines[0], version_key()));
        let rest = lines.drop_first();
        assert forall|j: int| 0 <= j < i - 1 implies !starts_with(#[trigger] rest[j], version_key()) by {
            assert(rest[j] == lines[j + 1]);
        }
        lemma_first_version_line_at(rest, i - 1);
    }
}

proof fn lemma_no_version_line(lines: Seq<Seq<char>>)
    requires
        forall|j: int| 0 <= j < lines.len() ==> !starts_with(#[trigger] lines[j], version_key()),
    ensures
        crate::gui::first_version_line(lines) is None,
    decreases lines.len(),
{
    if lines.len() > 0 {
        let rest = lines.drop_first();
        assert(!starts_with(lines[0], version_key()));
        assert forall|j: int| 0 <= j < rest.len() implies !starts_with(#[trigger] rest[j], version_key()) by {
            assert(rest[j] == lines[j + 1]);
        }
        lemma_no_version_line(rest);
    }
}

/// The version is read from the first line that starts with `VERSION=`,
/// wherever it stands: its value, without the `VERSION=` prefixes and the
/// surrounding double quotes. It is `unknown` exactly when no line starts
/// with `VERSION=`.
pub proof fn law_os_version_first_version_line(release: Seq<char>, i: int)
    ensures
        ({
            let lines = text_lines(release);
            &&& (0 <= i < lines.len() && starts_with(lines[i], version_key()) && (forall|j: int|
                0 <= j < i ==> !starts_with(#[trigger] lines[j], version_key()))) ==> os_version_text(
                release,
            ) == trim_end_char(
                trim_start_char(strip_prefixes(lines[i], version_key()), '"'),
                '"',
            )
            &&& (forall|j: int| 0 <= j < lines.len() ==> !starts_with(#[trigger] lines[j], version_key()))
                ==> os_version_text(release) == unknown_text()
        }),
{
    let lines = text_lines(release);
    if 0 <= i < lines.len() && starts_with(lines[i], version_key()) && (forall|j: int|
        0 <= j < i ==> !starts_with(#[trigger] lines[j], version_key())) {
        lemma_first_version_line_at(lines, i);
    }
    if forall|j: int| 0 <= j < lines.len() ==> !starts_with(#[trigger] lines[j], version_key()) {
        lemma_no_version_line(lines);
    }
}

} // verus!
