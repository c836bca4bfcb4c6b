//! The songbook, and recognition of songs among the notes played.

use vstd::prelude::*;
use std::collections::VecDeque;
use crate::order::{name_before, name_less, lemma_name_less_total, lemma_name_less_transitive};
use crate::text::{chars_of, contains_chars, contains_seq, int_decimal, push_char, push_chars, push_int_decimal};
use crate::notes::texts;

verus! {

/// The text of each (name, melody) entry.
pub open spec fn entry_texts(v: Seq<(String, String)>) -> Seq<(Seq<char>, Seq<char>)> {
    v.map_values(|e: (String, String)| (e.0@, e.1@))
}

/// Song names strictly increase along the book, so no name occurs twice.
pub open spec fn names_sorted(book: Seq<(Seq<char>, Seq<char>)>) -> bool {
    forall|i: int, j: int| 0 <= i < j < book.len() ==> name_less(book[i].0, book[j].0)
}

/// How many entries at the front of the book have names before `name`:
/// where an entry named `name` is, or goes.
pub open spec fn lower_bound(book: Seq<(Seq<char>, Seq<char>)>, name: Seq<char>) -> int
    decreases book.len(),
{
    if book.len() == 0 {
        0
    } else if name_less(book[0].0, name) {
        1 + lower_bound(book.drop_first(), name)
    } else {
        0
    }
}

/// The book after storing `melody` under `name`: the entry of that name has
/// its melody replaced, or a new entry goes in at its place in name order.
pub open spec fn book_insert(book: Seq<(Seq<char>, Seq<char>)>, name: Seq<char>, melody: Seq<char>) -> Seq<
    (Seq<char>, Seq<char>),
> {
    let pos = lower_bound(book, name);
    if pos < book.len() && book[pos].0 == name {
        book.update(pos, (name, melody))
    } else {
        book.insert(pos, (name, melody))
    }
}

/// The book after storing each entry of `entries`, first to last.
pub open spec fn book_insert_all(
    book: Seq<(Seq<char>, Seq<char>)>,
    entries: Seq<(Seq<char>, Seq<char>)>,
) -> Seq<(Seq<char>, Seq<char>)>
    decreases entries.len(),
{
    if entries.len() == 0 {
        book
    } else {
        let rest = book_insert_all(book, entries.drop_last());
        book_insert(rest, entries.last().0, entries.last().1)
    }
}

/// The melody stored under `name`, if any.
pub open spec fn melody_of(book: Seq<(Seq<char>, Seq<char>)>, name: Seq<char>) -> Option<Seq<char>> {
    if exists|i: int| 0 <= i < book.len() && book[i].0 == name {
        Some(book[choose|i: int| 0 <= i < book.len() && book[i].0 == name].1)
    } else {
        None
    }
}

proof fn lemma_lower_bound(book: Seq<(Seq<char>, Seq<char>)>, name: Seq<char>, i: int)
    requires
        0 <= i <= book.len(),
        forall|q: int| 0 <= q < i ==> name_less(book[q].0, name),
        i == book.len() || !name_less(book[i].0, name),
    ensures
        lower_bound(book, name) == i,
    decreases i,
{
    if i > 0 {
        lemma_lower_bound(book.drop_first(), name, i - 1);
    }
}

/// Storing a song keeps the names sorted.
pub proof fn lemma_book_insert_sorted(book: Seq<(Seq<char>, Seq<char>)>, name: Seq<char>, melody: Seq<char>)
    requires
        names_sorted(book),
    ensures
        names_sorted(book_insert(book, name, melody)),
{
    let i = lower_bound(book, name);
    lemma_lower_bound_facts(book, name);
    if i < book.len() && book[i].0 == name {
        let nb = book_insert(book, name, melody);
        assert forall|a: int, b: int| 0 <= a < b < nb.len() implies name_less(nb[a].0, nb[b].0) by {
            assert(nb[a].0 == book[a].0 && nb[b].0 == book[b].0);
        }
    } else {
        let nb = book_insert(book, name, melody);
        if i < book.len() {
            lemma_name_less_total(book[i].0, name);
        }
        assert forall|a: int, b: int| 0 <= a < b < nb.len() implies name_less(nb[a].0, nb[b].0) by {
            if a < i && b < i {
            } else if a < i && b == i {
            } else if a < i && b > i {
                if b - 1 > i {
                    lemma_name_less_transitive(name, book[i].0, book[b - 1].0);
                }
                lemma_name_less_transitive(nb[a].0, name, nb[b].0);
            } else if a == i {
                if b - 1 > i {
                    lemma_name_less_transitive(name, book[i].0, book[b - 1].0);
                }
            } else {
            }
        }
    }
}

/// Where an entry named `name` is, or goes: after the entries named before
/// it, and at an entry that is not named before it.
pub proof fn lemma_lower_bound_facts(book: Seq<(Seq<char>, Seq<char>)>, name: Seq<char>)
    ensures
        0 <= lower_bound(book, name) <= book.len(),
        forall|q: int| 0 <= q < lower_bound(book, name) ==> name_less(#[trigger] book[q].0, name),
        lower_bound(book, name) < book.len() ==> !name_less(book[lower_bound(book, name)].0, name),
    decreases book.len(),
{
    if book.len() > 0 {
        lemma_lower_bound_facts(book.drop_first(), name);
        if name_less(book[0].0, name) {
            assert forall|q: int| 0 <= q < lower_bound(book, name) implies name_less(#[trigger] book[q].0, name) by {
                if q > 0 {
                    assert(book[q] == book.drop_first()[q - 1]);
                }
            }
        }
    }
}

/// Songs by name, each with the melody that recognizes it: a string of note
/// names separated by spaces.
pub struct Songbook {
    entries: Vec<(String, String)>,
}

impl View for Songbook {
    type V = Seq<(Seq<char>, Seq<char>)>;

    closed spec fn view(&self) -> Seq<(Seq<char>, Seq<char>)> {
        entry_texts(self.entries@)
    }
}

impl Songbook {
    /// The songs are kept in name order, each name once.
    #[verifier::type_invariant]
    spec fn well_formed(self) -> bool {
        names_sorted(entry_texts(self.entries@))
    }

    /// An empty songbook.
    pub fn new() -> (book: Songbook)
        ensures
            book@ == Seq::<(Seq<char>, Seq<char>)>::empty(),
            names_sorted(book@),
    {
        let book = Songbook { entries: Vec::new() };
        assert(book@ =~= Seq::<(Seq<char>, Seq<char>)>::empty());
        book
    }

    /// Number of songs.
    pub fn len(&self) -> (n: usize)
        ensures
            n == self@.len(),
    {
        self.entries.len()
    }

    /// Name and melody of the `i`-th song in name order.
    pub fn entry(&self, i: usize) -> (e: (&String, &String))
        requires
            i < self@.len(),
        ensures
            e.0@ == self@[i as int].0,
            e.1@ == self@[i as int].1,
    {
        let e = &self.entries[i];
        (&e.0, &e.1)
    }

    /// Stores `melody` under `name`, replacing the melody of a song of that name.
    pub fn insert(&mut self, name: String, melody: String)
        ensures
            final(self)@ == book_insert(old(self)@, name@, melody@),
            names_sorted(final(self)@),
    {
        proof {
            use_type_invariant(&*self);
        }
        let ghost book = self@;
        let mut entries: Vec<(String, String)> = Vec::new();
        std::mem::swap(&mut entries, &mut self.entries);
        assert(entry_texts(entries@) == book);
        let key = chars_of(name.as_str());
        let mut i: usize = 0;
        while i < entries.len()
            invariant
                entry_texts(entries@) == book,
                i <= book.len(),
                key@ == name@,
                forall|q: int| 0 <= q < i ==> name_less(#[trigger] book[q].0, name@),
            ensures
                entry_texts(entries@) == book,
                i <= book.len(),
                forall|q: int| 0 <= q < i ==> name_less(#[trigger] book[q].0, name@),
                i == book.len() || !name_less(book[i as int].0, name@),
            decreases entries.len() - i,
        {
            let here = chars_of(entries[i].0.as_str());
            if !name_before(&here, &key) {
                break;
            }
            i += 1;
        }
        proof {
            lemma_lower_bound(book, name@, i as int);
            lemma_book_insert_sorted(book, name@, melody@);
        }
        let ghost e = (name@, melody@);
        if i < entries.len() && entries[i].0 == name {
            entries.set(i, (name, melody));
            assert(entry_texts(entries@) =~= book.update(i as int, e));
        } else {
            entries.insert(i, (name, melody));
            assert(entry_texts(entries@) =~= book.insert(i as int, e));
        }
        self.entries = entries;
    }
}

/// Stores each (name, melody) entry in turn, as loading a songbook does.
pub fn load_songbook_entries(songbook: &mut Songbook, entries: &Vec<(String, String)>)
    ensures
        final(songbook)@ == book_insert_all(old(songbook)@, entry_texts(entries@)),
        names_sorted(final(songbook)@),
{
    proof {
        use_type_invariant(&*songbook);
    }
    let ghost all = entry_texts(entries@);
    let ghost start = songbook@;
    let mut k: usize = 0;
    while k < entries.len()
        invariant
            k <= entries.len(),
            all == entry_texts(entries@),
            songbook@ == book_insert_all(start, all.take(k as int)),
            names_sorted(songbook@),
        decreases entries.len() - k,
    {
        assert(all.take(k + 1).drop_last() =~= all.take(k as int));
        let name = entries[k].0.clone();
        let melody = entries[k].1.clone();
        songbook.insert(name, melody);
        k += 1;
    }
    assert(all.take(k as int) =~= all);
}

/// Names what the `json` crate makes of a text: `None` when `json::parse`
/// rejects it, otherwise the entries of the parsed top-level object in order
/// (none when the value is not an object), each key with the text that the
/// value's `Display` writes.
pub uninterp spec fn json_object_entries(text: Seq<char>) -> Option<Seq<(Seq<char>, Seq<char>)>>;

/// Parses a JSON text and lists the entries of its top-level object.
///
/// Trusted: calls `json::parse`, then lists the parsed value's `entries()`
/// (empty unless the value is an object), turning each key into a `String`
/// and each value into the `String` that its `Display` writes (a string's
/// text without quotes, any other value in JSON notation). Nothing is claimed
/// of these beyond their being the named [`json_object_entries`].
#[verifier::external_body]
fn parse_json_object(text: &str) -> (res: Option<Vec<(String, String)>>)
    ensures
        match res {
            Some(v) => json_object_entries(text@) == Some(entry_texts(v@)),
            None => json_object_entries(text@) is None,
        },
{
    json::parse(text).ok().map(
        |value| value.entries().map(|(k, v)| (k.to_owned(), v.to_string())).collect(),
    )
}

/// Why a songbook could not be loaded.
#[derive(Debug, Clone, Copy, PartialEq, Eq)]
pub enum SongbookError {
    /// The songbook text is not valid JSON.
    InvalidJson,
}

/// Loads a songbook written as a JSON object from song name to melody:
/// every entry is stored in order, a later entry of a name replacing an
/// earlier one. The text must be JSON.
pub fn load_songbook(songbook: &mut Songbook, json_text: &str)
    requires
        json_object_entries(json_text@) is Some,
    ensures
        final(songbook)@ == book_insert_all(old(songbook)@, json_object_entries(json_text@)->0),
        names_sorted(final(songbook)@),
{
    proof {
        use_type_invariant(&*songbook);
    }
    match parse_json_object(json_text) {
        Some(entries) => load_songbook_entries(songbook, &entries),
        None => {},
    }
}

/// Loads a songbook as [`load_songbook`] does when the text is JSON;
/// refuses text that is not JSON and leaves the songbook as it was.
pub fn try_load_songbook(songbook: &mut Songbook, json_text: &str) -> (r: Result<(), SongbookError>)
    ensures
        match json_object_entries(json_text@) {
            Some(entries) => r is Ok && final(songbook)@ == book_insert_all(old(songbook)@, entries),
            None => r == Err::<(), SongbookError>(SongbookError::InvalidJson) && final(songbook)@ == old(songbook)@,
        },
        names_sorted(final(songbook)@),
{
    proof {
        use_type_invariant(&*songbook);
    }
    match parse_json_object(json_text) {
        Some(_) => {
            load_songbook(songbook, json_text);
            Ok(())
        },
        None => Err(SongbookError::InvalidJson),
    }
}

/// The octave digit at the end of a note name, read as a number: a decimal
/// digit gives its value, anything else 0.
pub open spec fn octave_digit(c: char) -> int {
    if c == '0' {
        0
    } else if c == '1' {
        1
    } else if c == '2' {
        2
    } else if c == '3' {
        3
    } else if c == '4' {
        4
    } else if c == '5' {
        5
    } else if c == '6' {
        6
    } else if c == '7' {
        7
    } else if c == '8' {
        8
    } else if c == '9' {
        9
    } else {
        0
    }
}

/// A note moved up (`shift > 0`) or down (`shift < 0`) an octave: its last
/// character is taken as the octave and replaced by the octave plus one, or
/// minus one but not below 0. With `shift == 0` the note is unchanged.
pub open spec fn shift_note(note: Seq<char>, shift: int) -> Seq<char> {
    let d = octave_digit(note.last());
    if shift == 0 {
        note
    } else if shift > 0 {
        note.drop_last() + int_decimal(d + 1)
    } else {
        note.drop_last() + int_decimal(if d >= 1 { d - 1 } else { 0 })
    }
}

/// Each note, shifted, followed by a space.
pub open spec fn rendering(notes: Seq<Seq<char>>, shift: int) -> Seq<char>
    decreases notes.len(),
{
    if notes.len() == 0 {
        Seq::empty()
    } else {
        rendering(notes.drop_last(), shift) + shift_note(notes.last(), shift) + seq![' ']
    }
}

/// The separator between the renderings.
pub open spec fn octave_separator() -> Seq<char> {
    seq!['-', '|', '-']
}

/// The notes as played, one octave up and one octave down, separated by
/// [`octave_separator`]; a melody found anywhere in it is recognized.
pub open spec fn notes_line(notes: Seq<Seq<char>>) -> Seq<char> {
    rendering(notes, 0) + octave_separator() + rendering(notes, 1) + octave_separator() + rendering(
        notes,
        -1,
    )
}

/// The name of the last song in the book whose melody occurs in `line`.
pub open spec fn recognized(book: Seq<(Seq<char>, Seq<char>)>, line: Seq<char>) -> Option<Seq<char>>
    decreases book.len(),
{
    if book.len() == 0 {
        None
    } else if contains_seq(line, book.last().1) {
        Some(book.last().0)
    } else {
        recognized(book.drop_last(), line)
    }
}

/// Every note is non-empty and ends in an ASCII character, so that its last
/// character is also its last byte, where the octave is split off.
pub open spec fn notes_well_ended(notes: Seq<Seq<char>>) -> bool {
    forall|i: int|
        0 <= i < notes.len() ==> #[trigger] notes[i].len() > 0 && (notes[i].last() as int) < 128
}

/// Whether every note is non-empty and ends in an ASCII character, as
/// [`check_played_notes`] requires.
pub fn notes_end_in_ascii(notes: &VecDeque<String>) -> (b: bool)
    ensures
        b == notes_well_ended(texts(notes@)),
{
    let mut i: usize = 0;
    while i < notes.len()
        invariant
            i <= notes@.len(),
            forall|q: int|
                0 <= q < i ==> #[trigger] texts(notes@)[q].len() > 0 && (texts(notes@)[q].last() as int)
                    < 128,
        decreases notes@.len() - i,
    {
        let cs = chars_of(notes[i].as_str());
        if cs.len() == 0 {
            assert(texts(notes@)[i as int].len() == 0);
            return false;
        }
        let c = cs[cs.len() - 1];
        if c > '\u{7f}' {
            assert(!((texts(notes@)[i as int].last() as int) < 128));
            return false;
        }
        i += 1;
    }
    true
}

fn digit_value(c: char) -> (d: i32)
    ensures
        d == octave_digit(c),
{
    match c {
        '0' => 0,
        '1' => 1,
        '2' => 2,
        '3' => 3,
        '4' => 4,
        '5' => 5,
        '6' => 6,
        '7' => 7,
        '8' => 8,
        '9' => 9,
        _ => 0,
    }
}

fn push_shifted(line: &mut String, note: &String, shift: i8)
    requires
        note@.len() > 0,
    ensures
        final(line)@ == old(line)@ + shift_note(note@, shift as int),
{
    let cs = chars_of(note.as_str());
    if shift == 0 {
        push_chars(line, &cs);
        return;
    }
    let n = cs.len();
    let mut j: usize = 0;
    while j < n - 1
        invariant
            n == cs@.len(),
            n > 0,
            j <= n - 1,
            line@ == old(line)@ + cs@.subrange(0, j as int),
        decreases n - 1 - j,
    {
        push_char(line, cs[j]);
        j += 1;
        assert(line@ =~= old(line)@ + cs@.subrange(0, j as int));
    }
    assert(cs@.subrange(0, n - 1) =~= note@.drop_last());
    let d = digit_value(cs[n - 1]);
    let o: i32 = if shift > 0 {
        d + 1
    } else if d >= 1 {
        d - 1
    } else {
        0
    };
    push_int_decimal(line, o as i64);
    assert(line@ =~= old(line)@ + shift_note(note@, shift as int));
}

fn push_rendering(line: &mut String, notes: &VecDeque<String>, shift: i8)
    requires
        notes_well_ended(texts(notes@)),
    ensures
        final(line)@ == old(line)@ + rendering(texts(notes@), shift as int),
{
    let ghost all = texts(notes@);
    let mut i: usize = 0;
    while i < notes.len()
        invariant
            i <= notes@.len(),
            all == texts(notes@),
            notes_well_ended(all),
            line@ == old(line)@ + rendering(all.take(i as int), shift as int),
        decreases notes@.len() - i,
    {
        assert(all.take(i + 1).drop_last() =~= all.take(i as int));
        assert(all[i as int].len() > 0);
        push_shifted(line, &notes[i], shift);
        push_char(line, ' ');
        i += 1;
        assert(line@ =~= old(line)@ + rendering(all.take(i as int), shift as int));
    }
    assert(all.take(i as int) =~= all);
}

fn push_separator(line: &mut String)
    ensures
        final(line)@ == old(line)@ + octave_separator(),
{
    push_char(line, '-');
    push_char(line, '|');
    push_char(line, '-');
    assert(final(line)@ =~= old(line)@ + octave_separator());
}

/// Checks whether the notes played match a song of the songbook.
///
/// The notes are rendered as played, an octave up and an octave down (see
/// [`notes_line`]); when the melody of some song occurs in that text, the
/// notekeeper is replaced by the name of the last such song in name order.
/// Otherwise nothing changes.
pub fn check_played_notes(played_notes: &mut VecDeque<String>, songbook: &mut Songbook)
    requires
        notes_well_ended(texts(old(played_notes)@)),
    ensures
        final(songbook)@ == old(songbook)@,
        names_sorted(final(songbook)@),
        match recognized(old(songbook)@, notes_line(texts(old(played_notes)@))) {
            Some(name) => texts(final(played_notes)@) == seq![name],
            None => final(played_notes)@ == old(played_notes)@,
        },
{
    proof {
        use_type_invariant(&*songbook);
    }
    let ghost line_spec = notes_line(texts(played_notes@));
    let mut line = String::new();
    push_rendering(&mut line, played_notes, 0);
    push_separator(&mut line);
    push_rendering(&mut line, played_notes, 1);
    push_separator(&mut line);
    push_rendering(&mut line, played_notes, -1);
    assert(line@ =~= line_spec);
    let line_chars = chars_of(line.as_str());
    let ghost book = songbook@;
    let ghost q0 = played_notes@;
    let mut i: usize = 0;
    while i < songbook.entries.len()
        invariant
            i <= book.len(),
            songbook@ == book,
            line_chars@ == line_spec,
            match recognized(book.take(i as int), line_spec) {
                Some(name) => texts(played_notes@) == seq![name],
                None => played_notes@ == q0,
            },
        decreases book.len() - i,
    {
        assert(book.take(i + 1).drop_last() =~= book.take(i as int));
        let melody = chars_of(songbook.entries[i].1.as_str());
        if contains_chars(&line_chars, &melody) {
            played_notes.clear();
            played_notes.push_back(songbook.entries[i].0.clone());
            assert(texts(played_notes@) =~= seq![book[i as int].0]);
        }
        i += 1;
    }
    assert(book.take(i as int) =~= book);
}

} // verus!
