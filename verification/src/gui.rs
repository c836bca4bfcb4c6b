//! Decisions of the display program: reading the lines that the listener
//! sends, which song to announce, what to do about the song's audio clip,
//! and the version texts it shows.

use vstd::prelude::*;
use crate::display::field_separator;
use crate::notes::texts;
use crate::text::{chars_of, piece_texts, push_char, push_chars, push_int_decimal, int_decimal, lemma_split_nonempty, split_chars, split_seq, trim_chars, trim_seq};

verus! {

/// The fields of a listener line.
pub open spec fn listener_fields(line: Seq<char>) -> Seq<Seq<char>> {
    split_seq(line, field_separator())
}

/// The separator between the played notes of a listener line.
pub open spec fn played_separator() -> Seq<char> {
    seq!['%']
}

/// The played notes field, split at [`played_separator`], each entry trimmed.
pub open spec fn played_entries(field: Seq<char>) -> Seq<Seq<char>> {
    split_seq(field, played_separator()).map_values(|p: Seq<char>| trim_seq(p))
}

fn string_of(cs: &Vec<char>) -> (s: String)
    ensures
        s@ == cs@,
{
    let mut s = String::new();
    push_chars(&mut s, cs);
    assert(s@ =~= cs@);
    s
}

fn strings_of(pieces: &Vec<Vec<char>>) -> (v: Vec<String>)
    ensures
        texts(v@) == piece_texts(pieces@),
{
    let mut v: Vec<String> = Vec::new();
    let mut i: usize = 0;
    while i < pieces.len()
        invariant
            i <= pieces@.len(),
            texts(v@) == piece_texts(pieces@).take(i as int),
        decreases pieces.len() - i,
    {
        let s = string_of(&pieces[i]);
        let ghost v0 = v@;
        v.push(s);
        assert(v@ == v0.push(s));
        assert(texts(v@) =~= texts(v0).push(s@));
        i += 1;
        assert(texts(v@) =~= piece_texts(pieces@).take(i as int));
    }
    assert(piece_texts(pieces@).take(i as int) =~= piece_texts(pieces@));
    v
}

/// Splits a listener line into its fields.
pub fn listener_line_fields(line: &str) -> (fields: Vec<String>)
    ensures
        texts(fields@) == listener_fields(line@),
{
    let cs = chars_of(line);
    let mut sep: Vec<char> = Vec::new();
    sep.push('|');
    sep.push('|');
    assert(sep@ =~= field_separator());
    let pieces = split_chars(&cs, &sep);
    strings_of(&pieces)
}

/// What the display shows for one listener line.
pub struct ListenerUpdate {
    /// The note being heard, shown as the current note.
    pub note_name: String,
    /// Whether a note (not silence) is being heard.
    pub listening: bool,
    /// The played notes, as listed in the line.
    pub played_notes: Vec<String>,
}

/// Reads the fields of a listener line: the note name is the third field,
/// the played notes the fourth.
pub fn listener_update(fields: &Vec<String>) -> (u: ListenerUpdate)
    requires
        fields@.len() >= 4,
    ensures
        u.note_name@ == fields@[2]@,
        u.listening == (fields@[2]@ != seq!['-', '-']),
        texts(u.played_notes@) == played_entries(fields@[3]@),
        u.played_notes@.len() >= 1,
{
    let note_name = fields[2].clone();
    let mut silence = String::new();
    push_char(&mut silence, '-');
    push_char(&mut silence, '-');
    assert(silence@ =~= seq!['-', '-']);
    let listening = !(note_name == silence);
    let cs = chars_of(fields[3].as_str());
    let mut sep: Vec<char> = Vec::new();
    sep.push('%');
    assert(sep@ =~= played_separator());
    let pieces = split_chars(&cs, &sep);
    let ghost raw = piece_texts(pieces@);
    let mut played: Vec<String> = Vec::new();
    let mut i: usize = 0;
    while i < pieces.len()
        invariant
            i <= pieces@.len(),
            raw == piece_texts(pieces@),
            texts(played@) == raw.take(i as int).map_values(|p: Seq<char>| trim_seq(p)),
        decreases pieces.len() - i,
    {
        let t = trim_chars(&pieces[i]);
        let entry = string_of(&t);
        let ghost p0 = played@;
        played.push(entry);
        assert(played@ == p0.push(entry));
        assert(texts(played@) =~= texts(p0).push(entry@));
        i += 1;
        assert(texts(played@) =~= raw.take(i as int).map_values(|p: Seq<char>| trim_seq(p)));
    }
    assert(raw.take(i as int) =~= raw);
    proof {
        reveal(split_seq);
    }
    ListenerUpdate { note_name, listening, played_notes: played }
}

/// Which sound announces a recognized song.
#[derive(Debug, Clone, Copy, PartialEq, Eq)]
pub enum Cue {
    /// A song of the songbook was played (its entry starts with `o`).
    SongCorrect,
    /// A secret was found (any other first character).
    SecretFound,
}

/// The song announced by the first played entry: entries longer than three
/// bytes are a cue character followed by the song's name.
pub open spec fn announced(first: Seq<char>) -> Option<(Cue, Seq<char>)> {
    if byte_len(first) > 3 {
        Some((if first[0] == 'o' { Cue::SongCorrect } else { Cue::SecretFound }, first.drop_first()))
    } else {
        None
    }
}

/// The number of bytes that UTF-8 takes for `c`.
pub open spec fn utf8_width(c: char) -> int {
    let v = c as int;
    if v < 0x80 {
        1
    } else if v < 0x800 {
        2
    } else if v < 0x10000 {
        3
    } else {
        4
    }
}

/// The length of the UTF-8 encoding of `s` (what `str::len` returns).
pub open spec fn byte_len(s: Seq<char>) -> int
    decreases s.len(),
{
    if s.len() == 0 {
        0
    } else {
        byte_len(s.drop_last()) + utf8_width(s.last())
    }
}

proof fn lemma_byte_len_grows(s: Seq<char>, i: int)
    requires
        0 <= i <= s.len(),
    ensures
        byte_len(s.take(i)) <= byte_len(s),
    decreases s.len(),
{
    if i < s.len() {
        assert(s.drop_last().take(i) =~= s.take(i));
        lemma_byte_len_grows(s.drop_last(), i);
    } else {
        assert(s.take(i) =~= s);
    }
}

fn char_code(c: char) -> (v: u32)
    ensures
        v as int == c as int,
{
    c as u32
}

/// Whether `s` takes more than three bytes in UTF-8.
fn longer_than_three_bytes(s: &Vec<char>) -> (b: bool)
    ensures
        b == (byte_len(s@) > 3),
{
    let mut total: usize = 0;
    let mut i: usize = 0;
    while i < s.len()
        invariant
            i <= s@.len(),
            total == byte_len(s@.take(i as int)),
            total <= 3,
        decreases s.len() - i,
    {
        assert(s@.take(i + 1).drop_last() =~= s@.take(i as int));
        let v = char_code(s[i]);
        let w: usize = if v < 0x80 {
            1
        } else if v < 0x800 {
            2
        } else if v < 0x10000 {
            3
        } else {
            4
        };
        total = total + w;
        i += 1;
        if total > 3 {
            proof {
                lemma_byte_len_grows(s@, i as int);
            }
            return true;
        }
    }
    assert(s@.take(i as int) =~= s@);
    false
}

/// The song announced by the first played entry, if it is one.
pub fn announced_song(first: &str) -> (a: Option<(Cue, String)>)
    requires
        byte_len(first@) > 3 ==> (first@[0] as int) < 128,
    ensures
        match a {
            Some((cue, song)) => announced(first@) == Some((cue, song@)),
            None => announced(first@) is None,
        },
{
    let cs = chars_of(first);
    if longer_than_three_bytes(&cs) {
        let cue = if cs[0] == 'o' {
            Cue::SongCorrect
        } else {
            Cue::SecretFound
        };
        let mut song = String::new();
        let mut i: usize = 1;
        while i < cs.len()
            invariant
                1 <= i <= cs@.len(),
                song@ == cs@.subrange(1, i as int),
            decreases cs.len() - i,
        {
            push_char(&mut song, cs[i]);
            i += 1;
            assert(song@ =~= cs@.subrange(1, i as int));
        }
        assert(song@ =~= first@.drop_first());
        Some((cue, song))
    } else {
        None
    }
}

/// What to do about the announced song.
#[derive(Debug, Clone, Copy, PartialEq, Eq)]
pub enum SongStep {
    /// Nothing to do.
    Nothing,
    /// Show the song, which differs from the one shown; with `start_clip`,
    /// also start playing its clip (only the background task is running).
    Show { start_clip: bool },
    /// The song is already shown and its clip runs: see how the clip is doing.
    PollClip,
}

/// The step for an announced `song`, when `song_playing` is shown and
/// `tasks` audio tasks run (the background task, and the clip if one plays).
pub fn song_step(song: &String, song_playing: &String, tasks: usize) -> (step: SongStep)
    ensures
        step == if song@ != song_playing@ {
            SongStep::Show { start_clip: tasks == 1 }
        } else if tasks == 2 {
            SongStep::PollClip
        } else {
            SongStep::Nothing
        },
{
    if !(*song == *song_playing) {
        SongStep::Show { start_clip: tasks == 1 }
    } else if tasks == 2 {
        SongStep::PollClip
    } else {
        SongStep::Nothing
    }
}

/// How a clip's task is doing.
#[derive(Debug, PartialEq, Eq)]
pub enum ClipStatus {
    /// Still playing.
    Running,
    /// Finished; `success` tells whether it exited successfully, `code` is
    /// its exit code if it has one.
    Finished { success: bool, code: Option<i32> },
    /// Its state could not be queried; the text describes the error.
    QueryFailed(String),
}

/// What to do about a clip.
#[derive(Debug, PartialEq, Eq)]
pub enum ClipAction {
    /// Let it play.
    Wait,
    /// Drop its task and hide the song.
    Finish,
    /// Show this text in place of the song.
    Report(String),
}

/// The text of an optional exit code as `{:?}` writes it.
pub open spec fn debug_code(code: Option<i32>) -> Seq<char> {
    match code {
        Some(c) => seq!['S', 'o', 'm', 'e', '('] + int_decimal(c as int) + seq![')'],
        None => seq!['N', 'o', 'n', 'e'],
    }
}

/// The action for a clip's status: a successful end finishes it; a failed
/// end reports `Err - ` and the exit code; a failed query reports `OSErr - `
/// and the error.
pub open spec fn clip_reaction(status: ClipStatus) -> Option<Seq<char>> {
    match status {
        ClipStatus::Running => None,
        ClipStatus::Finished { success, code } => if success {
            None
        } else {
            Some(seq!['E', 'r', 'r', ' ', '-', ' '] + debug_code(code))
        },
        ClipStatus::QueryFailed(text) => Some(seq!['O', 'S', 'E', 'r', 'r', ' ', '-', ' '] + text@),
    }
}

fn push_literal(s: &mut String, cs: &Vec<char>)
    ensures
        final(s)@ == old(s)@ + cs@,
{
    push_chars(s, cs);
}

/// What to do about a clip in the given state.
pub fn clip_action(status: ClipStatus) -> (action: ClipAction)
    ensures
        match status {
            ClipStatus::Running => action == ClipAction::Wait,
            ClipStatus::Finished { success: true, .. } => action == ClipAction::Finish,
            _ => action matches ClipAction::Report(text) && Some(text@) == clip_reaction(status),
        },
{
    match status {
        ClipStatus::Running => ClipAction::Wait,
        ClipStatus::Finished { success, code } => {
            if success {
                ClipAction::Finish
            } else {
                let mut text = String::new();
                let prefix: Vec<char> = vec!['E', 'r', 'r', ' ', '-', ' '];
                push_literal(&mut text, &prefix);
                match code {
                    Some(c) => {
                        let some: Vec<char> = vec!['S', 'o', 'm', 'e', '('];
                        push_literal(&mut text, &some);
                        push_int_decimal(&mut text, c as i64);
                        push_char(&mut text, ')');
                    },
                    None => {
                        let none: Vec<char> = vec!['N', 'o', 'n', 'e'];
                        push_literal(&mut text, &none);
                    },
                }
                assert(text@ =~= seq!['E', 'r', 'r', ' ', '-', ' '] + debug_code(code));
                ClipAction::Report(text)
            }
        },
        ClipStatus::QueryFailed(error) => {
            let mut text = String::new();
            let prefix: Vec<char> = vec!['O', 'S', 'E', 'r', 'r', ' ', '-', ' '];
            push_literal(&mut text, &prefix);
            push_chars(&mut text, &chars_of(error.as_str()));
            assert(text@ =~= seq!['O', 'S', 'E', 'r', 'r', ' ', '-', ' '] + error@);
            ClipAction::Report(text)
        },
    }
}

/// `s` trimmed of white space at both ends.
pub fn trimmed(s: &str) -> (t: String)
    ensures
        t@ == trim_seq(s@),
{
    let t = trim_chars(&chars_of(s));
    string_of(&t)
}

/// The text shown for a version: the command's output trimmed, or
/// `unknown` when there is none.
pub fn version_or_unknown(output: Option<&str>) -> (v: String)
    ensures
        v@ == match output {
            Some(text) => trim_seq(text@),
            None => unknown_text(),
        },
{
    match output {
        Some(text) => trimmed(text),
        None => unknown_string(),
    }
}

/// The text shown for a version that could not be found.
pub open spec fn unknown_text() -> Seq<char> {
    seq!['u', 'n', 'k', 'n', 'o', 'w', 'n']
}

fn unknown_string() -> (s: String)
    ensures
        s@ == unknown_text(),
{
    let cs: Vec<char> = vec!['u', 'n', 'k', 'n', 'o', 'w', 'n'];
    let s = string_of(&cs);
    assert(s@ =~= unknown_text());
    s
}

/// A line without the carriage return that ends it, if any.
pub open spec fn strip_carriage_return(p: Seq<char>) -> Seq<char> {
    if p.len() > 0 && p.last() == '\r' {
        p.drop_last()
    } else {
        p
    }
}

/// The lines of a text as `str::lines` gives them: split at `\n`, a `\r`
/// before a `\n` dropped, and no line after a final `\n`.
pub open spec fn text_lines(s: Seq<char>) -> Seq<Seq<char>> {
    let ps = split_seq(s, seq!['\n']);
    let body = ps.drop_last().map_values(|p: Seq<char>| strip_carriage_return(p));
    if ps.len() == 0 || ps.last().len() == 0 {
        body
    } else {
        body.push(ps.last())
    }
}

/// `p` begins `s`.
pub open spec fn starts_with(s: Seq<char>, p: Seq<char>) -> bool {
    p.len() <= s.len() && s.take(p.len() as int) == p
}

/// The key of the version line of an os-release file.
pub open spec fn version_key() -> Seq<char> {
    seq!['V', 'E', 'R', 'S', 'I', 'O', 'N', '=']
}

/// The first line that starts with the version key.
pub open spec fn first_version_line(lines: Seq<Seq<char>>) -> Option<Seq<char>>
    decreases lines.len(),
{
    if lines.len() == 0 {
        None
    } else if starts_with(lines[0], version_key()) {
        Some(lines[0])
    } else {
        first_version_line(lines.drop_first())
    }
}

/// `s` with every leading repetition of the non-empty `p` removed.
pub open spec fn strip_prefixes(s: Seq<char>, p: Seq<char>) -> Seq<char>
    decreases s.len(),
{
    if p.len() > 0 && starts_with(s, p) {
        strip_prefixes(s.skip(p.len() as int), p)
    } else {
        s
    }
}

/// `s` without leading `c` characters.
pub open spec fn trim_start_char(s: Seq<char>, c: char) -> Seq<char>
    decreases s.len(),
{
    if s.len() > 0 && s[0] == c {
        trim_start_char(s.drop_first(), c)
    } else {
        s
    }
}

/// `s` without trailing `c` characters.
pub open spec fn trim_end_char(s: Seq<char>, c: char) -> Seq<char>
    decreases s.len(),
{
    if s.len() > 0 && s.last() == c {
        trim_end_char(s.drop_last(), c)
    } else {
        s
    }
}

/// The operating system's version from an os-release text: the first line
/// starting `VERSION=`, without its `VERSION=` prefixes and surrounding
/// double quotes; `unknown` when there is no such line.
pub open spec fn os_version_text(release: Seq<char>) -> Seq<char> {
    match first_version_line(text_lines(release)) {
        Some(line) => trim_end_char(trim_start_char(strip_prefixes(line, version_key()), '"'), '"'),
        None => unknown_text(),
    }
}

fn begins_with(s: &Vec<char>, p: &Vec<char>, from: usize) -> (b: bool)
    requires
        from <= s@.len(),
    ensures
        b == starts_with(s@.skip(from as int), p@),
{
    let ghost rest = s@.skip(from as int);
    if p.len() > s.len() - from {
        return false;
    }
    let mut j: usize = 0;
    while j < p.len()
        invariant
            from + p.len() <= s.len(),
            rest == s@.skip(from as int),
            j <= p@.len(),
            forall|q: int| 0 <= q < j ==> rest[q] == p@[q],
        decreases p.len() - j,
    {
        if s[from + j] != p[j] {
            assert(rest.take(p@.len() as int)[j as int] != p@[j as int]);
            return false;
        }
        j += 1;
    }
    assert(rest.take(p@.len() as int) =~= p@);
    true
}

fn version_value(line: &Vec<char>) -> (v: String)
    ensures
        v@ == trim_end_char(trim_start_char(strip_prefixes(line@, version_key()), '"'), '"'),
{
    let key: Vec<char> = vec!['V', 'E', 'R', 'S', 'I', 'O', 'N', '='];
    assert(key@ =~= version_key());
    let n = line.len();
    let mut i: usize = 0;
    assert(line@.skip(0) =~= line@);
    while begins_with(line, &key, i)
        invariant
            n == line@.len(),
            i <= n,
            key@ == version_key(),
            strip_prefixes(line@, version_key()) == strip_prefixes(line@.skip(i as int), version_key()),
        decreases n - i,
    {
        assert(line@.skip(i as int).skip(8) =~= line@.skip(i + 8));
        i = i + 8;
    }
    let ghost stripped = line@.skip(i as int);
    while i < n && line[i] == '"'
        invariant
            n == line@.len(),
            i <= n,
            trim_start_char(stripped, '"') == trim_start_char(line@.skip(i as int), '"'),
        decreases n - i,
    {
        assert(line@.skip(i as int).drop_first() =~= line@.skip(i + 1));
        i += 1;
    }
    let ghost rest = line@.skip(i as int);
    let mut j: usize = n;
    assert(rest.take(rest.len() as int) =~= rest);
    while j > i && line[j - 1] == '"'
        invariant
            n == line@.len(),
            i <= j <= n,
            rest == line@.skip(i as int),
            trim_end_char(rest, '"') == trim_end_char(rest.take(j - i), '"'),
        decreases j,
    {
        assert(rest.take(j - i).drop_last() =~= rest.take(j - i - 1));
        j -= 1;
    }
    let mut v = String::new();
    let mut k: usize = i;
    while k < j
        invariant
            i <= k <= j <= n,
            n == line@.len(),
            v@ == line@.subrange(i as int, k as int),
        decreases j - k,
    {
        push_char(&mut v, line[k]);
        k += 1;
        assert(v@ =~= line@.subrange(i as int, k as int));
    }
    assert(v@ =~= rest.take(j - i));
    v
}

proof fn lemma_first_version_line_skip(lines: Seq<Seq<char>>, k: int)
    requires
        0 <= k < lines.len(),
        !starts_with(lines[k], version_key()),
    ensures
        first_version_line(lines.skip(k)) == first_version_line(lines.skip(k + 1)),
{
    assert(lines.skip(k).drop_first() =~= lines.skip(k + 1));
}

/// The operating system's version found in an os-release text.
pub fn os_version_from_release(release: &str) -> (v: String)
    ensures
        v@ == os_version_text(release@),
{
    let cs = chars_of(release);
    let nl: Vec<char> = vec!['\n'];
    assert(nl@ =~= seq!['\n']);
    let pieces = split_chars(&cs, &nl);
    let key: Vec<char> = vec!['V', 'E', 'R', 'S', 'I', 'O', 'N', '='];
    assert(key@ =~= version_key());
    let ghost ps = piece_texts(pieces@);
    let ghost lines = text_lines(release@);
    proof {
        lemma_split_nonempty(release@, seq!['\n']);
    }
    let n = pieces.len();
    let last_is_line = pieces[n - 1].len() > 0;
    let count: usize = if last_is_line {
        n
    } else {
        n - 1
    };
    assert(lines.len() == count);
    let mut k: usize = 0;
    assert(lines.skip(0) =~= lines);
    while k < count
        invariant
            n == pieces@.len(),
            n >= 1,
            ps == piece_texts(pieces@),
            ps == split_seq(release@, seq!['\n']),
            lines == text_lines(release@),
            lines.len() == count,
            key@ == version_key(),
            k <= count,
            first_version_line(lines) == first_version_line(lines.skip(k as int)),
        decreases count - k,
    {
        let line: Vec<char> = if k < n - 1 {
            let p = &pieces[k];
            let m = p.len();
            if m > 0 && p[m - 1] == '\r' {
                let mut t: Vec<char> = Vec::new();
                let mut q: usize = 0;
                while q < m - 1
                    invariant
                        m == p@.len(),
                        m > 0,
                        q <= m - 1,
                        t@ == p@.subrange(0, q as int),
                    decreases m - 1 - q,
                {
                    t.push(p[q]);
                    q += 1;
                }
                assert(t@ =~= p@.drop_last());
                t
            } else {
                p.clone()
            }
        } else {
            pieces[k].clone()
        };
        assert(line@ == lines[k as int]);
        if begins_with(&line, &key, 0) {
            assert(line@.skip(0) =~= line@);
            assert(lines.skip(k as int)[0] == lines[k as int]);
            return version_value(&line);
        }
        assert(line@.skip(0) =~= line@);
        proof {
            lemma_first_version_line_skip(lines, k as int);
        }
        k += 1;
    }
    assert(lines.skip(k as int).len() == 0);
    unknown_string()
}

/// The name of a cue's sound file.
pub open spec fn cue_file(cue: Cue) -> Seq<char> {
    match cue {
        Cue::SongCorrect => "song_correct"@,
        Cue::SecretFound => "secret_found"@,
    }
}

/// The shell command that plays a cue, then the song's clip.
pub open spec fn clip_command_text(cue: Cue, song: Seq<char>) -> Seq<char> {
    "aplay -D plughw:CARD=b1,DEV=0 /usr/share/ocarina/sounds/"@ + cue_file(cue)
        + ".wav && aplay -D plughw:CARD=b1,DEV=0 \"/usr/share/ocarina/sounds/"@ + song
        + ".wav\""@
}

/// The shell command that plays the cue and then the clip of `song`.
pub fn clip_command(cue: Cue, song: &str) -> (command: String)
    ensures
        command@ == clip_command_text(cue, song@),
{
    let mut command = String::from_str("aplay -D plughw:CARD=b1,DEV=0 /usr/share/ocarina/sounds/");
    match cue {
        Cue::SongCorrect => command.append("song_correct"),
        Cue::SecretFound => command.append("secret_found"),
    }
    command.append(".wav && aplay -D plughw:CARD=b1,DEV=0 \"/usr/share/ocarina/sounds/");
    command.append(song);
    command.append(".wav\"");
    command
}

/// How long the shown IP address stays before it is looked up again.
pub const IP_REFRESH_MS: u64 = 1500;

/// What the display does on a listener line about its IP address and
/// version texts.
#[derive(Debug, Clone, Copy, PartialEq, Eq)]
pub struct RefreshStep {
    /// Look up and show the IP address again.
    pub refresh_ip: bool,
    /// Also set the version texts (on the first lookup only).
    pub set_versions: bool,
}

/// The refresh step when `elapsed_ms` have passed since the last lookup and
/// `looked_up_before` tells whether a lookup has happened yet.
pub fn refresh_step(elapsed_ms: u64, looked_up_before: bool) -> (step: RefreshStep)
    ensures
        step.refresh_ip == (elapsed_ms >= IP_REFRESH_MS),
        step.set_versions == (elapsed_ms >= IP_REFRESH_MS && !looked_up_before),
{
    let refresh_ip = elapsed_ms >= IP_REFRESH_MS;
    RefreshStep { refresh_ip, set_versions: refresh_ip && !looked_up_before }
}

} // verus!
