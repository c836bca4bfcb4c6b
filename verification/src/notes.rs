//! Naming notes and interpreting batches of pitch samples into played notes.
//!
//! A sample is a semitone offset from C4 (`0` is C4, `9` is A4), or
//! `i16::MIN` for a sample in which nothing was heard.  A batch of samples is
//! interpreted as the note whose pitch class and octave are each the most
//! frequent among the sounded samples, provided more than half of a full
//! batch was sounded.

use vstd::prelude::*;
use std::collections::VecDeque;
use crate::text::{int_decimal, push_char, push_int_decimal};

verus! {

/// Number of samples that make up one batch.
pub const BATCH_LEN: usize = 30;

/// More than this many sounded samples are needed in a batch to hear a note.
pub const MIN_SOUNDED: usize = 15;

/// The notekeeper keeps at most this many notes, dropping the oldest.
pub const NOTEKEEPER_CAP: usize = 8;

/// The marker stored for silence.
pub open spec fn silence_name() -> Seq<char> {
    seq!['-', '-']
}

/// Whether a sample holds a pitch (as opposed to silence).
pub open spec fn is_sounded(n: i16) -> bool {
    n != i16::MIN
}

/// Name of the pitch class `t` (in `0..12`), starting from C.
pub open spec fn pitch_class_name(t: int) -> Seq<char> {
    if t == 0 {
        seq!['C']
    } else if t == 1 {
        seq!['C', '#']
    } else if t == 2 {
        seq!['D']
    } else if t == 3 {
        seq!['D', '#']
    } else if t == 4 {
        seq!['E']
    } else if t == 5 {
        seq!['F']
    } else if t == 6 {
        seq!['F', '#']
    } else if t == 7 {
        seq!['G']
    } else if t == 8 {
        seq!['G', '#']
    } else if t == 9 {
        seq!['A']
    } else if t == 10 {
        seq!['A', '#']
    } else {
        seq!['B']
    }
}

/// The name given to a semitone offset from C4: its pitch class followed by
/// its octave (C4 is 0, B3 is -1).
pub open spec fn note_name_seq(semitones: int) -> Seq<char> {
    pitch_class_name(semitones % 12) + int_decimal(semitones / 12 + 4)
}

/// The key that a sample is counted under: its pitch class, or its octave
/// (floor division by 12, plus 4, at least 1).
pub open spec fn sample_key(n: i16, by_octave: bool) -> int {
    if by_octave {
        let o = (n as int) / 12 + 4;
        if o < 1 {
            1
        } else {
            o
        }
    } else {
        (n as int) % 12
    }
}

/// The range that keys of sounded samples fall in.
pub open spec fn key_in_range(k: int, by_octave: bool) -> bool {
    if by_octave {
        1 <= k <= 2734
    } else {
        0 <= k < 12
    }
}

/// How many sounded samples of `s` have key `k`.
pub open spec fn key_count(s: Seq<i16>, by_octave: bool, k: int) -> nat
    decreases s.len(),
{
    if s.len() == 0 {
        0
    } else {
        key_count(s.drop_last(), by_octave, k) + if is_sounded(s.last()) && sample_key(
            s.last(),
            by_octave,
        ) == k {
            1nat
        } else {
            0nat
        }
    }
}

/// How many samples of `s` are sounded.
pub open spec fn sounded_count(s: Seq<i16>) -> nat
    decreases s.len(),
{
    if s.len() == 0 {
        0
    } else {
        sounded_count(s.drop_last()) + if is_sounded(s.last()) {
            1nat
        } else {
            0nat
        }
    }
}

/// `k` is the most frequent key of `s`; among equally frequent keys, the largest.
pub open spec fn is_mode(s: Seq<i16>, by_octave: bool, k: int) -> bool {
    &&& key_count(s, by_octave, k) >= 1
    &&& forall|j: int| #[trigger] key_count(s, by_octave, j) <= key_count(s, by_octave, k)
    &&& forall|j: int| j > k ==> #[trigger] key_count(s, by_octave, j) < key_count(s, by_octave, k)
}

/// The most frequent key of `s` (largest on ties).
pub open spec fn mode(s: Seq<i16>, by_octave: bool) -> int {
    choose|k: int| is_mode(s, by_octave, k)
}

/// The semitone offset that a batch is heard as.
pub open spec fn played_semitone(s: Seq<i16>) -> int {
    mode(s, false) + (mode(s, true) - 4) * 12
}

/// The name that a batch is heard as: a note, or silence when no more than
/// `MIN_SOUNDED` of its samples are sounded.
pub open spec fn heard_name(s: Seq<i16>) -> Seq<char> {
    if sounded_count(s) > MIN_SOUNDED {
        note_name_seq(played_semitone(s))
    } else {
        silence_name()
    }
}

/// A batch that [`interpret_note`] accepts: no pitch class and no octave
/// occurs more than `i8::MAX` times (the range of a note counter), and the
/// heard semitone fits an `i16`.
pub open spec fn batch_fits(s: Seq<i16>) -> bool {
    &&& forall|k: int| #[trigger] key_count(s, false, k) <= i8::MAX
    &&& forall|k: int| #[trigger] key_count(s, true, k) <= i8::MAX
    &&& sounded_count(s) > MIN_SOUNDED ==> played_semitone(s) <= i16::MAX
}

/// Two keys that are both modes are equal.
pub proof fn lemma_mode_unique(s: Seq<i16>, by_octave: bool, a: int, b: int)
    requires
        is_mode(s, by_octave, a),
        is_mode(s, by_octave, b),
    ensures
        a == b,
{
    if a < b {
        assert(key_count(s, by_octave, b) < key_count(s, by_octave, a));
        assert(key_count(s, by_octave, a) <= key_count(s, by_octave, b));
    } else if b < a {
        assert(key_count(s, by_octave, a) < key_count(s, by_octave, b));
        assert(key_count(s, by_octave, b) <= key_count(s, by_octave, a));
    }
}

/// A mode, once exhibited, is the mode.
pub proof fn lemma_mode_is(s: Seq<i16>, by_octave: bool, k: int)
    requires
        is_mode(s, by_octave, k),
    ensures
        mode(s, by_octave) == k,
{
    lemma_mode_unique(s, by_octave, mode(s, by_octave), k);
}

/// A key occurs at most as often as there are samples.
proof fn lemma_key_count_bound(s: Seq<i16>, by_octave: bool, k: int)
    ensures
        key_count(s, by_octave, k) <= s.len(),
    decreases s.len(),
{
    if s.len() > 0 {
        lemma_key_count_bound(s.drop_last(), by_octave, k);
    }
}

fn pitch_class_chars(s: &mut String, t: i16)
    requires
        0 <= t < 12,
    ensures
        final(s)@ == old(s)@ + pitch_class_name(t as int),
{
    let ghost s0 = s@;
    if t == 0 {
        push_char(s, 'C');
    } else if t == 1 {
        push_char(s, 'C');
        push_char(s, '#');
    } else if t == 2 {
        push_char(s, 'D');
    } else if t == 3 {
        push_char(s, 'D');
        push_char(s, '#');
    } else if t == 4 {
        push_char(s, 'E');
    } else if t == 5 {
        push_char(s, 'F');
    } else if t == 6 {
        push_char(s, 'F');
        push_char(s, '#');
    } else if t == 7 {
        push_char(s, 'G');
    } else if t == 8 {
        push_char(s, 'G');
        push_char(s, '#');
    } else if t == 9 {
        push_char(s, 'A');
    } else if t == 10 {
        push_char(s, 'A');
        push_char(s, '#');
    } else {
        push_char(s, 'B');
    }
    assert(s@ =~= s0 + pitch_class_name(t as int));
}

/// The name of a semitone offset from C4, such as `C4`, `A#4` or `G3`.
pub fn note_name(semitones: i16) -> (name: String)
    ensures
        name@ == note_name_seq(semitones as int),
{
    let t = semitones.checked_rem_euclid(12).unwrap();
    let q = semitones.checked_div_euclid(12).unwrap();
    let mut name = String::new();
    pitch_class_chars(&mut name, t);
    push_int_decimal(&mut name, q as i64 + 4);
    assert(name@ =~= note_name_seq(semitones as int));
    name
}

/// The silence marker as a string.
pub fn silence_string() -> (s: String)
    ensures
        s@ == silence_name(),
{
    let mut s = String::new();
    push_char(&mut s, '-');
    push_char(&mut s, '-');
    assert(s@ =~= silence_name());
    s
}

fn key_of(n: i16, by_octave: bool) -> (k: i16)
    requires
        is_sounded(n),
    ensures
        k == sample_key(n, by_octave),
        key_in_range(k as int, by_octave),
{
    if by_octave {
        let d = n.checked_div_euclid(12).unwrap();
        let o = d + 4;
        if o < 1 {
            1
        } else {
            o
        }
    } else {
        n.checked_rem_euclid(12).unwrap()
    }
}

/// A tally of keys: distinct keys, each with its exact positive count in
/// `s`, and every key that occurs in `s` listed.
pub open spec fn is_tally(t: Seq<(i16, usize)>, s: Seq<i16>, by_octave: bool) -> bool {
    &&& forall|i: int, j: int| 0 <= i < j < t.len() ==> t[i].0 != t[j].0
    &&& forall|i: int|
        0 <= i < t.len() ==> {
            &&& t[i].1 as int == key_count(s, by_octave, t[i].0 as int)
            &&& t[i].1 >= 1
            &&& key_in_range(t[i].0 as int, by_octave)
        }
    &&& forall|k: int|
        key_count(s, by_octave, k) >= 1 ==> exists|i: int| 0 <= i < t.len() && t[i].0 == k
}

fn tally(notes: &Vec<i16>, by_octave: bool) -> (res: (Vec<(i16, usize)>, usize))
    ensures
        is_tally(res.0@, notes@, by_octave),
        res.1 == sounded_count(notes@),
        res.1 > 0 ==> res.0@.len() > 0,
{
    let mut t: Vec<(i16, usize)> = Vec::new();
    let mut sounded: usize = 0;
    let mut i: usize = 0;
    while i < notes.len()
        invariant
            i <= notes.len(),
            is_tally(t@, notes@.take(i as int), by_octave),
            sounded == sounded_count(notes@.take(i as int)),
            sounded <= i,
            sounded > 0 ==> t@.len() > 0,
        decreases notes.len() - i,
    {
        let ghost pre = notes@.take(i as int);
        let ghost post = notes@.take(i + 1);
        let ghost t0 = t@;
        assert(post.drop_last() =~= pre);
        let n = notes[i];
        assert(post.last() == n);
        assert forall|kk: int| #[trigger] key_count(post, by_octave, kk) == key_count(pre, by_octave, kk)
            + if is_sounded(n) && sample_key(n, by_octave) == kk { 1int } else { 0int } by {}
        if n != i16::MIN {
            let k = key_of(n, by_octave);
            let mut j: usize = 0;
            while j < t.len()
                invariant
                    t@ == t0,
                    j <= t.len(),
                    forall|q: int| 0 <= q < j ==> t@[q].0 != k,
                ensures
                    t@ == t0,
                    j <= t.len(),
                    forall|q: int| 0 <= q < j ==> t@[q].0 != k,
                    j < t.len() ==> t@[j as int].0 == k,
                decreases t.len() - j,
            {
                if t[j].0 == k {
                    break;
                }
                j += 1;
            }
            if j < t.len() {
                let c = t[j].1;
                proof {
                    lemma_key_count_bound(pre, by_octave, k as int);
                }
                assert(c as int == key_count(pre, by_octave, k as int));
                assert(key_count(post, by_octave, k as int) == c + 1);
                t.set(j, (k, c + 1));
                assert forall|q: int| 0 <= q < t@.len() implies {
                    &&& t@[q].1 as int == key_count(post, by_octave, t@[q].0 as int)
                    &&& t@[q].1 >= 1
                    &&& key_in_range(t@[q].0 as int, by_octave)
                } by {
                    if q != j {
                        assert(t@[q] == t0[q]);
                    }
                }
                assert forall|kk: int| key_count(post, by_octave, kk) >= 1 implies exists|q: int|
                    0 <= q < t@.len() && t@[q].0 == kk by {
                    if kk != k {
                        let q = choose|q: int| 0 <= q < t0.len() && t0[q].0 == kk;
                        assert(t@[q].0 == kk);
                    } else {
                        assert(t@[j as int].0 == kk);
                    }
                }
            } else {
                t.push((k, 1));
                assert forall|q: int| 0 <= q < t@.len() implies {
                    &&& t@[q].1 as int == key_count(post, by_octave, t@[q].0 as int)
                    &&& t@[q].1 >= 1
                    &&& key_in_range(t@[q].0 as int, by_octave)
                } by {
                    if q < t0.len() {
                        assert(t@[q] == t0[q]);
                    } else {
                        assert(key_count(pre, by_octave, k as int) == 0) by {
                            if key_count(pre, by_octave, k as int) >= 1 {
                                let w = choose|w: int| 0 <= w < t0.len() && t0[w].0 == k;
                                assert(t0[w].0 != k);
                            }
                        }
                    }
                }
                assert forall|kk: int| key_count(post, by_octave, kk) >= 1 implies exists|q: int|
                    0 <= q < t@.len() && t@[q].0 == kk by {
                    if kk != k {
                        let q = choose|q: int| 0 <= q < t0.len() && t0[q].0 == kk;
                        assert(t@[q].0 == kk);
                    } else {
                        assert(t@[t0.len() as int].0 == kk);
                    }
                }
            }
            sounded += 1;
        } else {
            assert forall|kk: int| key_count(post, by_octave, kk) == key_count(pre, by_octave, kk) by {}
        }
        i += 1;
    }
    assert(notes@.take(notes.len() as int) =~= notes@);
    (t, sounded)
}

/// The most frequent key of a non-empty tally (largest key on ties).
fn mode_of(t: &Vec<(i16, usize)>, Ghost(s): Ghost<Seq<i16>>, Ghost(by_octave): Ghost<bool>) -> (k: i16)
    requires
        t@.len() > 0,
        is_tally(t@, s, by_octave),
    ensures
        is_mode(s, by_octave, k as int),
        key_in_range(k as int, by_octave),
{
    let mut best: usize = 0;
    let mut i: usize = 1;
    while i < t.len()
        invariant
            is_tally(t@, s, by_octave),
            best < i <= t.len(),
            forall|q: int| 0 <= q < i ==> t@[q].1 <= t@[best as int].1,
            forall|q: int|
                0 <= q < i && t@[q].0 > t@[best as int].0 ==> t@[q].1 < t@[best as int].1,
        decreases t.len() - i,
    {
        if t[i].1 > t[best].1 || (t[i].1 == t[best].1 && t[i].0 > t[best].0) {
            best = i;
        }
        i += 1;
    }
    let k = t[best].0;
    assert forall|j: int| #[trigger] key_count(s, by_octave, j) <= key_count(s, by_octave, k as int) by {
        if key_count(s, by_octave, j) >= 1 {
            let q = choose|q: int| 0 <= q < t@.len() && t@[q].0 == j;
            assert(t@[q].1 <= t@[best as int].1);
        }
    }
    assert forall|j: int| j > k implies #[trigger] key_count(s, by_octave, j) < key_count(
        s,
        by_octave,
        k as int,
    ) by {
        if key_count(s, by_octave, j) >= 1 {
            let q = choose|q: int| 0 <= q < t@.len() && t@[q].0 == j;
            assert(t@[q].1 < t@[best as int].1);
        }
    }
    k
}

/// The text of each string of a sequence.
pub open spec fn texts(q: Seq<String>) -> Seq<Seq<char>> {
    q.map_values(|s: String| s@)
}

/// The notekeeper after a note is added: appended at the back, and the
/// oldest entry dropped once there are more than `NOTEKEEPER_CAP`.
pub open spec fn keep_recent(q: Seq<Seq<char>>, x: Seq<char>) -> Seq<Seq<char>> {
    let p = q.push(x);
    if p.len() > NOTEKEEPER_CAP {
        p.drop_first()
    } else {
        p
    }
}

/// The notekeeper after a batch heard as `heard`, when `last` was heard before:
/// a new, sounded note is kept; a repeat of the last note or silence is not.
pub open spec fn next_notekeeper(played: Seq<Seq<char>>, last: Seq<char>, heard: Seq<char>) -> Seq<
    Seq<char>,
> {
    if heard == last || heard == silence_name() {
        played
    } else {
        keep_recent(played, heard)
    }
}

/// What interpreting a backlog does to the backlog, the notekeeper and the
/// last note heard: a backlog shorter than `BATCH_LEN` is left to grow;
/// a full one is emptied and heard as [`heard_name`], which becomes the last
/// note and goes to the notekeeper as [`next_notekeeper`] says.
pub open spec fn interpretation(backlog: Seq<i16>, played: Seq<Seq<char>>, last: Seq<char>) -> (
    Seq<i16>,
    Seq<Seq<char>>,
    Seq<char>,
) {
    if backlog.len() < BATCH_LEN {
        (backlog, played, last)
    } else {
        let heard = heard_name(backlog);
        (Seq::empty(), next_notekeeper(played, last, heard), heard)
    }
}

/// Interprets the backlog of samples once it holds `BATCH_LEN` or more
/// (see [`interpretation`]); a shorter backlog changes nothing.
pub fn interpret_note(
    initial_notes: &mut Vec<i16>,
    notes_played: &mut VecDeque<String>,
    last_note: &mut String,
)
    requires
        old(initial_notes)@.len() >= BATCH_LEN ==> batch_fits(old(initial_notes)@),
    ensures
        (final(initial_notes)@, texts(final(notes_played)@), final(last_note)@) == interpretation(
            old(initial_notes)@,
            texts(old(notes_played)@),
            old(last_note)@,
        ),
        old(initial_notes)@.len() < BATCH_LEN ==> final(notes_played)@ == old(notes_played)@,
{
    if initial_notes.len() >= BATCH_LEN {
        let ghost batch = initial_notes@;
        let (tones, sounded) = tally(initial_notes, false);
        let (octaves, _) = tally(initial_notes, true);
        initial_notes.clear();
        let mut note_played = silence_string();
        if sounded > MIN_SOUNDED {
            let t = mode_of(&tones, Ghost(batch), Ghost(false));
            let o = mode_of(&octaves, Ghost(batch), Ghost(true));
            proof {
                lemma_mode_is(batch, false, t as int);
                lemma_mode_is(batch, true, o as int);
            }
            let semitone: i16 = t + (o - 4) * 12;
            note_played = note_name(semitone);
        }
        assert(note_played@ == heard_name(batch));
        if !(note_played == *last_note) {
            let ghost q0 = notes_played@;
            *last_note = note_played.clone();
            let silence = silence_string();
            if !(note_played == silence) {
                notes_played.push_back(note_played);
                assert(texts(notes_played@) =~= texts(q0).push(last_note@));
                if notes_played.len() > NOTEKEEPER_CAP {
                    let ghost q1 = notes_played@;
                    notes_played.pop_front();
                    assert(texts(notes_played@) =~= texts(q1).drop_first());
                }
            }
        }
    }
}

fn counts_at_most(t: &Vec<(i16, usize)>, limit: usize, Ghost(s): Ghost<Seq<i16>>, Ghost(by_octave): Ghost<bool>) -> (b: bool)
    requires
        is_tally(t@, s, by_octave),
    ensures
        b == forall|k: int| #[trigger] key_count(s, by_octave, k) <= limit,
{
    let mut i: usize = 0;
    while i < t.len()
        invariant
            i <= t.len(),
            is_tally(t@, s, by_octave),
            forall|q: int| 0 <= q < i ==> t@[q].1 <= limit,
        decreases t.len() - i,
    {
        if t[i].1 > limit {
            assert(key_count(s, by_octave, t@[i as int].0 as int) > limit);
            return false;
        }
        i += 1;
    }
    assert forall|k: int| #[trigger] key_count(s, by_octave, k) <= limit by {
        if key_count(s, by_octave, k) >= 1 {
            let q = choose|q: int| 0 <= q < t@.len() && t@[q].0 == k;
        }
    }
    true
}

/// Whether [`interpret_note`] can be called on this backlog: a short one
/// always, a full one when [`batch_fits`] holds of it.
pub fn can_interpret(initial_notes: &Vec<i16>) -> (b: bool)
    ensures
        b == (initial_notes@.len() >= BATCH_LEN ==> batch_fits(initial_notes@)),
{
    if initial_notes.len() < BATCH_LEN {
        return true;
    }
    let ghost batch = initial_notes@;
    let (tones, sounded) = tally(initial_notes, false);
    let (octaves, _) = tally(initial_notes, true);
    if !counts_at_most(&tones, 127, Ghost(batch), Ghost(false)) {
        return false;
    }
    if !counts_at_most(&octaves, 127, Ghost(batch), Ghost(true)) {
        return false;
    }
    if sounded > MIN_SOUNDED {
        let t = mode_of(&tones, Ghost(batch), Ghost(false));
        let o = mode_of(&octaves, Ghost(batch), Ghost(true));
        proof {
            lemma_mode_is(batch, false, t as int);
            lemma_mode_is(batch, true, o as int);
        }
        let semitone: i32 = t as i32 + (o as i32 - 4) * 12;
        semitone <= 32767
    } else {
        true
    }
}

/// The sample stored for a detected pitch, or for silence.
pub open spec fn sample_value(pitch: Option<i16>) -> i16 {
    match pitch {
        Some(s) => s,
        None => i16::MIN,
    }
}

/// The name shown for a detected pitch, or for silence.
pub open spec fn sample_name(pitch: Option<i16>) -> Seq<char> {
    match pitch {
        Some(s) => note_name_seq(s as int),
        None => silence_name(),
    }
}

/// Adds one pitch sample to the backlog and interprets it.
///
/// `pitch` is the detected semitone offset from C4, or `None` when the
/// sample was too quiet or no pitch was found. Returns the sample value and
/// the name to display for it.
pub fn register_pitch(
    pitch: Option<i16>,
    notes_played: &mut VecDeque<String>,
    initial_notes: &mut Vec<i16>,
    last_note: &mut String,
) -> (shown: (i16, String))
    requires
        old(initial_notes)@.push(sample_value(pitch)).len() >= BATCH_LEN ==> batch_fits(
            old(initial_notes)@.push(sample_value(pitch)),
        ),
    ensures
        shown.0 == sample_value(pitch),
        shown.1@ == sample_name(pitch),
        (final(initial_notes)@, texts(final(notes_played)@), final(last_note)@) == interpretation(
            old(initial_notes)@.push(sample_value(pitch)),
            texts(old(notes_played)@),
            old(last_note)@,
        ),
{
    let (semitones, name) = match pitch {
        Some(s) => (s, note_name(s)),
        None => (i16::MIN, silence_string()),
    };
    initial_notes.push(semitones);
    interpret_note(initial_notes, notes_played, last_note);
    (semitones, name)
}

} // verus!
