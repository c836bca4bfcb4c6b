//! Character-level helpers on strings: decimal rendering, character
//! extraction and substring search, each specified over `Seq<char>`.

use vstd::prelude::*;
use vstd::string::*;

verus! {

/// The ASCII digit for `d` (expected in `0..10`).
pub open spec fn digit_char(d: int) -> char {
    (d + 48) as char
}

/// Decimal digits of a natural number, most significant first, no leading zeros.
pub open spec fn nat_decimal(n: nat) -> Seq<char>
    decreases n,
{
    if n < 10 {
        seq![digit_char(n as int)]
    } else {
        nat_decimal(n / 10) + seq![digit_char((n % 10) as int)]
    }
}

/// Decimal rendering of an integer, as Rust's `to_string` writes it.
pub open spec fn int_decimal(i: int) -> Seq<char> {
    if i < 0 {
        seq!['-'] + nat_decimal((-i) as nat)
    } else {
        nat_decimal(i as nat)
    }
}

/// Appends one character to a string.
///
/// Trusted: calls `String::push`, whose documentation says it appends the
/// character to the end of the string.
#[verifier::external_body]
pub(crate) fn push_char(s: &mut String, c: char)
    ensures
        final(s)@ == old(s)@.push(c),
{
    s.push(c);
}

fn digit_to_char(d: u64) -> (c: char)
    requires
        d < 10,
    ensures
        c == digit_char(d as int),
{
    let b: u8 = (48 + d) as u8;
    b as char
}

/// Appends the decimal digits of `n`.
pub fn push_nat_decimal(s: &mut String, n: u64)
    ensures
        final(s)@ == old(s)@ + nat_decimal(n as nat),
    decreases n,
{
    if n >= 10 {
        push_nat_decimal(s, n / 10);
    }
    push_char(s, digit_to_char(n % 10));
    assert(final(s)@ =~= old(s)@ + nat_decimal(n as nat));
}

/// Appends the decimal rendering of `v`.
pub fn push_int_decimal(s: &mut String, v: i64)
    ensures
        final(s)@ == old(s)@ + int_decimal(v as int),
{
    if v < 0 {
        push_char(s, '-');
        let m: u64 = if v == i64::MIN {
            9223372036854775808
        } else {
            (-v) as u64
        };
        push_nat_decimal(s, m);
        assert(final(s)@ =~= old(s)@ + int_decimal(v as int));
    } else {
        push_nat_decimal(s, v as u64);
    }
}

/// The characters of `s`, in order.
pub fn chars_of(s: &str) -> (v: Vec<char>)
    ensures
        v@ == s@,
{
    let n = s.unicode_len();
    let mut v: Vec<char> = Vec::new();
    let mut i: usize = 0;
    while i < n
        invariant
            n == s@.len(),
            i <= n,
            v@ == s@.subrange(0, i as int),
        decreases n - i,
    {
        v.push(s.get_char(i));
        i += 1;
    }
    assert(v@ =~= s@);
    v
}

/// Appends every character of `cs` to `s`.
pub fn push_chars(s: &mut String, cs: &Vec<char>)
    ensures
        final(s)@ == old(s)@ + cs@,
{
    let mut i: usize = 0;
    while i < cs.len()
        invariant
            i <= cs.len(),
            s@ == old(s)@ + cs@.subrange(0, i as int),
        decreases cs.len() - i,
    {
        push_char(s, cs[i]);
        i += 1;
        assert(s@ =~= old(s)@ + cs@.subrange(0, i as int));
    }
    assert(cs@.subrange(0, cs@.len() as int) =~= cs@);
}

/// `pat` occurs in `text` starting at position `i`.
pub open spec fn occurs_at(text: Seq<char>, pat: Seq<char>, i: int) -> bool {
    &&& 0 <= i
    &&& i + pat.len() <= text.len()
    &&& text.subrange(i, i + pat.len()) == pat
}

/// `pat` is a substring of `text` (the empty pattern is a substring of every text).
pub open spec fn contains_seq(text: Seq<char>, pat: Seq<char>) -> bool {
    exists|i: int| occurs_at(text, pat, i)
}

/// Whether `pat` occurs in `text`.
pub fn contains_chars(text: &Vec<char>, pat: &Vec<char>) -> (b: bool)
    ensures
        b == contains_seq(text@, pat@),
{
    let n = text.len();
    let m = pat.len();
    if m > n {
        assert forall|i: int| !occurs_at(text@, pat@, i) by {}
        return false;
    }
    if m == 0 {
        assert(text@.subrange(0, 0) =~= pat@);
        assert(occurs_at(text@, pat@, 0));
        return true;
    }
    let mut i: usize = 0;
    while i <= n - m
        invariant
            n == text@.len(),
            m == pat@.len(),
            0 < m <= n,
            i <= n - m + 1,
            forall|k: int| 0 <= k < i ==> !#[trigger] occurs_at(text@, pat@, k),
        decreases n - m + 1 - i,
    {
        let mut j: usize = 0;
        let mut same = true;
        while j < m
            invariant
                n == text@.len(),
                m == pat@.len(),
                i + m <= n,
                j <= m,
                same ==> forall|q: int| 0 <= q < j ==> text@[i + q] == pat@[q],
                !same ==> !occurs_at(text@, pat@, i as int),
            decreases m - j,
        {
            if text[i + j] != pat[j] {
                same = false;
                assert(text@.subrange(i as int, i + m)[j as int] != pat@[j as int]);
            }
            j += 1;
        }
        if same {
            assert(text@.subrange(i as int, i + m) =~= pat@);
            assert(occurs_at(text@, pat@, i as int));
            return true;
        }
        i += 1;
    }
    assert forall|k: int| !occurs_at(text@, pat@, k) by {
        if 0 <= k && k < i {
        }
    }
    false
}

/// Whether `c` is Unicode `White_Space`, as `char::is_whitespace` decides.
pub open spec fn is_white_space(c: char) -> bool {
    let v = c as int;
    ||| 0x9 <= v <= 0xd
    ||| v == 0x20
    ||| v == 0x85
    ||| v == 0xa0
    ||| v == 0x1680
    ||| 0x2000 <= v <= 0x200a
    ||| v == 0x2028
    ||| v == 0x2029
    ||| v == 0x202f
    ||| v == 0x205f
    ||| v == 0x3000
}

/// `s` without its leading white space.
pub open spec fn trim_start_seq(s: Seq<char>) -> Seq<char>
    decreases s.len(),
{
    if s.len() > 0 && is_white_space(s[0]) {
        trim_start_seq(s.drop_first())
    } else {
        s
    }
}

/// `s` without its trailing white space.
pub open spec fn trim_end_seq(s: Seq<char>) -> Seq<char>
    decreases s.len(),
{
    if s.len() > 0 && is_white_space(s.last()) {
        trim_end_seq(s.drop_last())
    } else {
        s
    }
}

/// `s` without leading and trailing white space, as `str::trim` gives it.
pub open spec fn trim_seq(s: Seq<char>) -> Seq<char> {
    trim_end_seq(trim_start_seq(s))
}

fn white_space(c: char) -> (b: bool)
    ensures
        b == is_white_space(c),
{
    let v = c as u32;
    assert(v as int == c as int);
    (0x9 <= v && v <= 0xd) || v == 0x20 || v == 0x85 || v == 0xa0 || v == 0x1680 || (0x2000 <= v
        && v <= 0x200a) || v == 0x2028 || v == 0x2029 || v == 0x202f || v == 0x205f || v == 0x3000
}

proof fn lemma_trim_start_skip(s: Seq<char>, i: int)
    requires
        0 <= i < s.len(),
        is_white_space(s[i]),
    ensures
        trim_start_seq(s.skip(i)) == trim_start_seq(s.skip(i + 1)),
{
    assert(s.skip(i).drop_first() =~= s.skip(i + 1));
}

proof fn lemma_trim_end_take(s: Seq<char>, j: int)
    requires
        0 < j <= s.len(),
        is_white_space(s[j - 1]),
    ensures
        trim_end_seq(s.take(j)) == trim_end_seq(s.take(j - 1)),
{
    assert(s.take(j).drop_last() =~= s.take(j - 1));
}

/// The characters of `s` without leading and trailing white space.
pub fn trim_chars(s: &Vec<char>) -> (t: Vec<char>)
    ensures
        t@ == trim_seq(s@),
{
    let n = s.len();
    let mut i: usize = 0;
    assert(s@.skip(0) =~= s@);
    while i < n && white_space(s[i])
        invariant
            n == s@.len(),
            i <= n,
            trim_start_seq(s@) == trim_start_seq(s@.skip(i as int)),
        decreases n - i,
    {
        proof {
            lemma_trim_start_skip(s@, i as int);
        }
        i += 1;
    }
    let ghost rest = s@.skip(i as int);
    assert(trim_start_seq(rest) == rest);
    let mut j: usize = n;
    assert(rest.take(rest.len() as int) =~= rest);
    while j > i && white_space(s[j - 1])
        invariant
            n == s@.len(),
            i <= j <= n,
            rest == s@.skip(i as int),
            trim_end_seq(rest) == trim_end_seq(rest.take(j - i)),
        decreases j,
    {
        proof {
            assert(rest[j - i - 1] == s@[j - 1]);
            lemma_trim_end_take(rest, j - i);
        }
        j -= 1;
    }
    let ghost kept = rest.take(j - i);
    assert(trim_end_seq(kept) == kept);
    let mut t: Vec<char> = Vec::new();
    let mut k: usize = i;
    while k < j
        invariant
            i <= k <= j <= n,
            n == s@.len(),
            t@ == s@.subrange(i as int, k as int),
        decreases j - k,
    {
        t.push(s[k]);
        k += 1;
    }
    assert(t@ =~= kept);
    t
}

/// The first position where `sep` occurs in `s`, if any.
pub open spec fn first_occurrence(s: Seq<char>, sep: Seq<char>) -> Option<int> {
    if exists|i: int| occurs_at(s, sep, i) {
        Some(
            choose|i: int|
                occurs_at(s, sep, i) && forall|j: int| 0 <= j < i ==> !#[trigger] occurs_at(s, sep, j),
        )
    } else {
        None
    }
}

/// The pieces of `s` between the occurrences of `sep`, found left to right
/// without overlap, as `str::split` with a non-empty string pattern gives them.
#[verifier::opaque]
pub open spec fn split_seq(s: Seq<char>, sep: Seq<char>) -> Seq<Seq<char>>
    decreases s.len(),
{
    if sep.len() == 0 {
        seq![s]
    } else {
        match first_occurrence(s, sep) {
            Some(i) => if 0 <= i && i + sep.len() <= s.len() {
                seq![s.take(i)] + split_seq(s.skip(i + sep.len()), sep)
            } else {
                seq![s]
            },
            None => seq![s],
        }
    }
}

proof fn lemma_first_occurrence(s: Seq<char>, sep: Seq<char>, i: int)
    requires
        occurs_at(s, sep, i),
        forall|j: int| 0 <= j < i ==> !#[trigger] occurs_at(s, sep, j),
    ensures
        first_occurrence(s, sep) == Some(i),
{
    let k = choose|k: int|
        occurs_at(s, sep, k) && forall|j: int| 0 <= j < k ==> !#[trigger] occurs_at(s, sep, j);
    if k < i {
        assert(!occurs_at(s, sep, k));
    }
    if i < k {
        assert(!occurs_at(s, sep, i));
    }
}

fn occurs_here(s: &Vec<char>, sep: &Vec<char>, i: usize) -> (b: bool)
    requires
        i <= s.len(),
    ensures
        b == occurs_at(s@, sep@, i as int),
{
    if sep.len() > s.len() - i {
        return false;
    }
    let mut j: usize = 0;
    while j < sep.len()
        invariant
            i + sep.len() <= s.len(),
            j <= sep@.len(),
            forall|q: int| 0 <= q < j ==> s@[i + q] == sep@[q],
        decreases sep.len() - j,
    {
        if s[i + j] != sep[j] {
            assert(s@.subrange(i as int, i + sep@.len())[j as int] != sep@[j as int]);
            return false;
        }
        j += 1;
    }
    assert(s@.subrange(i as int, i + sep@.len()) =~= sep@);
    true
}

proof fn lemma_split_at_occurrence(s: Seq<char>, sep: Seq<char>, start: int, i: int)
    requires
        sep.len() > 0,
        0 <= start <= i,
        occurs_at(s, sep, i),
        forall|j: int| start <= j < i ==> !#[trigger] occurs_at(s, sep, j),
    ensures
        split_seq(s.skip(start), sep) == seq![s.subrange(start, i)] + split_seq(
            s.skip(i + sep.len()),
            sep,
        ),
{
    reveal(split_seq);
    let m = sep.len();
    let rest = s.skip(start);
    let k = i - start;
    assert forall|j: int| 0 <= j < k implies !#[trigger] occurs_at(rest, sep, j) by {
        if occurs_at(rest, sep, j) {
            assert(s.subrange(start + j, start + j + m) =~= rest.subrange(j, j + m));
            assert(occurs_at(s, sep, start + j));
        }
    }
    assert(rest.subrange(k, k + m) =~= s.subrange(i, i + m));
    lemma_first_occurrence(rest, sep, k);
    assert(rest.take(k) =~= s.subrange(start, i));
    assert(rest.skip(k + m) =~= s.skip(i + m));
}

proof fn lemma_split_without_occurrence(s: Seq<char>, sep: Seq<char>, start: int)
    requires
        sep.len() > 0,
        0 <= start <= s.len(),
        forall|j: int| start <= j ==> !#[trigger] occurs_at(s, sep, j),
    ensures
        split_seq(s.skip(start), sep) == seq![s.skip(start)],
{
    reveal(split_seq);
    let m = sep.len();
    let rest = s.skip(start);
    assert forall|j: int| !occurs_at(rest, sep, j) by {
        if occurs_at(rest, sep, j) {
            assert(s.subrange(start + j, start + j + m) =~= rest.subrange(j, j + m));
            assert(occurs_at(s, sep, start + j));
        }
    }
}

/// The text of each piece.
pub open spec fn piece_texts(pieces: Seq<Vec<char>>) -> Seq<Seq<char>> {
    pieces.map_values(|p: Vec<char>| p@)
}

/// Splits `s` at every occurrence of the non-empty `sep`.
pub fn split_chars(s: &Vec<char>, sep: &Vec<char>) -> (pieces: Vec<Vec<char>>)
    requires
        sep@.len() > 0,
    ensures
        piece_texts(pieces@) == split_seq(s@, sep@),
{
    let n = s.len();
    let m = sep.len();
    let mut pieces: Vec<Vec<char>> = Vec::new();
    let mut start: usize = 0;
    let mut i: usize = 0;
    let mut current: Vec<char> = Vec::new();
    assert(s@.skip(0) =~= s@);
    while i < n
        invariant
            n == s@.len(),
            m == sep@.len(),
            m > 0,
            start <= i <= n,
            current@ == s@.subrange(start as int, i as int),
            forall|j: int| start <= j < i ==> !#[trigger] occurs_at(s@, sep@, j),
            piece_texts(pieces@) + split_seq(s@.skip(start as int), sep@) == split_seq(s@, sep@),
        decreases n - i + (n - start),
    {
        if occurs_here(s, sep, i) {
            proof {
                lemma_split_at_occurrence(s@, sep@, start as int, i as int);
            }
            let ghost before = piece_texts(pieces@);
            let ghost piece = current@;
            pieces.push(current);
            assert(piece_texts(pieces@) =~= before.push(piece));
            assert(before + split_seq(s@.skip(start as int), sep@) =~= before.push(piece)
                + split_seq(s@.skip(i + m), sep@));
            current = Vec::new();
            start = i + m;
            i = start;
            assert(current@ =~= s@.subrange(start as int, i as int));
        } else {
            current.push(s[i]);
            i += 1;
            assert(current@ =~= s@.subrange(start as int, i as int));
        }
    }
    proof {
        assert forall|j: int| start <= j implies !#[trigger] occurs_at(s@, sep@, j) by {
            if j >= n {
                assert(!occurs_at(s@, sep@, j));
            }
        }
        lemma_split_without_occurrence(s@, sep@, start as int);
    }
    assert(current@ =~= s@.skip(start as int));
    let ghost before = piece_texts(pieces@);
    let ghost piece = current@;
    pieces.push(current);
    assert(piece_texts(pieces@) =~= before.push(piece));
    assert(before + seq![piece] =~= before.push(piece));
    pieces
}

/// A split always has at least one piece.
pub proof fn lemma_split_nonempty(s: Seq<char>, sep: Seq<char>)
    ensures
        split_seq(s, sep).len() >= 1,
{
    reveal(split_seq);
}

/// A piece free of the separator's first character, then the separator,
/// splits off as the first piece.
pub proof fn lemma_split_leading_piece(a: Seq<char>, sep: Seq<char>, rest: Seq<char>)
    requires
        sep.len() > 0,
        forall|i: int| 0 <= i < a.len() ==> a[i] != sep[0],
    ensures
        split_seq(a + sep + rest, sep) == seq![a] + split_seq(rest, sep),
{
    let s = a + sep + rest;
    assert(s.subrange(a.len() as int, (a.len() + sep.len()) as int) =~= sep);
    assert forall|j: int| 0 <= j < a.len() implies !#[trigger] occurs_at(s, sep, j) by {
        if occurs_at(s, sep, j) {
            assert(s.subrange(j, j + sep.len())[0] == s[j]);
        }
    }
    lemma_first_occurrence(s, sep, a.len() as int);
    reveal(split_seq);
    assert(s.take(a.len() as int) =~= a);
    assert(s.skip((a.len() + sep.len()) as int) =~= rest);
}

/// A text free of the separator's first character is a single piece.
pub proof fn lemma_split_no_separator(a: Seq<char>, sep: Seq<char>)
    requires
        sep.len() > 0,
        forall|i: int| 0 <= i < a.len() ==> a[i] != sep[0],
    ensures
        split_seq(a, sep) == seq![a],
{
    assert forall|j: int| !#[trigger] occurs_at(a, sep, j) by {
        if occurs_at(a, sep, j) {
            assert(a.subrange(j, j + sep.len())[0] == a[j]);
        }
    }
    reveal(split_seq);
}

/// Decimal renderings hold only digits and the minus sign.
pub proof fn lemma_decimal_chars(n: nat)
    ensures
        forall|i: int| 0 <= i < nat_decimal(n).len() ==> 48 <= #[trigger] (nat_decimal(n)[i] as int) < 58,
    decreases n,
{
    if n >= 10 {
        lemma_decimal_chars(n / 10);
        let d = (n % 10) as int;
        assert(48 <= (digit_char(d) as int) < 58);
        assert forall|i: int| 0 <= i < nat_decimal(n).len() implies 48 <= #[trigger] (nat_decimal(n)[i] as int) < 58 by {
            if i < nat_decimal(n / 10).len() {
                assert(nat_decimal(n)[i] == nat_decimal(n / 10)[i]);
            }
        }
    } else {
        assert(48 <= (digit_char(n as int) as int) < 58);
    }
}

} // verus!
