//! Mining of approved replies without any model: releases written as
//! `vX.Y.Z — dd/mm/aaaa` and menu paths written as `A > B > C`.

use vstd::prelude::*;
use crate::text::{
    char_is_alnum, char_is_upper, lowercase_of, to_lowercase_chars, chars_of, contains, copy_range, dec, dec_chars, dec_padded,
    extend, find, find_chars, is_alnum, is_ascii_ws, is_digit, is_upper, join, join_chars, lines,
    lemma_views_push, lines_chars, nonempty, trim_all, trim_all_chars, nonempty_pieces, pad_zeros, split_any, split_any_chars, split_char,
    string_of, trim, views, words, words_chars,
};

verus! {

/// A release found in a text: its canonical form `vX.Y.Z — dd/mm/aaaa`,
/// its version `(major, minor, patch)` and its date `(day, month, year)`.
pub type Release = (String, (u32, u32, u32), (u32, u32, u32));

/// The same release with its text as characters.
pub type ReleaseView = (Seq<char>, (u32, u32, u32), (u32, u32, u32));

/// The number of consecutive ASCII digits of `s` from index `i`.
pub open spec fn digit_run(s: Seq<char>, i: int) -> nat
    decreases s.len() - i,
{
    if 0 <= i < s.len() && is_digit(s[i]) {
        1 + digit_run(s, i + 1)
    } else {
        0
    }
}

/// The number written by the `k` digits of `s` from index `start`.
pub open spec fn digits_value(s: Seq<char>, start: int, k: nat) -> nat
    decreases k,
{
    if k == 0 {
        0
    } else {
        digits_value(s, start, (k - 1) as nat) * 10 + (s[start + k - 1] as nat - 48) as nat
    }
}

/// An unsigned number of one to nine digits at `start`, and the index after it.
pub open spec fn parse_uint(s: Seq<char>, start: int) -> Option<(u32, int)> {
    let k = digit_run(s, start);
    if k == 0 || k > 9 {
        None
    } else {
        Some((digits_value(s, start, k) as u32, start + k))
    }
}

/// `X.Y.Z` at `start`, and the index after `Z`.
pub open spec fn parse_semver(s: Seq<char>, start: int) -> Option<((u32, u32, u32), int)> {
    match parse_uint(s, start) {
        None => None,
        Some((maj, a)) => if !(a < s.len() && s[a] == '.') {
            None
        } else {
            match parse_uint(s, a + 1) {
                None => None,
                Some((min, b)) => if !(b < s.len() && s[b] == '.') {
                    None
                } else {
                    match parse_uint(s, b + 1) {
                        None => None,
                        Some((pat, c)) => Some(((maj, min, pat), c)),
                    }
                },
            }
        },
    }
}

/// The first index at or after `i` that is not ASCII whitespace.
pub open spec fn skip_ws(s: Seq<char>, i: int) -> int
    decreases s.len() - i,
{
    if 0 <= i < s.len() && is_ascii_ws(s[i]) {
        skip_ws(s, i + 1)
    } else {
        i
    }
}

/// `dd/mm/aaaa` as the date is written back: day and month on two digits,
/// year on four.
pub open spec fn date_text(d: u32, m: u32, y: u32) -> Seq<char> {
    pad_zeros(dec(d as nat), 2) + seq!['/'] + pad_zeros(dec(m as nat), 2) + seq!['/'] + pad_zeros(
        dec(y as nat),
        4,
    )
}

/// A date `d/m/y` at `start` with day in 1..=31, month in 1..=12 and year in
/// 2000..=2100: its text, its parts and the index after it.
pub open spec fn parse_date(s: Seq<char>, start: int) -> Option<(Seq<char>, (u32, u32, u32), int)> {
    match parse_uint(s, start) {
        None => None,
        Some((d, a)) => if !(1 <= d <= 31 && a < s.len() && s[a] == '/') {
            None
        } else {
            match parse_uint(s, a + 1) {
                None => None,
                Some((m, b)) => if !(1 <= m <= 12 && b < s.len() && s[b] == '/') {
                    None
                } else {
                    match parse_uint(s, b + 1) {
                        None => None,
                        Some((y, c)) => if !(2000 <= y <= 2100) {
                            None
                        } else {
                            Some((date_text(d, m, y), (d, m, y), c))
                        },
                    }
                },
            }
        },
    }
}

/// The canonical text of a release: `v` and the version, an em dash between
/// single spaces, and the date.
pub open spec fn release_text(v: (u32, u32, u32), date: Seq<char>) -> Seq<char> {
    seq!['v'] + dec(v.0 as nat) + seq!['.'] + dec(v.1 as nat) + seq!['.'] + dec(v.2 as nat) + seq![
        ' ',
        '—',
        ' ',
    ] + date
}

/// The release that starts with the `v` or `V` at index `i`, if one does:
/// a version, optional ASCII whitespace, an em dash or a hyphen, optional
/// ASCII whitespace, and a valid date.
pub open spec fn release_at(s: Seq<char>, i: int) -> Option<ReleaseView> {
    if !(0 <= i && i + 1 < s.len() && (s[i] == 'v' || s[i] == 'V') && is_digit(s[i + 1])) {
        None
    } else {
        match parse_semver(s, i + 1) {
            None => None,
            Some((v, a)) => {
                let w = skip_ws(s, a);
                if !(w < s.len() && (s[w] == '—' || s[w] == '-')) {
                    None
                } else {
                    match parse_date(s, skip_ws(s, w + 1)) {
                        None => None,
                        Some((dt, d, _c)) => Some((release_text(v, dt), v, d)),
                    }
                }
            },
        }
    }
}

/// The first release in `s` at or after index `i`.
pub open spec fn release_from(s: Seq<char>, i: int) -> Option<ReleaseView>
    decreases s.len() - i,
{
    if i < 0 || i >= s.len() {
        None
    } else {
        match release_at(s, i) {
            Some(r) => Some(r),
            None => release_from(s, i + 1),
        }
    }
}

/// The first release written in `s`.
pub open spec fn first_release(s: Seq<char>) -> Option<ReleaseView> {
    release_from(s, 0)
}

proof fn lemma_release_from_earliest(s: Seq<char>, a: int, i: int)
    requires
        0 <= a <= i,
        release_at(s, i) is Some,
    ensures
        exists|j: int|
            a <= j <= i && release_at(s, j) is Some && release_from(s, a) == #[trigger] release_at(
                s,
                j,
            ) && forall|k: int| a <= k < j ==> (#[trigger] release_at(s, k)) is None,
    decreases i - a,
{
    if release_at(s, a) is Some {
        assert(release_from(s, a) == release_at(s, a));
    } else {
        lemma_release_from_earliest(s, a + 1, i);
        let j = choose|j: int|
            a + 1 <= j <= i && release_at(s, j) is Some && release_from(s, a + 1)
                == #[trigger] release_at(s, j) && forall|k: int|
                a + 1 <= k < j ==> (#[trigger] release_at(s, k)) is None;
        assert(release_from(s, a) == release_from(s, a + 1));
        assert forall|k: int| a <= k < j implies (#[trigger] release_at(s, k)) is None by {
            if k > a {
            }
        }
    }
}

/// A release written anywhere in a text is found: `first_release` gives the
/// release at the smallest index where a full release `vX.Y.Z — dd/mm/aaaa`
/// stands, so a `v` followed by a digit that is not a full release never
/// hides a later one.
pub proof fn lemma_first_release_is_earliest(s: Seq<char>, i: int)
    requires
        release_at(s, i) is Some,
    ensures
        first_release(s) is Some,
        exists|j: int|
            0 <= j <= i && first_release(s) == #[trigger] release_at(s, j) && forall|k: int|
                0 <= k < j ==> (#[trigger] release_at(s, k)) is None,
{
    assert(0 <= i) by {
        if i < 0 {
            assert(release_at(s, i) is None);
        }
    }
    lemma_release_from_earliest(s, 0, i);
}

proof fn lemma_digits_value_bound(s: Seq<char>, start: int, k: nat)
    requires
        forall|j: int| start <= j < start + k ==> is_digit(#[trigger] s[j]),
        0 <= start,
        start + k <= s.len(),
    ensures
        digits_value(s, start, k) < pow10(k),
    decreases k,
{
    if k > 0 {
        lemma_digits_value_bound(s, start, (k - 1) as nat);
        assert(is_digit(s[start + k - 1]));
    }
}

proof fn lemma_pow10_mono(a: nat, b: nat)
    requires
        a <= b,
    ensures
        pow10(a) <= pow10(b),
    decreases b,
{
    if a < b {
        lemma_pow10_mono(a, (b - 1) as nat);
    }
}

proof fn lemma_digit_run_step(s: Seq<char>, start: int, i: int)
    requires
        0 <= start <= i < s.len(),
        is_digit(s[i]),
        digit_run(s, start) == (i - start) + digit_run(s, i),
    ensures
        digit_run(s, start) > i - start,
{
}

proof fn lemma_digit_run_bound(s: Seq<char>, i: int)
    requires
        0 <= i <= s.len(),
    ensures
        i + digit_run(s, i) <= s.len(),
    decreases s.len() - i,
{
    if i < s.len() && is_digit(s[i]) {
        lemma_digit_run_bound(s, i + 1);
    }
}

/// Ten to the power `k`.
pub open spec fn pow10(k: nat) -> nat
    decreases k,
{
    if k == 0 {
        1
    } else {
        10 * pow10((k - 1) as nat)
    }
}

/// Reads an unsigned number of one to nine digits at `start`.
fn parse_uint_chars(s: &Vec<char>, start: usize) -> (r: Option<(u32, usize)>)
    requires
        start <= s.len(),
    ensures
        r matches Some((n, e)) ==> parse_uint(s@, start as int) == Some((n, e as int)) && e
            <= s.len(),
        r is None ==> parse_uint(s@, start as int) is None,
{
    proof {
        lemma_digit_run_bound(s@, start as int);
    }
    let mut i = start;
    let mut n: u32 = 0;
    while i < s.len() && is_digit_char(s[i])
        invariant
            start <= i <= s.len(),
            i - start <= 9,
            forall|j: int| start <= j < i ==> is_digit(#[trigger] s@[j]),
            n == digits_value(s@, start as int, (i - start) as nat),
            digit_run(s@, start as int) == (i - start) + digit_run(s@, i as int),
        decreases s.len() - i,
    {
        if i - start == 9 {
            proof {
                lemma_digit_run_step(s@, start as int, i as int);
            }
            return None;
        }
        proof {
            lemma_digits_value_bound(s@, start as int, (i - start) as nat);
            lemma_pow10_mono((i - start) as nat, 8);
            assert(pow10(8) == 100_000_000) by {
                reveal_with_fuel(pow10, 9);
            }
        }
        let d = (s[i] as u32) - 48;
        n = n * 10 + d;
        i += 1;
    }
    if i == start {
        None
    } else {
        Some((n, i))
    }
}

/// `char::is_ascii_digit`.
pub fn is_digit_char(c: char) -> (r: bool)
    ensures
        r == is_digit(c),
{
    '0' <= c && c <= '9'
}

/// `char::is_ascii_whitespace`.
pub fn is_ascii_ws_char(c: char) -> (r: bool)
    ensures
        r == is_ascii_ws(c),
{
    c == ' ' || c == '\t' || c == '\n' || c == '\u{c}' || c == '\r'
}

fn parse_semver_chars(s: &Vec<char>, start: usize) -> (r: Option<((u32, u32, u32), usize)>)
    requires
        start <= s.len(),
    ensures
        r matches Some((v, e)) ==> parse_semver(s@, start as int) == Some((v, e as int)) && e
            <= s.len(),
        r is None ==> parse_semver(s@, start as int) is None,
{
    let (maj, a) = match parse_uint_chars(s, start) {
        Some(x) => x,
        None => return None,
    };
    if a >= s.len() || s[a] != '.' {
        return None;
    }
    let (min, b) = match parse_uint_chars(s, a + 1) {
        Some(x) => x,
        None => return None,
    };
    if b >= s.len() || s[b] != '.' {
        return None;
    }
    let (pat, c) = match parse_uint_chars(s, b + 1) {
        Some(x) => x,
        None => return None,
    };
    Some(((maj, min, pat), c))
}

fn skip_ws_chars(s: &Vec<char>, start: usize) -> (r: usize)
    requires
        start <= s.len(),
    ensures
        r == skip_ws(s@, start as int),
        start <= r <= s.len(),
{
    let mut i = start;
    while i < s.len() && is_ascii_ws_char(s[i])
        invariant
            start <= i <= s.len(),
            skip_ws(s@, start as int) == skip_ws(s@, i as int),
        decreases s.len() - i,
    {
        i += 1;
    }
    i
}

fn parse_date_chars(s: &Vec<char>, start: usize) -> (r: Option<(Vec<char>, (u32, u32, u32), usize)>)
    requires
        start <= s.len(),
    ensures
        r matches Some((t, d, e)) ==> parse_date(s@, start as int) == Some((t@, d, e as int)),
        r is None ==> parse_date(s@, start as int) is None,
{
    let (d, a) = match parse_uint_chars(s, start) {
        Some(x) => x,
        None => return None,
    };
    if !(1 <= d && d <= 31) || a >= s.len() || s[a] != '/' {
        return None;
    }
    let (m, b) = match parse_uint_chars(s, a + 1) {
        Some(x) => x,
        None => return None,
    };
    if !(1 <= m && m <= 12) || b >= s.len() || s[b] != '/' {
        return None;
    }
    let (y, c) = match parse_uint_chars(s, b + 1) {
        Some(x) => x,
        None => return None,
    };
    if !(2000 <= y && y <= 2100) {
        return None;
    }
    let mut t = dec_padded(d as u64, 2);
    t.push('/');
    let mm = dec_padded(m as u64, 2);
    extend(&mut t, &mm);
    t.push('/');
    let yy = dec_padded(y as u64, 4);
    extend(&mut t, &yy);
    assert(t@ =~= date_text(d, m, y));
    Some((t, (d, m, y), c))
}

fn release_text_chars(v: (u32, u32, u32), date: &Vec<char>) -> (r: Vec<char>)
    ensures
        r@ == release_text(v, date@),
{
    let mut t: Vec<char> = Vec::new();
    t.push('v');
    let a = dec_chars(v.0 as u64);
    extend(&mut t, &a);
    t.push('.');
    let b = dec_chars(v.1 as u64);
    extend(&mut t, &b);
    t.push('.');
    let c = dec_chars(v.2 as u64);
    extend(&mut t, &c);
    t.push(' ');
    t.push('—');
    t.push(' ');
    extend(&mut t, date);
    assert(t@ =~= release_text(v, date@));
    t
}

fn release_at_chars(s: &Vec<char>, i: usize) -> (r: Option<(Vec<char>, (u32, u32, u32), (u32, u32, u32))>)
    requires
        i < s.len(),
    ensures
        r matches Some((t, v, d)) ==> release_at(s@, i as int) == Some((t@, v, d)),
        r is None ==> release_at(s@, i as int) is None,
{
    if !((s[i] == 'v' || s[i] == 'V') && i + 1 < s.len() && is_digit_char(s[i + 1])) {
        return None;
    }
    let (v, a) = match parse_semver_chars(s, i + 1) {
        Some(x) => x,
        None => return None,
    };
    let w = skip_ws_chars(s, a);
    if !(w < s.len() && (s[w] == '—' || s[w] == '-')) {
        return None;
    }
    let w2 = skip_ws_chars(s, w + 1);
    match parse_date_chars(s, w2) {
        None => None,
        Some((dt, d, _c)) => {
            let t = release_text_chars(v, &dt);
            Some((t, v, d))
        },
    }
}

/// The first release `vX.Y.Z — dd/mm/aaaa` in the text (`v` or `V`; an em
/// dash or a hyphen between version and date), written back canonically with
/// an em dash, with its version and its date.
pub fn extract_release(text: &str) -> (r: Option<Release>)
    ensures
        r matches Some((t, v, d)) ==> first_release(text@) == Some((t@, v, d)),
        r is None ==> first_release(text@) is None,
{
    let s = chars_of(text);
    let mut i: usize = 0;
    while i < s.len()
        invariant
            i <= s.len(),
            s@ == text@,
            first_release(s@) == release_from(s@, i as int),
        decreases s.len() - i,
    {
        match release_at_chars(&s, i) {
            Some((t, v, d)) => {
                return Some((string_of(&t), v, d));
            },
            None => {},
        }
        i += 1;
    }
    None
}


/// The characters that end a chunk of a line when looking for paths.
pub open spec fn path_delims() -> Seq<char> {
    seq!['.', ',', ';', ':', '(', ')', '!', '?', '\t', '`', '"']
}

/// The separator of path segments as paths are written back.
pub open spec fn path_sep() -> Seq<char> {
    seq![' ', '>', ' ']
}

/// A character that may stand in a path segment: alphanumeric, space,
/// hyphen, underscore or slash.
pub open spec fn is_segment_char(c: char) -> bool {
    is_alnum(c) || c == ' ' || c == '-' || c == '_' || c == '/'
}

pub open spec fn all_segment_chars(s: Seq<char>) -> bool {
    forall|i: int| 0 <= i < s.len() ==> is_segment_char(#[trigger] s[i])
}

/// The word begins with an uppercase letter.
pub open spec fn starts_upper(w: Seq<char>) -> bool {
    w.len() > 0 && is_upper(w[0])
}

/// The first index at or after `i` of a word that begins with an uppercase
/// letter, or the number of words.
pub open spec fn first_cap(ws: Seq<Seq<char>>, i: int) -> int
    decreases ws.len() - i,
{
    if i < 0 || i >= ws.len() {
        ws.len() as int
    } else if starts_upper(ws[i]) {
        i
    } else {
        first_cap(ws, i + 1)
    }
}

/// The words from the first capitalized one on, joined by single spaces;
/// empty when no word is capitalized.
pub open spec fn trim_to_capitalized_start(s: Seq<char>) -> Seq<char> {
    let ws = words(s);
    let k = first_cap(ws, 0);
    if k >= ws.len() {
        Seq::<char>::empty()
    } else {
        join(ws.skip(k), seq![' '])
    }
}

/// The index of the first word at or after `i` that does not begin with an
/// uppercase letter once a capitalized word has been seen (`seen` says
/// whether one was seen before `i`), or the number of words.
pub open spec fn cap_end(ws: Seq<Seq<char>>, i: int, seen: bool) -> int
    decreases ws.len() - i,
{
    if i < 0 || i >= ws.len() {
        ws.len() as int
    } else if seen && !starts_upper(ws[i]) {
        i
    } else {
        cap_end(ws, i + 1, seen || starts_upper(ws[i]))
    }
}

/// The words up to the first lowercase one that follows a capitalized one,
/// joined by single spaces.
pub open spec fn trim_to_capitalized_end(s: Seq<char>) -> Seq<char> {
    let ws = words(s);
    join(ws.take(cap_end(ws, 0, false)), seq![' '])
}

/// The path written in one chunk of a line, if the chunk holds one: split at
/// `>`, each segment trimmed, none empty, all of path characters, prose
/// before the first capitalized word of the first segment and after the
/// capitalized words of the last segment dropped, segments joined by ` > `.
pub open spec fn path_of_chunk(chunk: Seq<char>) -> Option<Seq<char>> {
    let parts = trim_all(split_any(chunk, seq!['>']));
    if !contains(chunk, seq!['>']) || parts.len() < 2 {
        None
    } else if exists|i: int| 0 <= i < parts.len() && (#[trigger] parts[i]).len() == 0 {
        None
    } else if !(forall|i: int| 0 <= i < parts.len() ==> all_segment_chars(#[trigger] parts[i])) {
        None
    } else {
        let f = trim_to_capitalized_start(parts[0]);
        if f.len() == 0 {
            None
        } else {
            let parts2 = parts.update(0, f);
            let last = parts2.len() - 1;
            let l = trim_to_capitalized_end(parts2[last]);
            if l.len() == 0 {
                None
            } else {
                Some(join(parts2.update(last, l), path_sep()))
            }
        }
    }
}

/// The paths of a sequence of chunks, in order.
pub open spec fn paths_of_chunks(cs: Seq<Seq<char>>) -> Seq<Seq<char>>
    decreases cs.len(),
{
    if cs.len() == 0 {
        Seq::<Seq<char>>::empty()
    } else {
        match path_of_chunk(cs.last()) {
            Some(p) => paths_of_chunks(cs.drop_last()).push(p),
            None => paths_of_chunks(cs.drop_last()),
        }
    }
}

/// The paths of one line.
pub open spec fn paths_of_line(line: Seq<char>) -> Seq<Seq<char>> {
    paths_of_chunks(split_any(line, path_delims()))
}

/// The paths of a sequence of lines, in order.
pub open spec fn paths_of_lines(ls: Seq<Seq<char>>) -> Seq<Seq<char>>
    decreases ls.len(),
{
    if ls.len() == 0 {
        Seq::<Seq<char>>::empty()
    } else {
        paths_of_lines(ls.drop_last()) + paths_of_line(ls.last())
    }
}

/// All paths `A > B > C` written in a text, line by line, in order.
pub open spec fn paths_in(text: Seq<char>) -> Seq<Seq<char>> {
    paths_of_lines(lines(text))
}

proof fn lemma_no_gt_no_path(c: Seq<char>)
    requires
        forall|i: int| 0 <= i < c.len() ==> c[i] != '>',
    ensures
        path_of_chunk(c) is None,
{
    crate::text::lemma_find_from(c, seq!['>'], 0);
    if let Some(j) = find(c, seq!['>']) {
        assert(c.subrange(j, j + 1)[0] == c[j]);
    }
}

proof fn lemma_single_line(x: Seq<char>)
    requires
        forall|i: int| 0 <= i < x.len() ==> x[i] != '\n',
    ensures
        paths_in(x) == paths_of_line(x),
{
    let nl = seq!['\n'];
    assert forall|i: int| 0 <= i < x.len() implies !nl.contains(#[trigger] x[i]) by {
        if nl.contains(x[i]) {
            assert(nl[0] == '\n');
        }
    }
    crate::text::lemma_split_extend(Seq::<char>::empty(), x, nl);
    assert(Seq::<char>::empty() + x =~= x);
    assert(split_any(Seq::<char>::empty(), nl) =~= seq![Seq::<char>::empty()]);
    let ps = split_any(x, nl);
    assert(ps =~= seq![x]);
    assert(ps.drop_last() =~= Seq::<Seq<char>>::empty());
    if x.len() == 0 {
        assert(lines(x) =~= Seq::<Seq<char>>::empty());
        assert(split_any(x, path_delims()) =~= seq![Seq::<char>::empty()]);
        lemma_no_gt_no_path(Seq::<char>::empty());
        let one = seq![Seq::<char>::empty()];
        assert(one.drop_last() =~= Seq::<Seq<char>>::empty());
        assert(one.last() == Seq::<char>::empty());
        assert(paths_of_chunks(one) == paths_of_chunks(one.drop_last()));
        assert(paths_of_line(x) =~= Seq::<Seq<char>>::empty());
        assert(paths_in(x) =~= Seq::<Seq<char>>::empty());
    } else {
        let one = seq![x];
        assert(lines(x) =~= one);
        assert(one.drop_last() =~= Seq::<Seq<char>>::empty());
        assert(one.last() == x);
        assert(paths_of_lines(one) == paths_of_lines(one.drop_last()) + paths_of_line(x));
        assert(Seq::<Seq<char>>::empty() + paths_of_line(x) =~= paths_of_line(x));
    }
}

/// A delimiter ends a path written in prose: on a line, whatever follows one
/// of `. , ; : ( ) ! ? \t`, a backquote or a double quote (without a line
/// feed, a `>` or another delimiter) leaves the paths found unchanged, so
/// `A > B > C, depois ...` still gives `A > B > C`.
pub proof fn lemma_delimiter_ends_path(t: Seq<char>, c: char, w: Seq<char>)
    requires
        c == '.' || c == ',' || c == ';' || c == ':' || c == '(' || c == ')' || c == '!' || c
            == '?' || c == '\t' || c == '`' || c == '"',
        forall|i: int| 0 <= i < t.len() ==> t[i] != '\n',
        forall|i: int|
            0 <= i < w.len() ==> w[i] != '\n' && w[i] != '>' && !path_delims().contains(
                #[trigger] w[i],
            ),
    ensures
        paths_in(t + seq![c] + w) == paths_in(t),
{
    let d = path_delims();
    assert(d.contains(c)) by {
        if c == '.' {
            assert(d[0] == c);
        } else if c == ',' {
            assert(d[1] == c);
        } else if c == ';' {
            assert(d[2] == c);
        } else if c == ':' {
            assert(d[3] == c);
        } else if c == '(' {
            assert(d[4] == c);
        } else if c == ')' {
            assert(d[5] == c);
        } else if c == '!' {
            assert(d[6] == c);
        } else if c == '?' {
            assert(d[7] == c);
        } else if c == '\t' {
            assert(d[8] == c);
        } else if c == '`' {
            assert(d[9] == c);
        } else {
            assert(d[10] == c);
        }
    }
    let tc = t.push(c);
    assert(t + seq![c] =~= tc);
    crate::text::lemma_split_push_delim(t, c, d);
    crate::text::lemma_split_extend(tc, w, d);
    let st = split_any(t, d);
    let cs = split_any(tc + w, d);
    assert(Seq::<char>::empty() + w =~= w);
    assert(cs =~= st.push(w));
    lemma_no_gt_no_path(w);
    assert(cs.drop_last() =~= st);
    assert(paths_of_chunks(cs) == paths_of_chunks(st));
    let s2 = tc + w;
    assert forall|i: int| 0 <= i < s2.len() implies s2[i] != '\n' by {
        if i < t.len() {
            assert(s2[i] == t[i]);
        } else if i > t.len() {
            assert(s2[i] == w[i - t.len() - 1]);
        }
    }
    lemma_single_line(s2);
    lemma_single_line(t);
}

/// A path of at least two nonempty segments made of path characters,
/// joined by ` > `.
pub open spec fn is_well_formed_path(p: Seq<char>) -> bool {
    exists|segs: Seq<Seq<char>>|
        segs.len() >= 2 && (forall|i: int|
            0 <= i < segs.len() ==> (#[trigger] segs[i]).len() > 0 && all_segment_chars(segs[i]))
            && p == #[trigger] join(segs, path_sep())
}

proof fn lemma_join_segment_chars(ps: Seq<Seq<char>>)
    requires
        forall|i: int| 0 <= i < ps.len() ==> all_segment_chars(#[trigger] ps[i]),
    ensures
        all_segment_chars(join(ps, seq![' '])),
    decreases ps.len(),
{
    if ps.len() > 1 {
        let init = ps.drop_last();
        assert forall|i: int| 0 <= i < init.len() implies all_segment_chars(#[trigger] init[i]) by {
            assert(init[i] == ps[i]);
        }
        lemma_join_segment_chars(init);
        let a = join(init, seq![' ']);
        let l = ps.last();
        assert(all_segment_chars(l)) by {
            assert(ps[ps.len() - 1] == l);
        }
        let j = join(ps, seq![' ']);
        assert(j =~= a + seq![' '] + l);
        assert forall|i: int| 0 <= i < j.len() implies is_segment_char(#[trigger] j[i]) by {
            if i < a.len() {
                assert(j[i] == a[i]);
            } else if i == a.len() {
                assert(j[i] == ' ');
            } else {
                assert(j[i] == l[i - a.len() - 1]);
            }
        }
    } else if ps.len() == 1 {
        assert(ps[0] == join(ps, seq![' ']));
    }
}

proof fn lemma_split_ws_segment_chars(s: Seq<char>)
    requires
        all_segment_chars(s),
    ensures
        forall|i: int| 0 <= i < crate::text::split_ws(s).len() ==> all_segment_chars(
            #[trigger] crate::text::split_ws(s)[i],
        ),
    decreases s.len(),
{
    if s.len() > 0 {
        let d = s.drop_last();
        assert forall|i: int| 0 <= i < d.len() implies is_segment_char(#[trigger] d[i]) by {
            assert(d[i] == s[i]);
        }
        lemma_split_ws_segment_chars(d);
        crate::text::lemma_split_ws_len(d);
        let prev = crate::text::split_ws(d);
        let c = s.last();
        assert(is_segment_char(c)) by {
            assert(s[s.len() - 1] == c);
        }
        let cur = crate::text::split_ws(s);
        assert forall|i: int| 0 <= i < cur.len() implies all_segment_chars(#[trigger] cur[i]) by {
            if !crate::text::is_ws(c) && i == prev.len() - 1 {
                let x = prev.last();
                assert(all_segment_chars(x)) by {
                    assert(prev[prev.len() - 1] == x);
                }
                assert(cur[i] == x.push(c));
                assert forall|k: int| 0 <= k < x.push(c).len() implies is_segment_char(
                    #[trigger] x.push(c)[k],
                ) by {
                    if k < x.len() {
                        assert(x.push(c)[k] == x[k]);
                    }
                }
            } else if i < prev.len() {
                assert(cur[i] == prev[i]);
            } else {
                assert(crate::text::is_ws(c));
                assert(cur == prev.push(Seq::<char>::empty()));
                assert(cur[i] =~= Seq::<char>::empty());
            }
        }
    }
}

proof fn lemma_words_segment_chars(s: Seq<char>)
    requires
        all_segment_chars(s),
    ensures
        forall|i: int| 0 <= i < words(s).len() ==> all_segment_chars(#[trigger] words(s)[i]),
{
    lemma_split_ws_segment_chars(s);
    crate::text::lemma_nonempty_elems(crate::text::split_ws(s));
    assert forall|i: int| 0 <= i < words(s).len() implies all_segment_chars(#[trigger] words(s)[i]) by {
        let ws = crate::text::split_ws(s);
        let j = choose|j: int| 0 <= j < ws.len() && ws[j] == words(s)[i];
        assert(all_segment_chars(ws[j]));
    }
}

proof fn lemma_trim_cap_segment_chars(s: Seq<char>)
    requires
        all_segment_chars(s),
    ensures
        all_segment_chars(trim_to_capitalized_start(s)),
        all_segment_chars(trim_to_capitalized_end(s)),
{
    lemma_words_segment_chars(s);
    let ws = words(s);
    let k = first_cap(ws, 0);
    lemma_first_cap_bounds(ws, 0);
    if 0 <= k < ws.len() {
        let t = ws.skip(k);
        assert forall|i: int| 0 <= i < t.len() implies all_segment_chars(#[trigger] t[i]) by {
            assert(t[i] == ws[i + k]);
        }
        lemma_join_segment_chars(t);
    }
    let e = cap_end(ws, 0, false);
    lemma_cap_end_bounds(ws, 0, false);
    let u = ws.take(e);
    assert forall|i: int| 0 <= i < u.len() implies all_segment_chars(#[trigger] u[i]) by {
        assert(u[i] == ws[i]);
    }
    lemma_join_segment_chars(u);
}

proof fn lemma_first_cap_bounds(ws: Seq<Seq<char>>, i: int)
    requires
        0 <= i,
    ensures
        0 <= first_cap(ws, i) <= ws.len(),
    decreases ws.len() - i,
{
    if i < ws.len() && !starts_upper(ws[i]) {
        lemma_first_cap_bounds(ws, i + 1);
    }
}

proof fn lemma_cap_end_bounds(ws: Seq<Seq<char>>, i: int, seen: bool)
    requires
        0 <= i,
    ensures
        0 <= cap_end(ws, i, seen) <= ws.len(),
    decreases ws.len() - i,
{
    if i < ws.len() && !(seen && !starts_upper(ws[i])) {
        lemma_cap_end_bounds(ws, i + 1, seen || starts_upper(ws[i]));
    }
}

proof fn lemma_chunk_path_well_formed(chunk: Seq<char>)
    ensures
        path_of_chunk(chunk) matches Some(p) ==> is_well_formed_path(p),
{
    let parts = trim_all(split_any(chunk, seq!['>']));
    if path_of_chunk(chunk) is Some {
        let f = trim_to_capitalized_start(parts[0]);
        let parts2 = parts.update(0, f);
        let last = parts2.len() - 1;
        let l = trim_to_capitalized_end(parts2[last]);
        let segs = parts2.update(last, l);
        assert(all_segment_chars(parts[0]));
        lemma_trim_cap_segment_chars(parts[0]);
        assert(all_segment_chars(parts2[last])) by {
            if last == 0 {
            } else {
                assert(parts2[last] == parts[last]);
            }
        }
        lemma_trim_cap_segment_chars(parts2[last]);
        assert forall|i: int| 0 <= i < segs.len() implies (#[trigger] segs[i]).len() > 0
            && all_segment_chars(segs[i]) by {
            if i == last {
            } else if i == 0 {
                assert(segs[i] == f);
            } else {
                assert(segs[i] == parts[i]);
            }
        }
        assert(path_of_chunk(chunk) == Some(join(segs, path_sep())));
    }
}

proof fn lemma_chunks_paths_well_formed(cs: Seq<Seq<char>>)
    ensures
        forall|i: int| 0 <= i < paths_of_chunks(cs).len() ==> is_well_formed_path(
            #[trigger] paths_of_chunks(cs)[i],
        ),
    decreases cs.len(),
{
    if cs.len() > 0 {
        lemma_chunks_paths_well_formed(cs.drop_last());
        lemma_chunk_path_well_formed(cs.last());
        let prev = paths_of_chunks(cs.drop_last());
        assert forall|i: int| 0 <= i < paths_of_chunks(cs).len() implies is_well_formed_path(
            #[trigger] paths_of_chunks(cs)[i],
        ) by {
            if i < prev.len() {
                assert(paths_of_chunks(cs)[i] == prev[i]);
            }
        }
    }
}

proof fn lemma_lines_paths_well_formed(ls: Seq<Seq<char>>)
    ensures
        forall|i: int| 0 <= i < paths_of_lines(ls).len() ==> is_well_formed_path(
            #[trigger] paths_of_lines(ls)[i],
        ),
    decreases ls.len(),
{
    if ls.len() > 0 {
        lemma_lines_paths_well_formed(ls.drop_last());
        lemma_chunks_paths_well_formed(split_any(ls.last(), path_delims()));
        let a = paths_of_lines(ls.drop_last());
        let b = paths_of_line(ls.last());
        assert forall|i: int| 0 <= i < paths_of_lines(ls).len() implies is_well_formed_path(
            #[trigger] paths_of_lines(ls)[i],
        ) by {
            if i < a.len() {
                assert(paths_of_lines(ls)[i] == a[i]);
            } else {
                assert(paths_of_lines(ls)[i] == b[i - a.len()]);
            }
        }
    }
}

/// Every path found in a text has at least two segments, none empty, each
/// made of path characters, joined by ` > `.
pub proof fn lemma_paths_well_formed(text: Seq<char>)
    ensures
        forall|i: int| 0 <= i < paths_in(text).len() ==> is_well_formed_path(
            #[trigger] paths_in(text)[i],
        ),
{
    lemma_lines_paths_well_formed(lines(text));
}

/// The views of a sequence of strings.
pub open spec fn string_views(v: Seq<String>) -> Seq<Seq<char>> {
    v.map_values(|x: String| x@)
}

fn is_segment_char_exec(c: char) -> (r: bool)
    ensures
        r == is_segment_char(c),
{
    char_is_alnum(c) || c == ' ' || c == '-' || c == '_' || c == '/'
}

fn all_segment_chars_exec(s: &Vec<char>) -> (r: bool)
    ensures
        r == all_segment_chars(s@),
{
    let mut i: usize = 0;
    while i < s.len()
        invariant
            i <= s.len(),
            forall|j: int| 0 <= j < i ==> is_segment_char(#[trigger] s@[j]),
        decreases s.len() - i,
    {
        if !is_segment_char_exec(s[i]) {
            return false;
        }
        i += 1;
    }
    true
}

fn starts_upper_exec(w: &Vec<char>) -> (r: bool)
    ensures
        r == starts_upper(w@),
{
    w.len() > 0 && char_is_upper(w[0])
}

fn space() -> (r: Vec<char>)
    ensures
        r@ == seq![' '],
{
    let mut v: Vec<char> = Vec::new();
    v.push(' ');
    assert(v@ =~= seq![' ']);
    v
}

fn path_sep_chars() -> (r: Vec<char>)
    ensures
        r@ == path_sep(),
{
    let mut v: Vec<char> = Vec::new();
    v.push(' ');
    v.push('>');
    v.push(' ');
    assert(v@ =~= path_sep());
    v
}

fn copy_pieces(ps: &Vec<Vec<char>>, a: usize, b: usize) -> (r: Vec<Vec<char>>)
    requires
        a <= b <= ps.len(),
    ensures
        views(r@) == views(ps@).subrange(a as int, b as int),
{
    let mut out: Vec<Vec<char>> = Vec::new();
    let mut i = a;
    while i < b
        invariant
            a <= i <= b <= ps.len(),
            views(out@) =~= views(ps@).subrange(a as int, i as int),
        decreases b - i,
    {
        let w = copy_range(&ps[i], 0, ps[i].len());
        assert(w@ =~= ps@[i as int]@);
        proof {
            lemma_views_push(out@, w);
        }
        out.push(w);
        i += 1;
        assert(views(out@) =~= views(ps@).subrange(a as int, i as int));
    }
    out
}

fn trim_to_capitalized_start_chars(s: &Vec<char>) -> (r: Vec<char>)
    ensures
        r@ == trim_to_capitalized_start(s@),
{
    let ws = words_chars(s);
    let ghost wv = views(ws@);
    let mut i: usize = 0;
    while i < ws.len() && !starts_upper_exec(&ws[i])
        invariant
            wv == views(ws@),
            wv == words(s@),
            i <= ws.len(),
            first_cap(wv, 0) == first_cap(wv, i as int),
        decreases ws.len() - i,
    {
        i += 1;
    }
    if i >= ws.len() {
        return Vec::new();
    }
    let rest = copy_pieces(&ws, i, ws.len());
    assert(views(rest@) =~= wv.skip(i as int));
    let sp = space();
    join_chars(&rest, &sp)
}

fn trim_to_capitalized_end_chars(s: &Vec<char>) -> (r: Vec<char>)
    ensures
        r@ == trim_to_capitalized_end(s@),
{
    let ws = words_chars(s);
    let ghost wv = views(ws@);
    let mut seen = false;
    let mut i: usize = 0;
    while i < ws.len() && !(seen && !starts_upper_exec(&ws[i]))
        invariant
            wv == views(ws@),
            wv == words(s@),
            i <= ws.len(),
            cap_end(wv, 0, false) == cap_end(wv, i as int, seen),
        decreases ws.len() - i,
    {
        if starts_upper_exec(&ws[i]) {
            seen = true;
        }
        i += 1;
    }
    let end = i;
    let head = copy_pieces(&ws, 0, end);
    assert(views(head@) =~= wv.take(end as int));
    let sp = space();
    join_chars(&head, &sp)
}

/// The path in one chunk of a line, if it holds one.
fn path_of_chunk_chars(chunk: &Vec<char>) -> (r: Option<Vec<char>>)
    ensures
        r matches Some(p) ==> path_of_chunk(chunk@) == Some(p@),
        r is None ==> path_of_chunk(chunk@) is None,
{
    let mut gt: Vec<char> = Vec::new();
    gt.push('>');
    assert(gt@ =~= seq!['>']);
    if find_chars(chunk, &gt).is_none() {
        return None;
    }
    let parts = split_char(chunk, '>');
    let trimmed = trim_all_chars(&parts);
    let ghost pv = trim_all(split_any(chunk@, seq!['>']));
    if trimmed.len() < 2 {
        return None;
    }
    let mut k: usize = 0;
    while k < trimmed.len()
        invariant
            views(trimmed@) == pv,
            pv == trim_all(split_any(chunk@, seq!['>'])),
            contains(chunk@, seq!['>']),
            pv.len() >= 2,
            k <= trimmed.len(),
            forall|j: int| 0 <= j < k ==> (#[trigger] pv[j]).len() != 0 && all_segment_chars(pv[j]),
        decreases trimmed.len() - k,
    {
        if trimmed[k].len() == 0 {
            assert(pv[k as int].len() == 0);
            return None;
        }
        if !all_segment_chars_exec(&trimmed[k]) {
            assert(!all_segment_chars(pv[k as int]));
            return None;
        }
        k += 1;
    }
    let f = trim_to_capitalized_start_chars(&trimmed[0]);
    if f.len() == 0 {
        return None;
    }
    let ghost pv2 = pv.update(0, f@);
    let n = trimmed.len();
    let mut out: Vec<Vec<char>> = Vec::new();
    out.push(f);
    let mut j: usize = 1;
    while j + 1 < n
        invariant
            n == trimmed.len(),
            n >= 2,
            1 <= j <= n - 1,
            views(trimmed@) == pv,
            pv2 == pv.update(0, pv2[0]),
            views(out@) =~= pv2.take(j as int),
        decreases n - j,
    {
        let w = copy_range(&trimmed[j], 0, trimmed[j].len());
        assert(w@ =~= trimmed@[j as int]@);
        proof {
            lemma_views_push(out@, w);
        }
        out.push(w);
        j += 1;
        assert(views(out@) =~= pv2.take(j as int));
    }
    let l = trim_to_capitalized_end_chars(&trimmed[n - 1]);
    if l.len() == 0 {
        return None;
    }
    proof {
        lemma_views_push(out@, l);
    }
    out.push(l);
    assert(views(out@) =~= pv2.update(pv2.len() - 1, trim_to_capitalized_end(pv2[pv2.len() - 1])));
    let sep = path_sep_chars();
    Some(join_chars(&out, &sep))
}

fn path_delims_chars() -> (r: Vec<char>)
    ensures
        r@ == path_delims(),
{
    let mut v: Vec<char> = Vec::new();
    v.push('.');
    v.push(',');
    v.push(';');
    v.push(':');
    v.push('(');
    v.push(')');
    v.push('!');
    v.push('?');
    v.push('\t');
    v.push('`');
    v.push('"');
    assert(v@ =~= path_delims());
    v
}

/// Appends the paths of one line to `out`.
fn scan_line_for_paths(line: &Vec<char>, out: &mut Vec<Vec<char>>)
    ensures
        views(final(out)@) == views(old(out)@) + paths_of_line(line@),
{
    let d = path_delims_chars();
    let chunks = split_any_chars(line, &d);
    let ghost cv = views(chunks@);
    let ghost o0 = views(out@);
    let mut i: usize = 0;
    assert(cv.take(0) =~= Seq::<Seq<char>>::empty());
    while i < chunks.len()
        invariant
            cv == views(chunks@),
            cv == split_any(line@, path_delims()),
            i <= chunks.len(),
            views(out@) =~= o0 + paths_of_chunks(cv.take(i as int)),
        decreases chunks.len() - i,
    {
        assert(cv.take(i + 1).drop_last() =~= cv.take(i as int));
        assert(cv.take(i + 1).last() == chunks@[i as int]@);
        match path_of_chunk_chars(&chunks[i]) {
            Some(p) => {
                proof {
                    lemma_views_push(out@, p);
                }
                out.push(p);
            },
            None => {},
        }
        i += 1;
        assert(views(out@) =~= o0 + paths_of_chunks(cv.take(i as int)));
    }
    assert(cv.take(chunks.len() as int) =~= cv);
}

fn strings_of(v: &Vec<Vec<char>>) -> (r: Vec<String>)
    ensures
        string_views(r@) == views(v@),
{
    let mut out: Vec<String> = Vec::new();
    let mut i: usize = 0;
    while i < v.len()
        invariant
            i <= v.len(),
            string_views(out@) =~= views(v@).take(i as int),
        decreases v.len() - i,
    {
        let st = string_of(&v[i]);
        assert(string_views(out@.push(st)) =~= string_views(out@).push(st@));
        out.push(st);
        i += 1;
        assert(string_views(out@) =~= views(v@).take(i as int));
    }
    assert(views(v@).take(v.len() as int) =~= views(v@));
    out
}

/// All paths `A > B > C` (two segments or more) written in the text.
pub fn extract_paths(text: &str) -> (r: Vec<String>)
    ensures
        string_views(r@) == paths_in(text@),
{
    let s = chars_of(text);
    let ls = lines_chars(&s);
    let ghost lv = views(ls@);
    let mut out: Vec<Vec<char>> = Vec::new();
    let mut i: usize = 0;
    assert(lv.take(0) =~= Seq::<Seq<char>>::empty());
    while i < ls.len()
        invariant
            lv == views(ls@),
            lv == lines(text@),
            i <= ls.len(),
            views(out@) =~= paths_of_lines(lv.take(i as int)),
        decreases ls.len() - i,
    {
        assert(lv.take(i + 1).drop_last() =~= lv.take(i as int));
        assert(lv.take(i + 1).last() == ls@[i as int]@);
        scan_line_for_paths(&ls[i], &mut out);
        i += 1;
    }
    assert(lv.take(ls.len() as int) =~= lv);
    strings_of(&out)
}

/// A path with each segment trimmed, empty segments dropped and segments
/// joined by ` > `.
pub open spec fn normalized(s: Seq<char>) -> Seq<char> {
    join(nonempty(trim_all(split_any(s, seq!['>']))), path_sep())
}

/// Segment `i` of a path joined by ` > ` as splitting at `>` gives it back:
/// with the space before it (but the first) and the space after it (but
/// the last).
spec fn padded(ps: Seq<Seq<char>>, i: int) -> Seq<char> {
    (if i > 0 {
        seq![' ']
    } else {
        Seq::<char>::empty()
    }) + ps[i] + (if i < ps.len() - 1 {
        seq![' ']
    } else {
        Seq::<char>::empty()
    })
}

#[verifier::spinoff_prover]
proof fn lemma_split_joined_path(ps: Seq<Seq<char>>)
    requires
        ps.len() >= 1,
        forall|i: int, j: int| 0 <= i < ps.len() && 0 <= j < ps[i].len() ==> #[trigger] ps[i][j] != '>',
    ensures
        split_any(join(ps, path_sep()), seq!['>']) == Seq::new(ps.len(), |i: int| padded(ps, i)),
    decreases ps.len(),
{
    let d = seq!['>'];
    let empty = Seq::<char>::empty();
    if ps.len() == 1 {
        assert forall|i: int| 0 <= i < ps[0].len() implies !d.contains(#[trigger] ps[0][i]) by {
            assert(ps[0][i] != '>');
        }
        crate::text::lemma_split_extend(empty, ps[0], d);
        assert(empty + ps[0] =~= ps[0]);
        assert(padded(ps, 0) =~= ps[0]);
        assert(split_any(ps[0], d) =~= Seq::new(ps.len(), |i: int| padded(ps, i)));
    } else {
        let init = ps.drop_last();
        assert forall|i: int, j: int| 0 <= i < init.len() && 0 <= j < init[i].len() implies #[trigger] init[i][j] != '>' by {
            assert(init[i] == ps[i]);
        }
        lemma_split_joined_path(init);
        let p = ps.last();
        let x = join(init, path_sep());
        let sp = seq![' '];
        assert(join(ps, path_sep()) =~= (x + sp).push('>') + (sp + p));
        assert forall|i: int| 0 <= i < sp.len() implies !d.contains(#[trigger] sp[i]) by {}
        assert forall|i: int| 0 <= i < (sp + p).len() implies !d.contains(#[trigger] (sp + p)[i]) by {
            if i > 0 {
                assert((sp + p)[i] == ps[ps.len() - 1][i - 1]);
            }
        }
        let s0 = split_any(x, d);
        crate::text::lemma_split_extend(x, sp, d);
        let s1 = s0.update(s0.len() - 1, s0.last() + sp);
        assert(d[0] == '>');
        assert(d.contains('>'));
        crate::text::lemma_split_push_delim(x + sp, '>', d);
        crate::text::lemma_split_extend((x + sp).push('>'), sp + p, d);
        assert(empty + (sp + p) =~= sp + p);
        let res = split_any(join(ps, path_sep()), d);
        assert(res =~= s1.push(sp + p));
        let n = init.len();
        assert forall|i: int| 0 <= i < ps.len() implies #[trigger] res[i] == padded(ps, i) by {
            if i < n - 1 {
                assert(res[i] == s0[i]);
                assert(padded(init, i) =~= padded(ps, i));
            } else if i == n - 1 {
                assert(res[i] == s0.last() + sp);
                assert(padded(init, i) + sp =~= padded(ps, i));
            } else {
                assert(padded(ps, i) =~= sp + p);
            }
        }
        assert(res =~= Seq::new(ps.len(), |i: int| padded(ps, i)));
    }
}

proof fn lemma_trim_all_padded(ps: Seq<Seq<char>>)
    requires
        ps.len() >= 1,
        forall|i: int| 0 <= i < ps.len() ==> (#[trigger] ps[i]).len() > 0 && trim(ps[i]) == ps[i],
    ensures
        trim_all(Seq::new(ps.len(), |i: int| padded(ps, i))) == ps,
{
    let q = Seq::new(ps.len(), |i: int| padded(ps, i));
    assert forall|i: int| 0 <= i < ps.len() implies #[trigger] trim_all(q)[i] == ps[i] by {
        let p = ps[i];
        crate::text::lemma_trim_padded(p);
        let empty = Seq::<char>::empty();
        let sp = seq![' '];
        if i > 0 && i < ps.len() - 1 {
            assert(q[i] =~= sp + p + sp);
        } else if i > 0 {
            assert(q[i] =~= sp + p);
        } else if i < ps.len() - 1 {
            assert(q[i] =~= p + sp);
        } else {
            assert(q[i] =~= p);
        }
    }
    assert(trim_all(q) =~= ps);
}

/// Normalizing a normalized path leaves it as it is: the paths that the
/// ranking gives are already in the form that the file's paths are kept in.
#[verifier::spinoff_prover]
pub proof fn lemma_normalized_idempotent(s: Seq<char>)
    ensures
        normalized(normalized(s)) == normalized(s),
{
    let d = seq!['>'];
    let sp = split_any(s, d);
    let ta = trim_all(sp);
    let ps = nonempty(ta);
    crate::text::lemma_nonempty_elems(ta);
    crate::text::lemma_split_pieces(s, d);
    assert forall|i: int| 0 <= i < ps.len() implies (#[trigger] ps[i]).len() > 0 && trim(ps[i])
        == ps[i] && forall|k: int| 0 <= k < ps[i].len() ==> ps[i][k] != '>' by {
        let j = choose|j: int| 0 <= j < ta.len() && ta[j] == ps[i];
        let x = sp[j];
        assert(ta[j] == trim(x));
        crate::text::lemma_trim_facts(x);
        let a = choose|a: int| 0 <= a && a + trim(x).len() <= x.len() && #[trigger] x.subrange(
            a,
            a + trim(x).len(),
        ) == trim(x);
        assert forall|k: int| 0 <= k < ps[i].len() implies ps[i][k] != '>' by {
            assert(ps[i][k] == x.subrange(a, a + trim(x).len())[k]);
            assert(ps[i][k] == x[a + k]);
            assert(!d.contains(sp[j][a + k]));
            assert(d[0] == '>');
        }
    }
    if ps.len() == 0 {
        let e = Seq::<char>::empty();
        assert(normalized(s) == e);
        assert(split_any(e, d) =~= seq![e]);
        assert(trim(e) =~= e);
        assert(trim_all(seq![e]) =~= seq![e]);
        assert(seq![e].last() == e);
        assert(seq![e].drop_last() =~= Seq::<Seq<char>>::empty());
        assert(nonempty(Seq::<Seq<char>>::empty()) =~= Seq::<Seq<char>>::empty());
        assert(nonempty(seq![e]) =~= Seq::<Seq<char>>::empty());
    } else {
        lemma_split_joined_path(ps);
        lemma_trim_all_padded(ps);
        crate::text::lemma_nonempty_all(ps);
    }
}

pub(crate) fn normalize_chars(s: &Vec<char>) -> (r: Vec<char>)
    ensures
        r@ == normalized(s@),
{
    let parts = split_char(s, '>');
    let trimmed = trim_all_chars(&parts);
    let kept = nonempty_pieces(trimmed);
    let sep = path_sep_chars();
    join_chars(&kept, &sep)
}

/// The path with each segment trimmed, empty segments dropped and segments
/// joined by ` > `.
pub fn normalize_path(s: &str) -> (r: String)
    ensures
        r@ == normalized(s@),
{
    let c = chars_of(s);
    let n = normalize_chars(&c);
    string_of(&n)
}


/// A release proposed for `campos-padrao.md`: the latest release found in
/// the approved replies, written `vX.Y.Z — dd/mm/aaaa`, and the release the
/// file states now, when it states one.
#[derive(Clone, Debug, PartialEq, Eq)]
pub struct ReleaseSuggestion {
    pub proposed: String,
    pub current_in_file: Option<String>,
}

/// What the analysis of the approved replies proposes for
/// `campos-padrao.md`, and how many replies it read.
#[derive(Debug)]
pub struct CamposSuggestions {
    pub release: Option<ReleaseSuggestion>,
    pub paths: Vec<PathSuggestion>,
    pub analyzed_count: usize,
}

impl Default for CamposSuggestions {
    /// No suggestion, nothing analyzed.
    fn default() -> (r: CamposSuggestions)
        ensures
            r.release is None,
            r.paths@.len() == 0,
            r.analyzed_count == 0,
    {
        CamposSuggestions { release: None, paths: Vec::new(), analyzed_count: 0 }
    }
}

/// A path proposed for `campos-padrao.md` with the number of times it was
/// written.
#[derive(Clone, Debug, PartialEq, Eq)]
pub struct PathSuggestion {
    pub path: String,
    pub occurrences: u32,
}

/// The normalized, nonempty paths of a sequence, in order.
pub open spec fn norms(ps: Seq<Seq<char>>) -> Seq<Seq<char>>
    decreases ps.len(),
{
    if ps.len() == 0 {
        Seq::<Seq<char>>::empty()
    } else if normalized(ps.last()).len() == 0 {
        norms(ps.drop_last())
    } else {
        norms(ps.drop_last()).push(normalized(ps.last()))
    }
}

/// How many times `k` occurs in `s`.
pub open spec fn occurrences(s: Seq<Seq<char>>, k: Seq<char>) -> nat
    decreases s.len(),
{
    if s.len() == 0 {
        0
    } else {
        occurrences(s.drop_last(), k) + if s.last() == k {
            1nat
        } else {
            0nat
        }
    }
}

/// `a` comes before `b` or equals it, character by character by code point
/// (the order of `String`).
pub open spec fn lex_le(a: Seq<char>, b: Seq<char>) -> bool
    decreases a.len(),
{
    if a.len() == 0 {
        true
    } else if b.len() == 0 {
        false
    } else if a[0] == b[0] {
        lex_le(a.drop_first(), b.drop_first())
    } else {
        a[0] < b[0]
    }
}

/// A ranked path may stand before another: more occurrences, or as many and
/// a lowercase form that comes first or is equal.
pub open spec fn ranks_before(a: (Seq<char>, u32), b: (Seq<char>, u32)) -> bool {
    a.1 > b.1 || (a.1 == b.1 && lex_le(lowercase_of(a.0), lowercase_of(b.0)))
}

spec fn ranks_before4(pa: Seq<char>, ca: u32, pb: Seq<char>, cb: u32) -> bool {
    ranks_before((pa, ca), (pb, cb))
}

/// `r` ranks the paths `ps` keeping those written at least `min` times: each
/// distinct normalized path once, with its number of occurrences, most
/// frequent first, ties in the order of their lowercase forms.
pub open spec fn is_ranking(ps: Seq<Seq<char>>, min: u32, r: Seq<(Seq<char>, u32)>) -> bool {
    let ns = norms(ps);
    &&& forall|i: int|
        0 <= i < r.len() ==> (#[trigger] r[i]).1 == occurrences(ns, r[i].0) && r[i].1 >= min
            && ns.contains(r[i].0)
    &&& forall|k: Seq<char>|
        ns.contains(k) && occurrences(ns, k) >= min ==> exists|i: int|
            0 <= i < r.len() && (#[trigger] r[i]).0 == k
    &&& forall|i: int, j: int| 0 <= i < j < r.len() ==> (#[trigger] r[i]).0 != (#[trigger] r[j]).0
    &&& forall|i: int, j: int|
        0 <= i < j < r.len() ==> ranks_before(#[trigger] r[i], #[trigger] r[j])
}

/// The suggestions as paths and counts.
pub open spec fn suggestion_views(v: Seq<PathSuggestion>) -> Seq<(Seq<char>, u32)> {
    v.map_values(|x: PathSuggestion| (x.path@, x.occurrences))
}

proof fn lemma_occ_push(s: Seq<Seq<char>>, x: Seq<char>, k: Seq<char>)
    ensures
        occurrences(s.push(x), k) == occurrences(s, k) + if x == k {
            1nat
        } else {
            0nat
        },
{
    assert(s.push(x).drop_last() =~= s);
}

proof fn lemma_occ_contains(s: Seq<Seq<char>>, k: Seq<char>)
    ensures
        occurrences(s, k) > 0 <==> s.contains(k),
        occurrences(s, k) <= s.len(),
    decreases s.len(),
{
    if s.len() > 0 {
        lemma_occ_contains(s.drop_last(), k);
        if s.drop_last().contains(k) {
            let i = choose|i: int| 0 <= i < s.drop_last().len() && s.drop_last()[i] == k;
            assert(s[i] == k);
        }
        if s.contains(k) && s.last() != k {
            let i = choose|i: int| 0 <= i < s.len() && s[i] == k;
            assert(s.drop_last()[i] == k);
        }
    }
}

pub(crate) proof fn lemma_lex_total(a: Seq<char>, b: Seq<char>)
    ensures
        lex_le(a, b) || lex_le(b, a),
    decreases a.len(),
{
    if a.len() > 0 && b.len() > 0 && a[0] == b[0] {
        lemma_lex_total(a.drop_first(), b.drop_first());
    }
}

pub(crate) proof fn lemma_lex_trans(a: Seq<char>, b: Seq<char>, c: Seq<char>)
    requires
        lex_le(a, b),
        lex_le(b, c),
    ensures
        lex_le(a, c),
    decreases a.len(),
{
    if a.len() > 0 && b.len() > 0 && c.len() > 0 && a[0] == b[0] && b[0] == c[0] {
        lemma_lex_trans(a.drop_first(), b.drop_first(), c.drop_first());
    }
}

proof fn lemma_ranks_total(a: (Seq<char>, u32), b: (Seq<char>, u32))
    ensures
        ranks_before(a, b) || ranks_before(b, a),
{
    lemma_lex_total(lowercase_of(a.0), lowercase_of(b.0));
}

proof fn lemma_ranks_trans(a: (Seq<char>, u32), b: (Seq<char>, u32), c: (Seq<char>, u32))
    requires
        ranks_before(a, b),
        ranks_before(b, c),
    ensures
        ranks_before(a, c),
{
    if a.1 == b.1 && b.1 == c.1 {
        lemma_lex_trans(lowercase_of(a.0), lowercase_of(b.0), lowercase_of(c.0));
    }
}

pub(crate) fn lex_le_chars(a: &Vec<char>, b: &Vec<char>) -> (r: bool)
    ensures
        r == lex_le(a@, b@),
{
    let mut i: usize = 0;
    assert(a@.skip(0) =~= a@);
    assert(b@.skip(0) =~= b@);
    while i < a.len() && i < b.len() && a[i] == b[i]
        invariant
            i <= a.len(),
            i <= b.len(),
            lex_le(a@, b@) == lex_le(a@.skip(i as int), b@.skip(i as int)),
        decreases a.len() - i,
    {
        assert(a@.skip(i as int).drop_first() =~= a@.skip(i + 1));
        assert(b@.skip(i as int).drop_first() =~= b@.skip(i + 1));
        i += 1;
    }
    if i == a.len() {
        true
    } else if i == b.len() {
        false
    } else {
        a[i] < b[i]
    }
}

pub(crate) fn eq_chars(a: &Vec<char>, b: &Vec<char>) -> (r: bool)
    ensures
        r == (a@ == b@),
{
    if a.len() != b.len() {
        return false;
    }
    let mut i: usize = 0;
    while i < a.len()
        invariant
            a.len() == b.len(),
            i <= a.len(),
            forall|j: int| 0 <= j < i ==> a@[j] == b@[j],
        decreases a.len() - i,
    {
        if a[i] != b[i] {
            return false;
        }
        i += 1;
    }
    assert(a@ =~= b@);
    true
}

struct Ranked {
    path: Vec<char>,
    lower: Vec<char>,
    count: u32,
}

/// Each entry holds the lowercase form of its path, the paths are distinct
/// and the entries are in ranking order.
spec fn ranked_ok(v: Seq<Ranked>) -> bool {
    &&& forall|i: int| 0 <= i < v.len() ==> (#[trigger] v[i]).lower@ == lowercase_of(v[i].path@)
    &&& forall|a: int, b: int| 0 <= a < b < v.len() ==> (#[trigger] v[a]).path@ != (#[trigger] v[b]).path@
    &&& forall|a: int, b: int|
        0 <= a < b < v.len() ==> ranks_before4(
            (#[trigger] v[a]).path@,
            v[a].count,
            (#[trigger] v[b]).path@,
            v[b].count,
        )
}

/// Inserts an entry at its place in the ranking.
fn insert_ranked(sorted: &mut Vec<Ranked>, item: Ranked)
    requires
        ranked_ok(old(sorted)@),
        item.lower@ == lowercase_of(item.path@),
        forall|i: int| 0 <= i < old(sorted)@.len() ==> (#[trigger] old(sorted)@[i]).path@ != item.path@,
    ensures
        ranked_ok(final(sorted)@),
        forall|x: Ranked| final(sorted)@.contains(x) <==> old(sorted)@.contains(x) || x == item,
{
    let mut p: usize = 0;
    while p < sorted.len() && (sorted[p].count > item.count || (sorted[p].count == item.count
        && lex_le_chars(&sorted[p].lower, &item.lower)))
        invariant
            p <= sorted.len(),
            ranked_ok(sorted@),
            item.lower@ == lowercase_of(item.path@),
            forall|q: int|
                0 <= q < p ==> ranks_before4(
                    (#[trigger] sorted@[q]).path@,
                    sorted@[q].count,
                    item.path@,
                    item.count,
                ),
        decreases sorted.len() - p,
    {
        p += 1;
    }
    let ghost old_sorted = sorted@;
    proof {
        if p < old_sorted.len() {
            lemma_ranks_total(
                (old_sorted[p as int].path@, old_sorted[p as int].count),
                (item.path@, item.count),
            );
            assert forall|q: int| p <= q < old_sorted.len() implies ranks_before4(
                item.path@,
                item.count,
                old_sorted[q].path@,
                old_sorted[q].count,
            ) by {
                if q > p {
                    lemma_ranks_trans(
                        (item.path@, item.count),
                        (old_sorted[p as int].path@, old_sorted[p as int].count),
                        (old_sorted[q].path@, old_sorted[q].count),
                    );
                }
            }
        }
    }
    let ghost it = item;
    sorted.insert(p, item);
    assert forall|i: int| 0 <= i < sorted.len() implies (#[trigger] sorted@[i]).lower@
        == lowercase_of(sorted@[i].path@) by {
        if i < p {
            assert(sorted@[i] == old_sorted[i]);
        } else if i > p {
            assert(sorted@[i] == old_sorted[i - 1]);
        }
    }
    assert forall|a: int, b: int| 0 <= a < b < sorted.len() implies (#[trigger] sorted@[a]).path@
        != (#[trigger] sorted@[b]).path@ && ranks_before4(
        sorted@[a].path@,
        sorted@[a].count,
        sorted@[b].path@,
        sorted@[b].count,
    ) by {
        let oa = if a < p {
            a
        } else {
            a - 1
        };
        let ob = if b < p {
            b
        } else {
            b - 1
        };
        if a != p {
            assert(sorted@[a] == old_sorted[oa]);
        }
        if b != p {
            assert(sorted@[b] == old_sorted[ob]);
        }
    }
    proof {
        lemma_insert_contains(old_sorted, p as int, it);
    }
}

pub(crate) proof fn lemma_insert_contains<A>(s: Seq<A>, p: int, x: A)
    requires
        0 <= p <= s.len(),
    ensures
        forall|y: A| #[trigger] s.insert(p, x).contains(y) <==> s.contains(y) || y == x,
{
    let t = s.insert(p, x);
    assert forall|y: A| #[trigger] t.contains(y) implies s.contains(y) || y == x by {
        let i = choose|i: int| 0 <= i < t.len() && t[i] == y;
        if i < p {
            assert(s[i] == y);
        } else if i > p {
            assert(s[i - 1] == y);
        }
    }
    assert forall|y: A| s.contains(y) || y == x implies #[trigger] t.contains(y) by {
        if y == x {
            assert(t[p] == y);
        } else {
            let i = choose|i: int| 0 <= i < s.len() && s[i] == y;
            if i < p {
                assert(t[i] == y);
            } else {
                assert(t[i + 1] == y);
            }
        }
    }
}

spec fn ranked_views(v: Seq<Ranked>) -> Seq<(Seq<char>, u32)> {
    v.map_values(|x: Ranked| (x.path@, x.count))
}

/// Counts each distinct normalized path, in order of first appearance.
#[verifier::spinoff_prover]
#[verifier::rlimit(40)]
fn count_paths(paths: &[String]) -> (r: (Vec<Vec<char>>, Vec<u32>))
    requires
        paths.len() <= u32::MAX,
    ensures
        r.0.len() == r.1.len(),
        forall|t: int|
            0 <= t < r.0.len() ==> r.1@[t] == occurrences(norms(string_views(paths@)), r.0@[t]@)
                && norms(string_views(paths@)).contains(r.0@[t]@),
        forall|k: Seq<char>|
            norms(string_views(paths@)).contains(k) ==> exists|t: int|
                0 <= t < r.0.len() && (#[trigger] r.0@[t])@ == k,
        forall|a: int, b: int| 0 <= a < b < r.0.len() ==> (#[trigger] r.0@[a])@ != (#[trigger] r.0@[b])@,
{
    let ghost all = string_views(paths@);
    let mut keys: Vec<Vec<char>> = Vec::new();
    let mut counts: Vec<u32> = Vec::new();
    let mut i: usize = 0;
    assert(all.take(0) =~= Seq::<Seq<char>>::empty());
    while i < paths.len()
        invariant
            all == string_views(paths@),
            paths.len() <= u32::MAX,
            i <= paths.len(),
            keys.len() == counts.len(),
            norms(all.take(i as int)).len() <= i,
            forall|t: int|
                0 <= t < keys.len() ==> counts@[t] == occurrences(norms(all.take(i as int)), keys@[t]@)
                    && norms(all.take(i as int)).contains(keys@[t]@),
            forall|k: Seq<char>|
                norms(all.take(i as int)).contains(k) ==> exists|t: int|
                    0 <= t < keys.len() && (#[trigger] keys@[t])@ == k,
            forall|a: int, b: int|
                0 <= a < b < keys.len() ==> (#[trigger] keys@[a])@ != (#[trigger] keys@[b])@,
        decreases paths.len() - i,
    {
        let ghost prev = norms(all.take(i as int));
        assert(all.take(i + 1).drop_last() =~= all.take(i as int));
        assert(all.take(i + 1).last() == paths@[i as int]@);
        let pc = chars_of(paths[i].as_str());
        let n = normalize_chars(&pc);
        let ghost cur = norms(all.take(i + 1));
        if n.len() > 0 {
            assert(cur == prev.push(n@));
            let mut j: usize = 0;
            let mut found = false;
            while j < keys.len() && !found
                invariant
                    j <= keys.len(),
                    !found ==> forall|t: int| 0 <= t < j ==> (#[trigger] keys@[t])@ != n@,
                    found ==> j < keys.len() && keys@[j as int]@ == n@,
                decreases keys.len() - j, (if found { 0int } else { 1int }),
            {
                if eq_chars(&keys[j], &n) {
                    found = true;
                } else {
                    j += 1;
                }
            }
            proof {
                assert forall|k: Seq<char>| true implies occurrences(cur, k) == occurrences(prev, k)
                    + if n@ == k {
                    1nat
                } else {
                    0nat
                } by {
                    lemma_occ_push(prev, n@, k);
                }
                lemma_occ_contains(cur, n@);
                lemma_occ_contains(prev, n@);
                lemma_occ_contains(prev, n@);
            }
            if found {
                proof {
                    lemma_occ_contains(prev, n@);
                    lemma_occ_contains(cur, n@);
                }
                let c = counts[j];
                let ghost old_counts = counts@;
                counts.set(j, c + 1);
                assert forall|t: int|
                    0 <= t < keys.len() implies counts@[t] == occurrences(cur, keys@[t]@)
                    && cur.contains(keys@[t]@) by {
                    lemma_occ_contains(prev, keys@[t]@);
                    lemma_occ_contains(cur, keys@[t]@);
                    lemma_occ_push(prev, n@, keys@[t]@);
                    assert(old_counts[t] == occurrences(prev, keys@[t]@));
                    if t < j {
                        assert(keys@[t]@ != keys@[j as int]@);
                    } else if t > j {
                        assert(keys@[j as int]@ != keys@[t]@);
                    }
                }
                assert forall|k: Seq<char>| cur.contains(k) implies exists|t: int|
                    0 <= t < keys.len() && (#[trigger] keys@[t])@ == k by {
                    lemma_occ_contains(prev, k);
                    lemma_occ_contains(cur, k);
                    if k == n@ {
                        assert(keys@[j as int]@ == k);
                    }
                }
            } else {
                let ghost old_keys = keys@;
                let ghost old_counts = counts@;
                proof {
                    if prev.contains(n@) {
                        let t = choose|t: int| 0 <= t < old_keys.len() && (#[trigger] old_keys[t])@ == n@;
                        assert(false);
                    }
                    lemma_occ_contains(prev, n@);
                }
                keys.push(n);
                counts.push(1);
                assert forall|a: int, b: int|
                    0 <= a < b < keys.len() implies (#[trigger] keys@[a])@ != (#[trigger] keys@[b])@ by {
                    if b == keys.len() - 1 {
                        assert(keys@[a] == old_keys[a]);
                    } else {
                        assert(keys@[a] == old_keys[a]);
                        assert(keys@[b] == old_keys[b]);
                    }
                }
                assert forall|t: int|
                    0 <= t < keys.len() implies counts@[t] == occurrences(cur, keys@[t]@)
                    && cur.contains(keys@[t]@) by {
                    lemma_occ_contains(prev, keys@[t]@);
                    lemma_occ_contains(cur, keys@[t]@);
                    lemma_occ_push(prev, n@, keys@[t]@);
                    if t < old_keys.len() {
                        assert(keys@[t] == old_keys[t]);
                        assert(counts@[t] == old_counts[t]);
                        assert(old_counts[t] == occurrences(prev, old_keys[t]@));
                        assert(old_keys[t]@ != n@);
                    }
                }
                assert forall|k: Seq<char>| cur.contains(k) implies exists|t: int|
                    0 <= t < keys.len() && (#[trigger] keys@[t])@ == k by {
                    lemma_occ_contains(prev, k);
                    lemma_occ_contains(cur, k);
                    if k == n@ {
                        assert(keys@[keys.len() - 1]@ == k);
                    } else {
                        let t = choose|t: int| 0 <= t < old_keys.len() && (#[trigger] old_keys[t])@ == k;
                        assert(keys@[t]@ == k);
                    }
                }
            }
        } else {
            assert(cur == prev);
        }
        assert(forall|t: int|
            0 <= t < keys.len() ==> counts@[t] == occurrences(cur, keys@[t]@) && cur.contains(
                keys@[t]@,
            ));
        i += 1;
        assert(norms(all.take(i as int)) == cur);
    }
    assert(all.take(paths.len() as int) =~= all);
    (keys, counts)
}

/// Groups the paths by their normalized form (empty ones dropped), keeps
/// those written at least `min_occurrences` times and orders them by number
/// of occurrences, most frequent first, then by their lowercase forms.
/// Paths with equal counts and equal lowercase forms may come in any order.
pub fn rank_paths(paths: &[String], min_occurrences: u32) -> (r: Vec<PathSuggestion>)
    requires
        paths.len() <= u32::MAX,
    ensures
        is_ranking(string_views(paths@), min_occurrences, suggestion_views(r@)),
{
    let (keys, counts) = count_paths(paths);
    let ghost ns = norms(string_views(paths@));
    let mut sorted: Vec<Ranked> = Vec::new();
    let mut j: usize = 0;
    while j < keys.len()
        invariant
            keys.len() == counts.len(),
            ns == norms(string_views(paths@)),
            j <= keys.len(),
            forall|t: int|
                0 <= t < keys.len() ==> counts@[t] == occurrences(ns, keys@[t]@) && ns.contains(
                    keys@[t]@,
                ),
            forall|a: int, b: int| 0 <= a < b < keys.len() ==> (#[trigger] keys@[a])@ != (#[trigger] keys@[b])@,
            ranked_ok(sorted@),
            forall|i: int|
                0 <= i < sorted.len() ==> (#[trigger] sorted@[i]).count >= min_occurrences
                    && exists|t: int|
                    0 <= t < j && (#[trigger] keys@[t])@ == sorted@[i].path@ && counts@[t]
                        == sorted@[i].count,
            forall|t: int|
                0 <= t < j && counts@[t] >= min_occurrences ==> exists|i: int|
                    0 <= i < sorted.len() && (#[trigger] sorted@[i]).path@ == (#[trigger] keys@[t])@,
        decreases keys.len() - j,
    {
        if counts[j] >= min_occurrences {
            let path = copy_range(&keys[j], 0, keys[j].len());
            assert(path@ =~= keys@[j as int]@);
            let lower = to_lowercase_chars(&path);
            let count = counts[j];
            let ghost old_sorted = sorted@;
            assert forall|i: int| 0 <= i < old_sorted.len() implies (#[trigger] old_sorted[i]).path@
                != path@ by {
                let t = choose|t: int|
                    0 <= t < j && (#[trigger] keys@[t])@ == old_sorted[i].path@ && counts@[t]
                        == old_sorted[i].count;
                assert(keys@[t]@ != keys@[j as int]@);
            }
            let item = Ranked { path, lower, count };
            let ghost it = item;
            insert_ranked(&mut sorted, item);
            assert forall|i: int|
                0 <= i < sorted.len() implies (#[trigger] sorted@[i]).count >= min_occurrences
                && exists|t: int|
                0 <= t < j + 1 && (#[trigger] keys@[t])@ == sorted@[i].path@ && counts@[t]
                    == sorted@[i].count by {
                assert(sorted@.contains(sorted@[i]));
                if sorted@[i] == it {
                    assert(keys@[j as int]@ == sorted@[i].path@);
                } else {
                    let k = choose|k: int| 0 <= k < old_sorted.len() && old_sorted[k] == sorted@[i];
                    assert(old_sorted[k].count >= min_occurrences);
                }
            }
            assert forall|t: int|
                0 <= t < j + 1 && counts@[t] >= min_occurrences implies exists|i: int|
                0 <= i < sorted.len() && (#[trigger] sorted@[i]).path@ == (#[trigger] keys@[t])@ by {
                if t == j {
                    assert(old_sorted.contains(it) || it == it);
                    assert(sorted@.contains(it));
                    let i = choose|i: int| 0 <= i < sorted.len() && sorted@[i] == it;
                    assert(sorted@[i].path@ == keys@[t]@);
                } else {
                    let i0 = choose|i: int|
                        0 <= i < old_sorted.len() && (#[trigger] old_sorted[i]).path@ == keys@[t]@;
                    assert(old_sorted.contains(old_sorted[i0]));
                    assert(sorted@.contains(old_sorted[i0]));
                    let i = choose|i: int| 0 <= i < sorted.len() && sorted@[i] == old_sorted[i0];
                    assert(sorted@[i].path@ == keys@[t]@);
                }
            }
        }
        j += 1;
    }
    let mut out: Vec<PathSuggestion> = Vec::new();
    let mut i: usize = 0;
    while i < sorted.len()
        invariant
            i <= sorted.len(),
            suggestion_views(out@) =~= ranked_views(sorted@).take(i as int),
        decreases sorted.len() - i,
    {
        let ps = PathSuggestion { path: string_of(&sorted[i].path), occurrences: sorted[i].count };
        assert(suggestion_views(out@.push(ps)) =~= suggestion_views(out@).push(
            (ps.path@, ps.occurrences),
        ));
        out.push(ps);
        i += 1;
        assert(suggestion_views(out@) =~= ranked_views(sorted@).take(i as int));
    }
    assert(ranked_views(sorted@).take(sorted.len() as int) =~= ranked_views(sorted@));
    let ghost rv = suggestion_views(out@);
    assert forall|i: int| 0 <= i < rv.len() implies (#[trigger] rv[i]).1 == occurrences(
        ns,
        rv[i].0,
    ) && rv[i].1 >= min_occurrences && ns.contains(rv[i].0) by {
        assert(rv[i] == (sorted@[i].path@, sorted@[i].count));
    }
    assert forall|k: Seq<char>| ns.contains(k) && occurrences(ns, k) >= min_occurrences implies exists|
        i: int,
    | 0 <= i < rv.len() && (#[trigger] rv[i]).0 == k by {
        let t = choose|t: int| 0 <= t < keys.len() && (#[trigger] keys@[t])@ == k;
        let i0 = choose|i: int|
            0 <= i < sorted.len() && (#[trigger] sorted@[i]).path@ == (#[trigger] keys@[t])@;
        assert(rv[i0].0 == k);
    }
    assert forall|a: int, b: int| 0 <= a < b < rv.len() implies (#[trigger] rv[a]).0 != (
    #[trigger] rv[b]).0 && ranks_before(rv[a], rv[b]) by {
        assert(rv[a] == (sorted@[a].path@, sorted@[a].count));
        assert(rv[b] == (sorted@[b].path@, sorted@[b].count));
    }
    out
}

/// The version of `a` does not exceed that of `b` (tuple order).
pub open spec fn version_le(a: (u32, u32, u32), b: (u32, u32, u32)) -> bool {
    a.0 < b.0 || (a.0 == b.0 && (a.1 < b.1 || (a.1 == b.1 && a.2 <= b.2)))
}

/// The index of the release with the highest version, the last one among
/// equals (`Iterator::max_by`).
pub open spec fn latest_index(rs: Seq<(u32, u32, u32)>) -> int
    decreases rs.len(),
{
    if rs.len() <= 1 {
        0
    } else {
        let m = latest_index(rs.drop_last());
        if version_le(rs[m], rs.last()) {
            rs.len() - 1
        } else {
            m
        }
    }
}

pub open spec fn release_versions(rs: Seq<Release>) -> Seq<(u32, u32, u32)> {
    rs.map_values(|r: Release| r.1)
}

pub(crate) proof fn lemma_latest_index(rs: Seq<(u32, u32, u32)>)
    requires
        rs.len() > 0,
    ensures
        0 <= latest_index(rs) < rs.len(),
        forall|i: int| 0 <= i < rs.len() ==> version_le(#[trigger] rs[i], rs[latest_index(rs)]),
        forall|i: int| latest_index(rs) < i < rs.len() ==> !version_le(rs[latest_index(rs)], #[trigger] rs[i]),
    decreases rs.len(),
{
    if rs.len() > 1 {
        let d = rs.drop_last();
        lemma_latest_index(d);
        let m = latest_index(d);
        assert(rs[m] == d[m]);
        assert forall|i: int| 0 <= i < rs.len() - 1 implies version_le(#[trigger] rs[i], rs[m]) by {
            assert(rs[i] == d[i]);
        }
        assert forall|i: int| m < i < rs.len() - 1 implies !version_le(rs[m], #[trigger] rs[i]) by {
            assert(rs[i] == d[i]);
        }
    }
}

/// The release that `pick_latest_release` picks has the highest version:
/// no release has a higher one, and none after it has one as high.
pub proof fn lemma_latest_is_highest(rs: Seq<(u32, u32, u32)>)
    requires
        rs.len() > 0,
    ensures
        0 <= latest_index(rs) < rs.len(),
        forall|i: int| 0 <= i < rs.len() ==> version_le(#[trigger] rs[i], rs[latest_index(rs)]),
        forall|i: int|
            latest_index(rs) < i < rs.len() ==> !version_le(rs[latest_index(rs)], #[trigger] rs[i]),
{
    lemma_latest_index(rs);
}

/// The release with the highest version (the last one among equal
/// versions), as written canonically; `None` when there is none.
pub fn pick_latest_release(releases: &[Release]) -> (r: Option<String>)
    ensures
        releases.len() == 0 <==> r is None,
        r matches Some(t) ==> t@ == releases@[latest_index(release_versions(releases@))].0@,
{
    if releases.len() == 0 {
        return None;
    }
    let ghost vs = release_versions(releases@);
    let mut m: usize = 0;
    let mut i: usize = 1;
    assert(vs.take(1).drop_last() =~= Seq::<(u32, u32, u32)>::empty());
    while i < releases.len()
        invariant
            vs == release_versions(releases@),
            1 <= i <= releases.len(),
            m < i,
            m == latest_index(vs.take(i as int)),
        decreases releases.len() - i,
    {
        assert(vs.take(i + 1).drop_last() =~= vs.take(i as int));
        let a = releases[m].1;
        let b = releases[i].1;
        if a.0 < b.0 || (a.0 == b.0 && (a.1 < b.1 || (a.1 == b.1 && a.2 <= b.2))) {
            m = i;
        }
        i += 1;
    }
    assert(vs.take(releases.len() as int) =~= vs);
    Some(releases[m].0.clone())
}

} // verus!
