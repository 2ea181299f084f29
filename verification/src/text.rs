//! Text primitives over sequences of characters: whitespace, trimming,
//! splitting, joining, searching and line breaking, each with the exact
//! meaning of the corresponding operation on Rust strings.

use vstd::prelude::*;

verus! {

/// The characters of a string slice, in order: collects `str::chars`, which
/// yields the characters that the slice's view lists.
#[verifier::external_body]
pub(crate) fn chars_of(s: &str) -> (r: Vec<char>)
    ensures
        r@ == s@,
{
    s.chars().collect()
}

/// The text of an optional string slice.
pub open spec fn opt_view(o: Option<&str>) -> Option<Seq<char>> {
    match o {
        Some(v) => Some(v@),
        None => None,
    }
}

/// The string made of the given characters, in order: collects the
/// characters into a `String` (`FromIterator<&char>`), which holds exactly them.
#[verifier::external_body]
pub(crate) fn string_of(v: &Vec<char>) -> (r: String)
    ensures
        r@ == v@,
{
    v.iter().collect()
}

/// The Unicode `White_Space` property, as `char::is_whitespace` tests it.
pub open spec fn is_ws(c: char) -> bool {
    ||| ('\u{9}' <= c && c <= '\u{d}')
    ||| c == ' '
    ||| c == '\u{85}'
    ||| c == '\u{a0}'
    ||| c == '\u{1680}'
    ||| ('\u{2000}' <= c && c <= '\u{200a}')
    ||| c == '\u{2028}'
    ||| c == '\u{2029}'
    ||| c == '\u{202f}'
    ||| c == '\u{205f}'
    ||| c == '\u{3000}'
}

pub fn char_is_ws(c: char) -> (r: bool)
    ensures
        r == is_ws(c),
{
    ('\u{9}' <= c && c <= '\u{d}') || c == ' ' || c == '\u{85}' || c == '\u{a0}' || c
        == '\u{1680}' || ('\u{2000}' <= c && c <= '\u{200a}') || c == '\u{2028}' || c
        == '\u{2029}' || c == '\u{202f}' || c == '\u{205f}' || c == '\u{3000}'
}

/// `char::is_ascii_digit`.
pub open spec fn is_digit(c: char) -> bool {
    '0' <= c && c <= '9'
}

/// `char::is_ascii_whitespace`: space, tab, line feed, form feed, carriage return.
pub open spec fn is_ascii_ws(c: char) -> bool {
    c == ' ' || c == '\t' || c == '\n' || c == '\u{c}' || c == '\r'
}

/// The string without its leading whitespace (`str::trim_start`).
pub open spec fn trim_start(s: Seq<char>) -> Seq<char>
    decreases s.len(),
{
    if s.len() > 0 && is_ws(s[0]) {
        trim_start(s.drop_first())
    } else {
        s
    }
}

/// The string without its trailing whitespace (`str::trim_end`).
pub open spec fn trim_end(s: Seq<char>) -> Seq<char>
    decreases s.len(),
{
    if s.len() > 0 && is_ws(s.last()) {
        trim_end(s.drop_last())
    } else {
        s
    }
}

/// The string without leading and trailing whitespace (`str::trim`).
pub open spec fn trim(s: Seq<char>) -> Seq<char> {
    trim_end(trim_start(s))
}

/// What `trim_start` drops is a run of whitespace at the start of the text.
pub proof fn lemma_trim_start_skip(s: Seq<char>)
    ensures
        trim_start(s).len() <= s.len(),
        trim_start(s) == s.skip(s.len() - trim_start(s).len()),
        forall|i: int| 0 <= i < s.len() - trim_start(s).len() ==> is_ws(#[trigger] s[i]),
        trim_start(s).len() > 0 ==> !is_ws(trim_start(s)[0]),
    decreases s.len(),
{
    if s.len() > 0 && is_ws(s[0]) {
        lemma_trim_start_skip(s.drop_first());
        assert forall|i: int| 0 <= i < s.len() - trim_start(s).len() implies is_ws(#[trigger] s[i]) by {
            if i > 0 {
                assert(s[i] == s.drop_first()[i - 1]);
            }
        }
        assert(s.drop_first().skip(s.drop_first().len() - trim_start(s).len()) =~= s.skip(
            s.len() - trim_start(s).len(),
        ));
    } else {
        assert(s.skip(0) =~= s);
    }
}

/// What `trim_end` drops is a run of whitespace at the end of the text.
pub proof fn lemma_trim_end_take(s: Seq<char>)
    ensures
        trim_end(s).len() <= s.len(),
        trim_end(s) == s.take(trim_end(s).len() as int),
        forall|i: int| trim_end(s).len() <= i < s.len() ==> is_ws(#[trigger] s[i]),
        trim_end(s).len() > 0 ==> !is_ws(trim_end(s).last()),
    decreases s.len(),
{
    if s.len() > 0 && is_ws(s.last()) {
        lemma_trim_end_take(s.drop_last());
        assert forall|i: int| trim_end(s).len() <= i < s.len() implies is_ws(#[trigger] s[i]) by {
            if i < s.len() - 1 {
                assert(s[i] == s.drop_last()[i]);
            }
        }
        assert(s.drop_last().take(trim_end(s).len() as int) =~= s.take(trim_end(s).len() as int));
    } else {
        assert(s.take(s.len() as int) =~= s);
    }
}

/// `trim` keeps a piece of the text, which it leaves unchanged when applied
/// again; a trimmed text that is not empty starts and ends with
/// non-whitespace.
pub proof fn lemma_trim_facts(x: Seq<char>)
    ensures
        exists|a: int| 0 <= a && a + trim(x).len() <= x.len() && #[trigger] x.subrange(a, a + trim(x).len()) == trim(x),
        trim(trim(x)) == trim(x),
        trim(x).len() > 0 ==> !is_ws(trim(x)[0]) && !is_ws(trim(x).last()),
{
    let y = trim_start(x);
    lemma_trim_start_skip(x);
    lemma_trim_end_take(y);
    let t = trim_end(y);
    let a = x.len() - y.len();
    assert(trim(x) == t);
    assert(x.subrange(a, a + trim(x).len()) =~= trim(x));
    if t.len() > 0 {
        assert(t[0] == y[0]);
        assert(trim_start(t) == t);
        lemma_trim_end_take(t);
        assert(trim_end(t) == t);
    } else {
        assert(trim_start(t) == t);
    }
}

proof fn lemma_trim_start_space(x: Seq<char>)
    ensures
        trim_start(seq![' '] + x) == trim_start(x),
{
    assert((seq![' '] + x)[0] == ' ');
    assert((seq![' '] + x).drop_first() =~= x);
}

proof fn lemma_trim_end_space(x: Seq<char>)
    ensures
        trim_end(x + seq![' ']) == trim_end(x),
{
    assert((x + seq![' ']).last() == ' ');
    assert((x + seq![' ']).drop_last() =~= x);
}

pub proof fn lemma_trim_start_nonws(x: Seq<char>)
    requires
        x.len() > 0,
        !is_ws(x[0]),
    ensures
        trim_start(x) == x,
{
}

proof fn lemma_trim_end_nonws(x: Seq<char>)
    requires
        x.len() > 0,
        !is_ws(x.last()),
    ensures
        trim_end(x) == x,
{
}

/// A trimmed, nonempty text stays itself when trimmed with one space on
/// either side or both.
pub proof fn lemma_trim_padded(p: Seq<char>)
    requires
        p.len() > 0,
        trim(p) == p,
    ensures
        trim(seq![' '] + p) == p,
        trim(p + seq![' ']) == p,
        trim(seq![' '] + p + seq![' ']) == p,
{
    let sp = seq![' '];
    lemma_trim_facts(p);
    lemma_trim_start_nonws(p);
    lemma_trim_end_nonws(p);
    lemma_trim_start_space(p);
    let q = p + sp;
    assert(q[0] == p[0]);
    lemma_trim_start_nonws(q);
    lemma_trim_end_space(p);
    lemma_trim_start_space(q);
    assert(sp + p + sp =~= sp + q);
}

/// Dropping the empty pieces keeps nonempty pieces of the sequence.
pub proof fn lemma_nonempty_elems(ps: Seq<Seq<char>>)
    ensures
        forall|i: int| 0 <= i < nonempty(ps).len() ==> (#[trigger] nonempty(ps)[i]).len() > 0
            && ps.contains(nonempty(ps)[i]),
    decreases ps.len(),
{
    if ps.len() > 0 {
        lemma_nonempty_elems(ps.drop_last());
        let prev = nonempty(ps.drop_last());
        assert forall|i: int| 0 <= i < nonempty(ps).len() implies (#[trigger] nonempty(ps)[i]).len()
            > 0 && ps.contains(nonempty(ps)[i]) by {
            if i < prev.len() {
                assert(nonempty(ps)[i] == prev[i]);
                let j = choose|j: int| 0 <= j < ps.drop_last().len() && ps.drop_last()[j] == prev[i];
                assert(ps[j] == prev[i]);
            } else {
                assert(nonempty(ps)[i] == ps.last());
                assert(ps[ps.len() - 1] == ps.last());
            }
        }
    }
}

/// A sequence without empty pieces is left as it is.
pub proof fn lemma_nonempty_all(ps: Seq<Seq<char>>)
    requires
        forall|i: int| 0 <= i < ps.len() ==> (#[trigger] ps[i]).len() > 0,
    ensures
        nonempty(ps) == ps,
    decreases ps.len(),
{
    if ps.len() > 0 {
        assert(ps.last() == ps[ps.len() - 1]);
        lemma_nonempty_all(ps.drop_last());
        assert(ps.drop_last().push(ps.last()) =~= ps);
    }
}

/// Whitespace in front of a text changes nothing to its trimmed start.
pub proof fn lemma_trim_start_ws_prefix(w: Seq<char>, x: Seq<char>)
    requires
        forall|i: int| 0 <= i < w.len() ==> is_ws(#[trigger] w[i]),
    ensures
        trim_start(w + x) == trim_start(x),
    decreases w.len(),
{
    if w.len() > 0 {
        assert((w + x)[0] == w[0]);
        assert((w + x).drop_first() =~= w.drop_first() + x);
        assert forall|i: int| 0 <= i < w.drop_first().len() implies is_ws(
            #[trigger] w.drop_first()[i],
        ) by {
            assert(w.drop_first()[i] == w[i + 1]);
        }
        lemma_trim_start_ws_prefix(w.drop_first(), x);
    } else {
        assert(w + x =~= x);
    }
}

/// A character added at the end of a text that is not blank stays at the
/// end of its trimmed start.
pub proof fn lemma_trim_start_push(y: Seq<char>, c: char)
    requires
        trim_start(y).len() > 0,
    ensures
        trim_start(y.push(c)) == trim_start(y).push(c),
    decreases y.len(),
{
    if y.len() > 0 && is_ws(y[0]) {
        assert(y.push(c)[0] == y[0]);
        assert(y.push(c).drop_first() =~= y.drop_first().push(c));
        lemma_trim_start_push(y.drop_first(), c);
    } else {
        assert(y.len() > 0);
        assert(y.push(c)[0] == y[0]);
    }
}

/// The first occurrence of a single character.
pub proof fn lemma_find_char(s: Seq<char>, c: char, j: int)
    requires
        0 <= j < s.len(),
        s[j] == c,
        forall|k: int| 0 <= k < j ==> s[k] != c,
    ensures
        find(s, seq![c]) == Some(j),
{
    lemma_find_char_from(s, c, j, 0);
}

proof fn lemma_find_char_from(s: Seq<char>, c: char, j: int, i: int)
    requires
        0 <= i <= j < s.len(),
        s[j] == c,
        forall|k: int| 0 <= k < j ==> s[k] != c,
    ensures
        find_from(s, seq![c], i) == Some(j),
    decreases j - i,
{
    assert(s.subrange(i, i + 1)[0] == s[i]);
    if i == j {
        assert(s.subrange(i, i + 1) =~= seq![c]);
    } else {
        assert(s.subrange(i, i + 1) != seq![c]);
        lemma_find_char_from(s, c, j, i + 1);
    }
}

/// No line holds a line feed.
pub proof fn lemma_lines_no_nl(s: Seq<char>)
    ensures
        forall|i: int, j: int|
            0 <= i < lines(s).len() && 0 <= j < lines(s)[i].len() ==> #[trigger] lines(s)[i][j]
                != '\n',
{
    let d = seq!['\n'];
    let ps = split_any(s, d);
    lemma_split_pieces(s, d);
    lemma_split_any_len(s, d);
    assert forall|i: int, j: int|
        0 <= i < lines(s).len() && 0 <= j < lines(s)[i].len() implies #[trigger] lines(s)[i][j]
        != '\n' by {
        if i < ps.len() - 1 {
            assert(lines(s)[i] == strip_cr(ps[i]));
            assert(lines(s)[i][j] == ps[i][j]);
        } else {
            assert(lines(s)[i] == ps[i]);
        }
        assert(!d.contains(ps[i][j]));
        assert(d[0] == '\n');
    }
}

/// The characters `s[a..b]`.
pub fn copy_range(s: &Vec<char>, a: usize, b: usize) -> (r: Vec<char>)
    requires
        a <= b <= s.len(),
    ensures
        r@ == s@.subrange(a as int, b as int),
{
    let mut r: Vec<char> = Vec::new();
    let mut i = a;
    while i < b
        invariant
            a <= i <= b <= s.len(),
            r@ == s@.subrange(a as int, i as int),
        decreases b - i,
    {
        r.push(s[i]);
        i += 1;
        assert(r@ =~= s@.subrange(a as int, i as int));
    }
    r
}

/// The index of the first character of `s` that is not whitespace.
pub fn trim_start_index(s: &Vec<char>) -> (k: usize)
    ensures
        k <= s.len(),
        trim_start(s@) == s@.skip(k as int),
        forall|j: int| 0 <= j < k ==> is_ws(#[trigger] s@[j]),
        k < s.len() ==> !is_ws(s@[k as int]),
{
    let mut i: usize = 0;
    assert(s@.skip(0) =~= s@);
    while i < s.len() && char_is_ws(s[i])
        invariant
            i <= s.len(),
            trim_start(s@) == trim_start(s@.skip(i as int)),
            forall|j: int| 0 <= j < i ==> is_ws(#[trigger] s@[j]),
        decreases s.len() - i,
    {
        assert(s@.skip(i as int).drop_first() =~= s@.skip(i + 1));
        i += 1;
    }
    i
}

/// The length of `s` without its trailing whitespace.
pub fn trim_end_index(s: &Vec<char>) -> (k: usize)
    ensures
        k <= s.len(),
        trim_end(s@) == s@.take(k as int),
        forall|j: int| k <= j < s.len() ==> is_ws(#[trigger] s@[j]),
        k > 0 ==> !is_ws(s@[k - 1]),
{
    let mut i: usize = s.len();
    assert(s@.take(s.len() as int) =~= s@);
    while i > 0 && char_is_ws(s[i - 1])
        invariant
            i <= s.len(),
            trim_end(s@) == trim_end(s@.take(i as int)),
            forall|j: int| i <= j < s.len() ==> is_ws(#[trigger] s@[j]),
        decreases i,
    {
        assert(s@.take(i as int).drop_last() =~= s@.take(i - 1));
        i -= 1;
    }
    i
}

/// `str::trim_start`.
pub fn trim_start_chars(s: &Vec<char>) -> (r: Vec<char>)
    ensures
        r@ == trim_start(s@),
{
    let k = trim_start_index(s);
    let r = copy_range(s, k, s.len());
    assert(r@ =~= s@.skip(k as int));
    r
}

/// `str::trim_end`.
pub fn trim_end_chars(s: &Vec<char>) -> (r: Vec<char>)
    ensures
        r@ == trim_end(s@),
{
    let k = trim_end_index(s);
    let r = copy_range(s, 0, k);
    assert(r@ =~= s@.take(k as int));
    r
}

/// `str::trim`.
pub fn trim_chars(s: &Vec<char>) -> (r: Vec<char>)
    ensures
        r@ == trim(s@),
{
    let t = trim_start_chars(s);
    trim_end_chars(&t)
}


/// The characters of a sequence of vectors of characters.
pub open spec fn views(v: Seq<Vec<char>>) -> Seq<Seq<char>> {
    v.map_values(|x: Vec<char>| x@)
}

pub proof fn lemma_views_push(v: Seq<Vec<char>>, x: Vec<char>)
    ensures
        views(v.push(x)) == views(v).push(x@),
{
    assert(views(v.push(x)) =~= views(v).push(x@));
}

/// Each piece trimmed.
pub open spec fn trim_all(ps: Seq<Seq<char>>) -> Seq<Seq<char>> {
    ps.map_values(|p: Seq<char>| trim(p))
}

/// Each piece trimmed (`.map(str::trim)`).
pub fn trim_all_chars(ps: &Vec<Vec<char>>) -> (r: Vec<Vec<char>>)
    ensures
        views(r@) == trim_all(views(ps@)),
{
    let ghost pv = trim_all(views(ps@));
    let mut out: Vec<Vec<char>> = Vec::new();
    let mut i: usize = 0;
    while i < ps.len()
        invariant
            i <= ps.len(),
            pv == trim_all(views(ps@)),
            views(out@) =~= pv.take(i as int),
        decreases ps.len() - i,
    {
        let t = trim_chars(&ps[i]);
        proof {
            lemma_views_push(out@, t);
        }
        out.push(t);
        i += 1;
        assert(views(out@) =~= pv.take(i as int));
    }
    assert(pv.take(ps.len() as int) =~= pv);
    out
}

/// The pieces of `s` between the characters of `delims`, as `str::split`
/// gives them with a set of characters as the pattern: one more piece than
/// there are delimiters, empty pieces included.
pub open spec fn split_any(s: Seq<char>, delims: Seq<char>) -> Seq<Seq<char>>
    decreases s.len(),
{
    if s.len() == 0 {
        seq![Seq::<char>::empty()]
    } else {
        let prev = split_any(s.drop_last(), delims);
        if delims.contains(s.last()) {
            prev.push(Seq::<char>::empty())
        } else {
            prev.update(prev.len() - 1, prev.last().push(s.last()))
        }
    }
}

pub proof fn lemma_split_any_len(s: Seq<char>, delims: Seq<char>)
    ensures
        split_any(s, delims).len() >= 1,
    decreases s.len(),
{
    if s.len() > 0 {
        lemma_split_any_len(s.drop_last(), delims);
    }
}

/// The pieces of `s` between whitespace characters, empty ones included.
pub open spec fn split_ws(s: Seq<char>) -> Seq<Seq<char>>
    decreases s.len(),
{
    if s.len() == 0 {
        seq![Seq::<char>::empty()]
    } else {
        let prev = split_ws(s.drop_last());
        if is_ws(s.last()) {
            prev.push(Seq::<char>::empty())
        } else {
            prev.update(prev.len() - 1, prev.last().push(s.last()))
        }
    }
}

/// Appending characters that are not delimiters extends the last piece.
pub proof fn lemma_split_extend(x: Seq<char>, p: Seq<char>, d: Seq<char>)
    requires
        forall|i: int| 0 <= i < p.len() ==> !d.contains(#[trigger] p[i]),
    ensures
        split_any(x + p, d) == split_any(x, d).update(
            split_any(x, d).len() - 1,
            split_any(x, d).last() + p,
        ),
    decreases p.len(),
{
    lemma_split_any_len(x, d);
    let s = split_any(x, d);
    if p.len() == 0 {
        assert(x + p =~= x);
        assert(s.last() + p =~= s.last());
        assert(s.update(s.len() - 1, s.last() + p) =~= s);
    } else {
        let q = p.drop_last();
        lemma_split_extend(x, q, d);
        assert((x + p).drop_last() =~= x + q);
        assert((x + p).last() == p.last());
        assert(!d.contains(p[p.len() - 1]));
        let prev = split_any(x + q, d);
        assert(prev.last() == s.last() + q);
        assert(prev.last().push(p.last()) =~= s.last() + p);
        assert(split_any(x + p, d) =~= s.update(s.len() - 1, s.last() + p));
    }
}

/// Appending a delimiter starts a new, empty piece.
pub proof fn lemma_split_push_delim(x: Seq<char>, c: char, d: Seq<char>)
    requires
        d.contains(c),
    ensures
        split_any(x.push(c), d) == split_any(x, d).push(Seq::<char>::empty()),
{
    assert(x.push(c).drop_last() =~= x);
}

/// No piece holds a delimiter.
pub proof fn lemma_split_pieces(s: Seq<char>, d: Seq<char>)
    ensures
        forall|i: int, j: int|
            0 <= i < split_any(s, d).len() && 0 <= j < split_any(s, d)[i].len() ==> !d.contains(
                #[trigger] split_any(s, d)[i][j],
            ),
    decreases s.len(),
{
    if s.len() > 0 {
        lemma_split_pieces(s.drop_last(), d);
        lemma_split_any_len(s.drop_last(), d);
        let prev = split_any(s.drop_last(), d);
        assert forall|i: int, j: int|
            0 <= i < split_any(s, d).len() && 0 <= j < split_any(s, d)[i].len() implies !d.contains(
            #[trigger] split_any(s, d)[i][j],
        ) by {
            if !d.contains(s.last()) && i == prev.len() - 1 {
                if j < prev.last().len() {
                    assert(split_any(s, d)[i][j] == prev[i][j]);
                }
            } else if i < prev.len() {
                assert(split_any(s, d)[i] == prev[i]);
            }
        }
    }
}

/// Splitting lines joined by a character they do not hold gives them back.
pub proof fn lemma_split_join(ls: Seq<Seq<char>>, c: char)
    requires
        ls.len() >= 1,
        forall|i: int, j: int| 0 <= i < ls.len() && 0 <= j < ls[i].len() ==> #[trigger] ls[i][j] != c,
    ensures
        split_any(join(ls, seq![c]), seq![c]) == ls,
    decreases ls.len(),
{
    let d = seq![c];
    if ls.len() == 1 {
        assert forall|i: int| 0 <= i < ls[0].len() implies !d.contains(#[trigger] ls[0][i]) by {
            assert(ls[0][i] != c);
        }
        lemma_split_extend(Seq::<char>::empty(), ls[0], d);
        assert(Seq::<char>::empty() + ls[0] =~= ls[0]);
        assert(Seq::<char>::empty() + ls[0] =~= ls[0]);
        assert(split_any(ls[0], d) =~= ls);
    } else {
        let init = ls.drop_last();
        assert forall|i: int, j: int| 0 <= i < init.len() && 0 <= j < init[i].len() implies #[trigger] init[i][j] != c by {
            assert(init[i] == ls[i]);
        }
        lemma_split_join(init, c);
        let p = ls.last();
        assert forall|i: int| 0 <= i < p.len() implies !d.contains(#[trigger] p[i]) by {
            assert(ls[ls.len() - 1][i] != c);
        }
        let x = join(init, d).push(c);
        assert(join(ls, d) =~= x + p);
        assert(join(init, d) + d =~= x);
        assert(d[0] == c);
        assert(d.contains(c));
        lemma_split_push_delim(join(init, d), c, d);
        lemma_split_extend(x, p, d);
        assert(Seq::<char>::empty() + p =~= p);
        assert(split_any(x + p, d) =~= ls);
    }
}

pub proof fn lemma_split_ws_len(s: Seq<char>)
    ensures
        split_ws(s).len() >= 1,
    decreases s.len(),
{
    if s.len() > 0 {
        lemma_split_ws_len(s.drop_last());
    }
}

/// The nonempty pieces of a sequence of pieces, in order.
pub open spec fn nonempty(ps: Seq<Seq<char>>) -> Seq<Seq<char>>
    decreases ps.len(),
{
    if ps.len() == 0 {
        ps
    } else if ps.last().len() == 0 {
        nonempty(ps.drop_last())
    } else {
        nonempty(ps.drop_last()).push(ps.last())
    }
}

/// The words of `s` (`str::split_whitespace`).
pub open spec fn words(s: Seq<char>) -> Seq<Seq<char>> {
    nonempty(split_ws(s))
}

/// The pieces joined with `sep` between consecutive pieces (`join`).
pub open spec fn join(ps: Seq<Seq<char>>, sep: Seq<char>) -> Seq<char>
    decreases ps.len(),
{
    if ps.len() == 0 {
        Seq::<char>::empty()
    } else if ps.len() == 1 {
        ps[0]
    } else {
        join(ps.drop_last(), sep) + sep + ps.last()
    }
}

/// `str::split` with a set of characters as the pattern.
pub fn split_any_chars(s: &Vec<char>, delims: &Vec<char>) -> (r: Vec<Vec<char>>)
    ensures
        views(r@) == split_any(s@, delims@),
{
    let mut out: Vec<Vec<char>> = Vec::new();
    let mut cur: Vec<char> = Vec::new();
    let mut i: usize = 0;
    assert(s@.take(0) =~= Seq::<char>::empty());
    assert(views(out@).push(cur@) =~= split_any(s@.take(0), delims@));
    while i < s.len()
        invariant
            i <= s.len(),
            views(out@).push(cur@) =~= split_any(s@.take(i as int), delims@),
        decreases s.len() - i,
    {
        let c = s[i];
        let ghost prev = split_any(s@.take(i as int), delims@);
        assert(s@.take(i + 1).drop_last() =~= s@.take(i as int));
        assert(s@.take(i + 1).last() == c);
        let mut is_delim = false;
        let mut k: usize = 0;
        while k < delims.len()
            invariant
                k <= delims.len(),
                is_delim <==> exists|j: int| 0 <= j < k && delims@[j] == c,
            decreases delims.len() - k,
        {
            if delims[k] == c {
                is_delim = true;
            }
            k += 1;
        }
        assert(is_delim <==> delims@.contains(c));
        if is_delim {
            let old_cur = cur;
            out.push(old_cur);
            cur = Vec::new();
        } else {
            cur.push(c);
        }
        i += 1;
    }
    assert(s@.take(s.len() as int) =~= s@);
    out.push(cur);
    out
}

/// `str::split` with one character as the pattern.
pub fn split_char(s: &Vec<char>, c: char) -> (r: Vec<Vec<char>>)
    ensures
        views(r@) == split_any(s@, seq![c]),
{
    let mut d: Vec<char> = Vec::new();
    d.push(c);
    assert(d@ =~= seq![c]);
    split_any_chars(s, &d)
}

/// The pieces of `s` between whitespace characters, empty ones included.
pub fn split_ws_chars(s: &Vec<char>) -> (r: Vec<Vec<char>>)
    ensures
        views(r@) == split_ws(s@),
{
    let mut out: Vec<Vec<char>> = Vec::new();
    let mut cur: Vec<char> = Vec::new();
    let mut i: usize = 0;
    assert(s@.take(0) =~= Seq::<char>::empty());
    assert(views(out@).push(cur@) =~= split_ws(s@.take(0)));
    while i < s.len()
        invariant
            i <= s.len(),
            views(out@).push(cur@) =~= split_ws(s@.take(i as int)),
        decreases s.len() - i,
    {
        let c = s[i];
        assert(s@.take(i + 1).drop_last() =~= s@.take(i as int));
        assert(s@.take(i + 1).last() == c);
        if char_is_ws(c) {
            let old_cur = cur;
            out.push(old_cur);
            cur = Vec::new();
        } else {
            cur.push(c);
        }
        i += 1;
    }
    assert(s@.take(s.len() as int) =~= s@);
    out.push(cur);
    out
}

/// The nonempty pieces, in order.
pub fn nonempty_pieces(ps: Vec<Vec<char>>) -> (r: Vec<Vec<char>>)
    ensures
        views(r@) == nonempty(views(ps@)),
{
    let mut out: Vec<Vec<char>> = Vec::new();
    let mut i: usize = 0;
    let n = ps.len();
    let ghost all = views(ps@);
    assert(all.take(0) =~= Seq::<Seq<char>>::empty());
    while i < n
        invariant
            n == ps.len(),
            all == views(ps@),
            i <= n,
            views(out@) =~= nonempty(all.take(i as int)),
        decreases n - i,
    {
        assert(all.take(i + 1).drop_last() =~= all.take(i as int));
        assert(all.take(i + 1).last() == ps@[i as int]@);
        if ps[i].len() > 0 {
            let p = copy_range(&ps[i], 0, ps[i].len());
            assert(p@ =~= ps@[i as int]@);
            out.push(p);
        }
        i += 1;
    }
    assert(all.take(n as int) =~= all);
    out
}

/// `str::split_whitespace`.
pub fn words_chars(s: &Vec<char>) -> (r: Vec<Vec<char>>)
    ensures
        views(r@) == words(s@),
{
    let ps = split_ws_chars(s);
    nonempty_pieces(ps)
}

/// Appends all of `b` to `a`.
pub fn extend(a: &mut Vec<char>, b: &Vec<char>)
    ensures
        final(a)@ == old(a)@ + b@,
{
    let mut i: usize = 0;
    let ghost a0 = a@;
    while i < b.len()
        invariant
            i <= b.len(),
            a@ =~= a0 + b@.take(i as int),
        decreases b.len() - i,
    {
        a.push(b[i]);
        i += 1;
        assert(a@ =~= a0 + b@.take(i as int));
    }
    assert(b@.take(b.len() as int) =~= b@);
}

/// Appends the characters of `s` to `a`.
pub fn extend_str(a: &mut Vec<char>, s: &str)
    ensures
        final(a)@ == old(a)@ + s@,
{
    let c = chars_of(s);
    extend(a, &c);
}

/// The pieces joined with `sep` between consecutive pieces.
pub fn join_chars(ps: &Vec<Vec<char>>, sep: &Vec<char>) -> (r: Vec<char>)
    ensures
        r@ == join(views(ps@), sep@),
{
    let mut out: Vec<char> = Vec::new();
    let mut i: usize = 0;
    let ghost all = views(ps@);
    assert(all.take(0) =~= Seq::<Seq<char>>::empty());
    while i < ps.len()
        invariant
            all == views(ps@),
            i <= ps.len(),
            out@ == join(all.take(i as int), sep@),
        decreases ps.len() - i,
    {
        assert(all.take(i + 1).drop_last() =~= all.take(i as int));
        assert(all.take(i + 1).last() == ps@[i as int]@);
        if i > 0 {
            extend(&mut out, sep);
        }
        extend(&mut out, &ps[i]);
        i += 1;
        assert(i == 1 ==> all.take(i as int) =~= seq![ps@[0]@]);
    }
    assert(all.take(ps.len() as int) =~= all);
    out
}


/// A line without the carriage return that ended it.
pub open spec fn strip_cr(p: Seq<char>) -> Seq<char> {
    if p.len() > 0 && p.last() == '\r' {
        p.drop_last()
    } else {
        p
    }
}

/// The lines of `s` (`str::lines`): pieces between line feeds, a carriage
/// return right before a line feed dropped, and no empty line after a final
/// line feed.
pub open spec fn lines(s: Seq<char>) -> Seq<Seq<char>> {
    let ps = split_any(s, seq!['\n']);
    let init = ps.drop_last().map_values(|p: Seq<char>| strip_cr(p));
    if ps.last().len() == 0 {
        init
    } else {
        init.push(ps.last())
    }
}

/// `str::lines`.
pub fn lines_chars(s: &Vec<char>) -> (r: Vec<Vec<char>>)
    ensures
        views(r@) == lines(s@),
{
    let ps = split_char(s, '\n');
    proof {
        lemma_split_any_len(s@, seq!['\n']);
    }
    let ghost all = views(ps@);
    let n = ps.len();
    let mut out: Vec<Vec<char>> = Vec::new();
    let mut i: usize = 0;
    while i + 1 < n
        invariant
            n == ps.len(),
            n >= 1,
            all == views(ps@),
            all == split_any(s@, seq!['\n']),
            i + 1 <= n,
            views(out@) =~= all.take(i as int).map_values(|p: Seq<char>| strip_cr(p)),
        decreases n - i,
    {
        let p = &ps[i];
        let mut q = copy_range(p, 0, p.len());
        if q.len() > 0 && q[q.len() - 1] == '\r' {
            q.pop();
        }
        assert(p@.subrange(0, p@.len() as int) =~= p@);
        assert(q@ =~= strip_cr(all[i as int]));
        out.push(q);
        i += 1;
        assert(all.take(i as int).map_values(|p: Seq<char>| strip_cr(p)) =~= all.take(
            (i - 1) as int,
        ).map_values(|p: Seq<char>| strip_cr(p)).push(strip_cr(all[i - 1])));
    }
    assert(all.take(i as int) =~= all.drop_last());
    let last = &ps[n - 1];
    if last.len() > 0 {
        let q = copy_range(last, 0, last.len());
        assert(q@ =~= all.last());
        out.push(q);
    }
    out
}

/// `p` occurs in `s` at index `i`.
pub open spec fn is_at(s: Seq<char>, i: int, p: Seq<char>) -> bool {
    0 <= i && i + p.len() <= s.len() && s.subrange(i, i + p.len()) == p
}

/// The first index at or after `i` where `p` occurs in `s`.
pub open spec fn find_from(s: Seq<char>, p: Seq<char>, i: int) -> Option<int>
    decreases s.len() + 1 - i,
{
    if i < 0 || i + p.len() > s.len() {
        None
    } else if is_at(s, i, p) {
        Some(i)
    } else {
        find_from(s, p, i + 1)
    }
}

/// The first index where `p` occurs in `s` (`str::find`).
pub open spec fn find(s: Seq<char>, p: Seq<char>) -> Option<int> {
    find_from(s, p, 0)
}

/// `str::contains`.
pub open spec fn contains(s: Seq<char>, p: Seq<char>) -> bool {
    find(s, p) is Some
}

/// `str::starts_with`.
pub open spec fn starts_with(s: Seq<char>, p: Seq<char>) -> bool {
    p.len() <= s.len() && s.take(p.len() as int) == p
}

/// `str::ends_with`.
pub open spec fn ends_with(s: Seq<char>, p: Seq<char>) -> bool {
    p.len() <= s.len() && s.skip(s.len() - p.len()) == p
}

pub proof fn lemma_find_from(s: Seq<char>, p: Seq<char>, i: int)
    requires
        0 <= i,
    ensures
        find_from(s, p, i) matches Some(j) ==> i <= j && is_at(s, j, p) && forall|k: int|
            i <= k < j ==> !is_at(s, k, p),
        find_from(s, p, i) is None ==> forall|k: int| i <= k ==> !is_at(s, k, p),
    decreases s.len() + 1 - i,
{
    if i < 0 || i + p.len() > s.len() {
    } else if is_at(s, i, p) {
    } else {
        lemma_find_from(s, p, i + 1);
    }
}

/// `p` occurs in `s` at index `i`.
pub fn is_at_chars(s: &Vec<char>, i: usize, p: &Vec<char>) -> (r: bool)
    ensures
        r == is_at(s@, i as int, p@),
{
    if i > s.len() || p.len() > s.len() - i {
        return false;
    }
    let mut k: usize = 0;
    while k < p.len()
        invariant
            i + p.len() <= s.len(),
            k <= p.len(),
            forall|j: int| 0 <= j < k ==> s@[i + j] == p@[j],
        decreases p.len() - k,
    {
        if s[i + k] != p[k] {
            assert(s@.subrange(i as int, i + p.len())[k as int] != p@[k as int]);
            return false;
        }
        k += 1;
    }
    assert(s@.subrange(i as int, i + p.len()) =~= p@);
    true
}

/// The first index at or after `i` where `p` occurs in `s`.
pub fn find_from_chars(s: &Vec<char>, p: &Vec<char>, i: usize) -> (r: Option<usize>)
    ensures
        r matches Some(j) ==> find_from(s@, p@, i as int) == Some(j as int),
        r is None ==> find_from(s@, p@, i as int) is None,
{
    if p.len() == 0 {
        if i <= s.len() {
            assert(s@.subrange(i as int, i as int) =~= p@);
            return Some(i);
        }
        return None;
    }
    let mut k = i;
    while p.len() <= s.len() && k <= s.len() - p.len()
        invariant
            i <= k,
            p.len() > 0,
            find_from(s@, p@, i as int) == find_from(s@, p@, k as int),
        decreases s.len() + 1 - k,
    {
        if is_at_chars(s, k, p) {
            return Some(k);
        }
        k += 1;
    }
    None
}

/// `str::find`.
pub fn find_chars(s: &Vec<char>, p: &Vec<char>) -> (r: Option<usize>)
    ensures
        r matches Some(j) ==> find(s@, p@) == Some(j as int),
        r is None ==> find(s@, p@) is None,
{
    find_from_chars(s, p, 0)
}

/// `str::starts_with`.
pub fn starts_with_chars(s: &Vec<char>, p: &Vec<char>) -> (r: bool)
    ensures
        r == starts_with(s@, p@),
{
    let r = is_at_chars(s, 0, p);
    assert(r ==> s@.take(p@.len() as int) =~= s@.subrange(0, p@.len() as int));
    assert(starts_with(s@, p@) ==> s@.take(p@.len() as int) =~= s@.subrange(0, p@.len() as int));
    r
}

/// `str::ends_with`.
pub fn ends_with_chars(s: &Vec<char>, p: &Vec<char>) -> (r: bool)
    ensures
        r == ends_with(s@, p@),
{
    if p.len() > s.len() {
        return false;
    }
    let r = is_at_chars(s, s.len() - p.len(), p);
    assert(s@.skip(s@.len() - p@.len()) =~= s@.subrange(s@.len() - p@.len(), s@.len() as int));
    r
}

/// `p` occurs in `s` at index `i`, and `i` starts a line.
pub open spec fn at_line_start(s: Seq<char>, i: int, p: Seq<char>) -> bool {
    is_at(s, i, p) && (i == 0 || s[i - 1] == '\n')
}

/// The number of lines at or after index `i` of `s` that begin with `p`.
pub open spec fn line_starts_from(s: Seq<char>, p: Seq<char>, i: int) -> nat
    decreases s.len() - i,
{
    if i < 0 || i >= s.len() {
        0
    } else {
        (if at_line_start(s, i, p) {
            1nat
        } else {
            0nat
        }) + line_starts_from(s, p, i + 1)
    }
}

/// The number of lines of `s` that begin with `p`.
pub open spec fn count_line_starts(s: Seq<char>, p: Seq<char>) -> nat {
    line_starts_from(s, p, 0)
}

pub fn count_line_starts_chars(s: &Vec<char>, p: &Vec<char>) -> (r: usize)
    ensures
        r == count_line_starts(s@, p@),
{
    let mut i: usize = s.len();
    let mut n: usize = 0;
    while i > 0
        invariant
            i <= s.len(),
            n <= s.len() - i,
            n == line_starts_from(s@, p@, i as int),
        decreases i,
    {
        i -= 1;
        let head = is_at_chars(s, i, p) && (i == 0 || s[i - 1] == '\n');
        if head {
            n += 1;
        }
    }
    n
}

/// Counting lines in `b` is counting them in `a + b` from `a.len()` on,
/// where the seam does not change whether `b` opens with `p`.
proof fn lemma_line_starts_shift(a: Seq<char>, b: Seq<char>, p: Seq<char>, j: int)
    requires
        0 <= j,
        j > 0 || a.len() == 0 || a.last() == '\n' || !is_at(b, 0, p),
    ensures
        line_starts_from(a + b, p, a.len() + j) == line_starts_from(b, p, j),
    decreases b.len() - j,
{
    let s = a + b;
    if j >= b.len() {
    } else {
        if j + p.len() <= b.len() {
            assert(s.subrange(a.len() + j, a.len() + j + p.len()) =~= b.subrange(j, j + p.len()));
        }
        if j > 0 {
            assert(s[a.len() + j - 1] == b[j - 1]);
        } else if a.len() > 0 {
            assert(s[a.len() - 1] == a.last());
        }
        assert(at_line_start(s, a.len() + j, p) == at_line_start(b, j, p));
        lemma_line_starts_shift(a, b, p, j + 1);
    }
}

proof fn lemma_line_starts_concat_from(a: Seq<char>, b: Seq<char>, p: Seq<char>, i: int)
    requires
        0 <= i <= a.len(),
        forall|k: int|
            0 <= k < a.len() && a.len() < k + p.len() ==> !#[trigger] is_at(a + b, k, p),
        a.len() == 0 || a.last() == '\n' || !is_at(b, 0, p),
    ensures
        line_starts_from(a + b, p, i) == line_starts_from(a, p, i) + line_starts_from(b, p, 0),
    decreases a.len() - i,
{
    let s = a + b;
    if i == a.len() {
        lemma_line_starts_shift(a, b, p, 0);
    } else {
        if i + p.len() <= a.len() {
            assert(s.subrange(i, i + p.len()) =~= a.subrange(i, i + p.len()));
        }
        if i > 0 {
            assert(s[i - 1] == a[i - 1]);
        }
        assert(at_line_start(s, i, p) == at_line_start(a, i, p));
        lemma_line_starts_concat_from(a, b, p, i + 1);
    }
}

/// Lines of `a + b` that begin with `p` are those of `a` and those of `b`,
/// where no occurrence reaches across the seam and the seam does not change
/// whether `b` opens with `p`.
pub proof fn lemma_line_starts_concat(a: Seq<char>, b: Seq<char>, p: Seq<char>)
    requires
        forall|k: int|
            0 <= k < a.len() && a.len() < k + p.len() ==> !#[trigger] is_at(a + b, k, p),
        a.len() == 0 || a.last() == '\n' || !is_at(b, 0, p),
    ensures
        count_line_starts(a + b, p) == count_line_starts(a, p) + count_line_starts(b, p),
{
    lemma_line_starts_concat_from(a, b, p, 0);
}

/// The seam rule of `lemma_line_starts_concat` holds where the right side
/// starts with a character that `p` lacks.
pub proof fn lemma_line_starts_concat_sep(a: Seq<char>, b: Seq<char>, p: Seq<char>)
    requires
        p.len() > 0,
        b.len() > 0,
        forall|j: int| 0 <= j < p.len() ==> p[j] != b[0],
    ensures
        count_line_starts(a + b, p) == count_line_starts(a, p) + count_line_starts(b, p),
{
    let s = a + b;
    assert forall|k: int| 0 <= k < a.len() && a.len() < k + p.len() implies !#[trigger] is_at(
        s,
        k,
        p,
    ) by {
        if is_at(s, k, p) {
            assert(s.subrange(k, k + p.len())[a.len() - k] == s[a.len() as int]);
            assert(p[a.len() - k] == b[0]);
        }
    }
    if is_at(b, 0, p) {
        assert(b.subrange(0, p.len() as int)[0] == b[0]);
    }
    lemma_line_starts_concat(a, b, p);
}

/// The seam rule of `lemma_line_starts_concat` holds where the right side
/// holds neither the first nor the last character of `p`.
pub proof fn lemma_line_starts_concat_tail(a: Seq<char>, b: Seq<char>, p: Seq<char>)
    requires
        p.len() > 0,
        forall|k: int| 0 <= k < b.len() ==> b[k] != p.last() && b[k] != p[0],
    ensures
        count_line_starts(a + b, p) == count_line_starts(a, p) + count_line_starts(b, p),
{
    let s = a + b;
    assert forall|k: int| 0 <= k < a.len() && a.len() < k + p.len() implies !#[trigger] is_at(
        s,
        k,
        p,
    ) by {
        if is_at(s, k, p) {
            let e = k + p.len() - 1;
            assert(s.subrange(k, k + p.len())[p.len() - 1] == s[e]);
            assert(s[e] == b[e - a.len()]);
        }
    }
    if is_at(b, 0, p) {
        assert(b.subrange(0, p.len() as int)[0] == b[0]);
    }
    lemma_line_starts_concat(a, b, p);
}

/// The seam rule of `lemma_line_starts_concat` holds where the left side
/// ends a line and holds no first character of `p`.
pub proof fn lemma_line_starts_concat_nl(a: Seq<char>, b: Seq<char>, p: Seq<char>)
    requires
        p.len() > 0,
        a.len() > 0,
        a.last() == '\n',
        forall|k: int| 0 <= k < a.len() ==> a[k] != p[0],
    ensures
        count_line_starts(a + b, p) == count_line_starts(a, p) + count_line_starts(b, p),
{
    let s = a + b;
    assert forall|k: int| 0 <= k < a.len() && a.len() < k + p.len() implies !#[trigger] is_at(
        s,
        k,
        p,
    ) by {
        if is_at(s, k, p) {
            assert(s.subrange(k, k + p.len())[0] == s[k]);
            assert(s[k] == a[k]);
        }
    }
    lemma_line_starts_concat(a, b, p);
}

proof fn lemma_line_starts_none_from(s: Seq<char>, p: Seq<char>, i: int)
    requires
        forall|k: int| i <= k < s.len() ==> !#[trigger] at_line_start(s, k, p),
    ensures
        line_starts_from(s, p, i) == 0,
    decreases s.len() - i,
{
    if i < 0 || i >= s.len() {
    } else {
        lemma_line_starts_none_from(s, p, i + 1);
    }
}

/// A text where no line begins with `p` counts none.
pub proof fn lemma_line_starts_none(s: Seq<char>, p: Seq<char>)
    requires
        forall|k: int| 0 <= k < s.len() ==> !#[trigger] at_line_start(s, k, p),
    ensures
        count_line_starts(s, p) == 0,
{
    lemma_line_starts_none_from(s, p, 0);
}

/// A text without the first character of `p` has no line that begins with it.
pub proof fn lemma_line_starts_none_char(s: Seq<char>, p: Seq<char>)
    requires
        p.len() > 0,
        forall|k: int| 0 <= k < s.len() ==> s[k] != p[0],
    ensures
        count_line_starts(s, p) == 0,
{
    assert forall|k: int| 0 <= k < s.len() implies !#[trigger] at_line_start(s, k, p) by {
        if is_at(s, k, p) {
            assert(s.subrange(k, k + p.len())[0] == s[k]);
        }
    }
    lemma_line_starts_none(s, p);
}

/// Past the first character of `a`, no line of `a + b` starts before `b`
/// when `a` holds no line feed; from there on the lines are those of `b`
/// that begin after its first character.
pub proof fn lemma_line_starts_inline(a: Seq<char>, b: Seq<char>, p: Seq<char>, i: int)
    requires
        1 <= i <= a.len(),
        forall|k: int| 0 <= k < a.len() ==> a[k] != '\n',
    ensures
        line_starts_from(a + b, p, i) == line_starts_from(b, p, 1),
    decreases a.len() - i,
{
    let s = a + b;
    if i == a.len() {
        if b.len() == 0 {
        } else {
            assert(s[i - 1] == a[i - 1]);
            lemma_line_starts_shift(a, b, p, 1);
        }
    } else {
        assert(s[i - 1] == a[i - 1]);
        lemma_line_starts_inline(a, b, p, i + 1);
    }
}

/// The character of decimal digit `d`.
pub open spec fn digit_char(d: int) -> char {
    ((48 + d) as u8) as char
}

/// The decimal digits of `n`, most significant first, without leading zeros.
pub open spec fn dec(n: nat) -> Seq<char>
    decreases n,
{
    if n < 10 {
        seq![digit_char(n as int)]
    } else {
        dec(n / 10).push(digit_char((n % 10) as int))
    }
}

/// `s` padded on the left with zeros up to width `w` (`{:0w}`).
pub open spec fn pad_zeros(s: Seq<char>, w: nat) -> Seq<char> {
    if s.len() >= w {
        s
    } else {
        Seq::new((w - s.len()) as nat, |_i: int| '0') + s
    }
}

/// The decimal digits of `n` (`{}` on an unsigned integer).
pub fn dec_chars(n: u64) -> (r: Vec<char>)
    ensures
        r@ == dec(n as nat),
    decreases n,
{
    let d = (48u8 + (n % 10) as u8) as char;
    if n < 10 {
        let mut v: Vec<char> = Vec::new();
        v.push(d);
        assert(v@ =~= dec(n as nat));
        v
    } else {
        let mut v = dec_chars(n / 10);
        v.push(d);
        v
    }
}

/// `n` in decimal, padded on the left with zeros up to width `w`.
pub fn dec_padded(n: u64, w: usize) -> (r: Vec<char>)
    ensures
        r@ == pad_zeros(dec(n as nat), w as nat),
{
    let d = dec_chars(n);
    if d.len() >= w {
        return d;
    }
    let mut r: Vec<char> = Vec::new();
    let mut i: usize = 0;
    while i < w - d.len()
        invariant
            d.len() < w,
            i <= w - d.len(),
            r@ =~= Seq::new(i as nat, |_i: int| '0'),
        decreases w - d.len() - i,
    {
        r.push('0');
        i += 1;
    }
    extend(&mut r, &d);
    r
}

/// An ASCII lowercase letter, an ASCII digit or a hyphen: characters that
/// `str::to_lowercase` keeps as they are.
pub open spec fn is_plain_lower(c: char) -> bool {
    ('a' <= c && c <= 'z') || ('0' <= c && c <= '9') || c == '-'
}

/// What `str::to_lowercase` returns on a string with these characters.
pub uninterp spec fn lowercase_of(s: Seq<char>) -> Seq<char>;

/// What `str::to_uppercase` returns on a string with these characters.
pub uninterp spec fn uppercase_of(s: Seq<char>) -> Seq<char>;

/// What `char::is_uppercase` returns (the Unicode `Uppercase` property).
pub uninterp spec fn is_upper(c: char) -> bool;

/// What `char::is_alphanumeric` returns (alphabetic or numeric in Unicode).
pub uninterp spec fn is_alnum(c: char) -> bool;

/// Calls `str::to_lowercase` on the string of these characters; its result
/// is named `lowercase_of` of the input, as the Unicode case tables decide it.
/// A string of ASCII lowercase letters, digits and hyphens comes back as it
/// is, those characters being their own lowercase forms.
#[verifier::external_body]
pub(crate) fn to_lowercase_chars(s: &Vec<char>) -> (r: Vec<char>)
    ensures
        r@ == lowercase_of(s@),
        (forall|i: int| 0 <= i < s@.len() ==> is_plain_lower(#[trigger] s@[i])) ==> r@ == s@,
{
    let st: String = s.iter().collect();
    st.to_lowercase().chars().collect()
}

/// Calls `str::to_uppercase` on the string of these characters; its result
/// is named `uppercase_of` of the input, as the Unicode case tables decide it.
#[verifier::external_body]
pub(crate) fn to_uppercase_chars(s: &Vec<char>) -> (r: Vec<char>)
    ensures
        r@ == uppercase_of(s@),
{
    let st: String = s.iter().collect();
    st.to_uppercase().chars().collect()
}

/// Calls `char::is_uppercase`; its result is named `is_upper`.
#[verifier::external_body]
pub(crate) fn char_is_upper(c: char) -> (r: bool)
    ensures
        r == is_upper(c),
{
    c.is_uppercase()
}

/// Calls `char::is_alphanumeric`; its result is named `is_alnum`.
#[verifier::external_body]
pub(crate) fn char_is_alnum(c: char) -> (r: bool)
    ensures
        r == is_alnum(c),
{
    c.is_alphanumeric()
}

} // verus!
