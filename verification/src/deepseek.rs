//! What is sent to the DeepSeek chat model and what is made of its replies:
//! the chat messages, the prompts of each request, the category slug, and the
//! recovery of a JSON value or a Markdown document from a free-form reply.
//! The HTTP exchange itself is done by the application.

use vstd::prelude::*;
use crate::stats::string_views;
use crate::text::{
    chars_of, copy_range, dec, dec_chars, ends_with, ends_with_chars, extend, find, find_chars,
    join, join_chars, lowercase_of, opt_view, starts_with, starts_with_chars, string_of,
    to_lowercase_chars, trim, trim_chars, trim_end, views, words, words_chars,
};
use crate::vault::pair_views;

verus! {

/// One message of a chat request: its role (`system`, `user`) and its text.
#[derive(Clone, Debug)]
pub struct ChatMessage {
    pub role: String,
    pub content: String,
}

/// An expression that the user keeps removing from the generated replies,
/// as the model proposes it for `evitar.md`.
#[derive(Clone, Debug)]
pub struct EvitarSuggestion {
    pub expression: String,
    pub reason: String,
    pub occurrences: u32,
}

/// The test scenarios the model proposes for a change; a field that does
/// not apply is empty.
#[derive(Clone, Debug)]
pub struct TestScenariosSuggestion {
    pub happy_path: String,
    pub edge_cases: String,
    pub negative_cases: String,
    pub acceptance_criteria: String,
    pub regression_areas: String,
    pub risks: String,
}

impl Default for TestScenariosSuggestion {
    /// The suggestion with every field empty.
    fn default() -> (r: TestScenariosSuggestion)
        ensures
            r.happy_path@.len() == 0,
            r.edge_cases@.len() == 0,
            r.negative_cases@.len() == 0,
            r.acceptance_criteria@.len() == 0,
            r.regression_areas@.len() == 0,
            r.risks@.len() == 0,
    {
        TestScenariosSuggestion::empty()
    }
}

impl TestScenariosSuggestion {
    /// The suggestion with every field empty, used when the reply cannot be read.
    pub fn empty() -> (r: TestScenariosSuggestion)
        ensures
            r.happy_path@.len() == 0,
            r.edge_cases@.len() == 0,
            r.negative_cases@.len() == 0,
            r.acceptance_criteria@.len() == 0,
            r.regression_areas@.len() == 0,
            r.risks@.len() == 0,
    {
        TestScenariosSuggestion {
            happy_path: String::new(),
            edge_cases: String::new(),
            negative_cases: String::new(),
            acceptance_criteria: String::new(),
            regression_areas: String::new(),
            risks: String::new(),
        }
    }
}

/// A recurring phrase of the approved replies, as a template with
/// placeholders, and when to use it.
#[derive(Clone, Debug)]
pub struct PhraseTemplate {
    pub situation: String,
    pub template: String,
    pub occurrences: u32,
}

/// The ASCII letter or digit that a character of a lowercase category name
/// becomes in its slug: itself for `a-z` and `0-9`, the base letter for the
/// accented vowels, `ç` and `ñ`; nothing for any other character.
pub open spec fn slug_char(c: char) -> Option<char> {
    if ('a' <= c && c <= 'z') || ('0' <= c && c <= '9') {
        Some(c)
    } else if c == 'á' || c == 'à' || c == 'â' || c == 'ã' || c == 'ä' {
        Some('a')
    } else if c == 'é' || c == 'è' || c == 'ê' || c == 'ë' {
        Some('e')
    } else if c == 'í' || c == 'ì' || c == 'î' || c == 'ï' {
        Some('i')
    } else if c == 'ó' || c == 'ò' || c == 'ô' || c == 'õ' || c == 'ö' {
        Some('o')
    } else if c == 'ú' || c == 'ù' || c == 'û' || c == 'ü' {
        Some('u')
    } else if c == 'ç' {
        Some('c')
    } else if c == 'ñ' {
        Some('n')
    } else {
        None
    }
}

/// The slug built from the characters `cs` before trailing dashes are
/// dropped: kept characters mapped, and one dash for each run of other
/// characters that follows a kept character.
pub open spec fn slug_scan(cs: Seq<char>) -> Seq<char>
    decreases cs.len(),
{
    if cs.len() == 0 {
        Seq::<char>::empty()
    } else {
        let prev = slug_scan(cs.drop_last());
        match slug_char(cs.last()) {
            Some(ch) => prev.push(ch),
            None => if prev.len() > 0 && prev.last() != '-' {
                prev.push('-')
            } else {
                prev
            },
        }
    }
}

/// The base letter of an accented vowel, `ç` or `ñ` as Portuguese and
/// Spanish write them (`á à â ã ä`, `é è ê ë`, `í ì î ï`, `ó ò ô õ ö`,
/// `ú ù û ü`); any other character as it is.
pub open spec fn base_letter(c: char) -> char {
    if c == 'á' || c == 'à' || c == 'â' || c == 'ã' || c == 'ä' {
        'a'
    } else if c == 'é' || c == 'è' || c == 'ê' || c == 'ë' {
        'e'
    } else if c == 'í' || c == 'ì' || c == 'î' || c == 'ï' {
        'i'
    } else if c == 'ó' || c == 'ò' || c == 'ô' || c == 'õ' || c == 'ö' {
        'o'
    } else if c == 'ú' || c == 'ù' || c == 'û' || c == 'ü' {
        'u'
    } else if c == 'ç' {
        'c'
    } else if c == 'ñ' {
        'n'
    } else {
        c
    }
}

/// The text with every accented letter replaced by its base letter.
pub open spec fn without_accents(cs: Seq<char>) -> Seq<char> {
    cs.map_values(|c: char| base_letter(c))
}

/// Accented letters fold to their base letter in a slug: scanning a
/// lowercase name gives the same slug as scanning it with its accents
/// removed, so `crédito` and `credito` share one slug.
pub proof fn lemma_slug_scan_folds_accents(cs: Seq<char>)
    ensures
        slug_scan(cs) == slug_scan(without_accents(cs)),
    decreases cs.len(),
{
    if cs.len() > 0 {
        let d = without_accents(cs);
        assert(d.drop_last() =~= without_accents(cs.drop_last()));
        assert(d.last() == base_letter(cs.last()));
        lemma_slug_scan_folds_accents(cs.drop_last());
        assert(slug_char(base_letter(cs.last())) == slug_char(cs.last()));
    }
}

/// Two category names whose lowercase forms differ only in accents have the
/// same slug, and so share one examples file.
pub proof fn lemma_slug_ignores_accents(a: Seq<char>, b: Seq<char>)
    requires
        without_accents(lowercase_of(a)) == without_accents(lowercase_of(b)),
    ensures
        slug(a) == slug(b),
{
    lemma_slug_scan_folds_accents(lowercase_of(a));
    lemma_slug_scan_folds_accents(lowercase_of(b));
}

/// The text without its trailing dashes.
pub open spec fn strip_dashes(s: Seq<char>) -> Seq<char>
    decreases s.len(),
{
    if s.len() > 0 && s.last() == '-' {
        strip_dashes(s.drop_last())
    } else {
        s
    }
}

/// The slug of a category name: its lowercase form scanned by `slug_scan`,
/// trailing dashes dropped, or `geral` when nothing is left.
pub open spec fn slug(s: Seq<char>) -> Seq<char> {
    let t = strip_dashes(slug_scan(lowercase_of(s)));
    if t.len() == 0 {
        "geral"@
    } else {
        t
    }
}

/// A character that a slug may hold: an ASCII lowercase letter, a digit or a dash.
pub open spec fn is_slug_char(c: char) -> bool {
    ('a' <= c && c <= 'z') || ('0' <= c && c <= '9') || c == '-'
}

/// A well-formed slug: nonempty, made of `is_slug_char` characters, without a
/// dash at either end and without two dashes in a row.
pub open spec fn is_slug(s: Seq<char>) -> bool {
    &&& s.len() > 0
    &&& forall|i: int| 0 <= i < s.len() ==> is_slug_char(#[trigger] s[i])
    &&& s[0] != '-'
    &&& s.last() != '-'
    &&& forall|i: int| 0 <= i < s.len() - 1 ==> !(#[trigger] s[i] == '-' && s[i + 1] == '-')
}

fn slug_char_exec(c: char) -> (r: Option<char>)
    ensures
        r == slug_char(c),
{
    if ('a' <= c && c <= 'z') || ('0' <= c && c <= '9') {
        Some(c)
    } else if c == 'á' || c == 'à' || c == 'â' || c == 'ã' || c == 'ä' {
        Some('a')
    } else if c == 'é' || c == 'è' || c == 'ê' || c == 'ë' {
        Some('e')
    } else if c == 'í' || c == 'ì' || c == 'î' || c == 'ï' {
        Some('i')
    } else if c == 'ó' || c == 'ò' || c == 'ô' || c == 'õ' || c == 'ö' {
        Some('o')
    } else if c == 'ú' || c == 'ù' || c == 'û' || c == 'ü' {
        Some('u')
    } else if c == 'ç' {
        Some('c')
    } else if c == 'ñ' {
        Some('n')
    } else {
        None
    }
}

/// The scan keeps the slug shape: allowed characters only, no leading dash,
/// no two dashes in a row.
proof fn lemma_slug_scan_shape(cs: Seq<char>)
    ensures
        ({
            let t = slug_scan(cs);
            &&& forall|i: int| 0 <= i < t.len() ==> is_slug_char(#[trigger] t[i])
            &&& t.len() > 0 ==> t[0] != '-'
            &&& forall|i: int| 0 <= i < t.len() - 1 ==> !(#[trigger] t[i] == '-' && t[i + 1] == '-')
        }),
    decreases cs.len(),
{
    if cs.len() > 0 {
        lemma_slug_scan_shape(cs.drop_last());
    }
}

/// Dropping trailing dashes keeps a prefix and leaves no dash at the end.
proof fn lemma_strip_dashes(s: Seq<char>)
    ensures
        strip_dashes(s).len() <= s.len(),
        strip_dashes(s) == s.take(strip_dashes(s).len() as int),
        strip_dashes(s).len() > 0 ==> strip_dashes(s).last() != '-',
    decreases s.len(),
{
    if s.len() > 0 && s.last() == '-' {
        lemma_strip_dashes(s.drop_last());
        assert(s.drop_last().take(strip_dashes(s).len() as int) =~= s.take(
            strip_dashes(s).len() as int,
        ));
    } else {
        assert(s.take(s.len() as int) =~= s);
    }
}

/// Every slug is well formed: nonempty, lowercase ASCII letters, digits and
/// single dashes, never a dash at either end.
pub proof fn lemma_slug_is_well_formed(s: Seq<char>)
    ensures
        is_slug(slug(s)),
{
    let t0 = slug_scan(lowercase_of(s));
    lemma_slug_scan_shape(lowercase_of(s));
    lemma_strip_dashes(t0);
    let t = strip_dashes(t0);
    if t.len() == 0 {
        reveal_strlit("geral");
    } else {
        assert forall|i: int| 0 <= i < t.len() implies is_slug_char(#[trigger] t[i]) by {
            assert(t[i] == t0[i]);
        }
        assert(t[0] == t0[0]);
        assert forall|i: int| 0 <= i < t.len() - 1 implies !(#[trigger] t[i] == '-' && t[i + 1]
            == '-') by {
            assert(t[i] == t0[i]);
            assert(t[i + 1] == t0[i + 1]);
        }
    }
}

/// A well-formed slug scans to itself.
proof fn lemma_slug_scan_fixed(t: Seq<char>)
    requires
        forall|i: int| 0 <= i < t.len() ==> is_slug_char(#[trigger] t[i]),
        t.len() > 0 ==> t[0] != '-',
        forall|i: int| 0 <= i < t.len() - 1 ==> !(#[trigger] t[i] == '-' && t[i + 1] == '-'),
    ensures
        slug_scan(t) == t,
    decreases t.len(),
{
    if t.len() > 0 {
        let d = t.drop_last();
        assert forall|i: int| 0 <= i < d.len() implies is_slug_char(#[trigger] d[i]) by {
            assert(d[i] == t[i]);
        }
        assert forall|i: int| 0 <= i < d.len() - 1 implies !(#[trigger] d[i] == '-' && d[i + 1]
            == '-') by {
            assert(d[i] == t[i] && d[i + 1] == t[i + 1]);
        }
        if d.len() > 0 {
            assert(d[0] == t[0]);
        }
        lemma_slug_scan_fixed(d);
        let c = t.last();
        assert(is_slug_char(c)) by {
            assert(t[t.len() - 1] == c);
        }
        if c == '-' {
            assert(t.len() >= 2);
            assert(!(t[t.len() - 2] == '-' && t[t.len() - 1] == '-'));
            assert(d.last() == t[t.len() - 2]);
        }
        assert(d.push(c) =~= t);
    }
}

/// Normalizes a category name into an ASCII kebab-case slug:
/// "Fiscal" → "fiscal", "Notas Fiscais" → "notas-fiscais", "Promoção" →
/// "promocao"; a name with nothing usable gives "geral".
#[verifier::spinoff_prover]
pub fn slugify_category(s: &str) -> (r: String)
    ensures
        r@ == slug(s@),
        is_slug(r@),
        is_slug(s@) ==> r@ == s@,
{
    let cs = chars_of(s);
    let lowered = to_lowercase_chars(&cs);
    proof {
        if is_slug(s@) {
            assert forall|i: int| 0 <= i < cs@.len() implies crate::text::is_plain_lower(
                #[trigger] cs@[i],
            ) by {
                assert(is_slug_char(s@[i]));
            }
            assert(lowered@ == s@);
            lemma_slug_scan_fixed(s@);
        }
    }
    let mut out: Vec<char> = Vec::new();
    let mut i: usize = 0;
    assert(lowered@.take(0) =~= Seq::<char>::empty());
    while i < lowered.len()
        invariant
            i <= lowered.len(),
            out@ == slug_scan(lowered@.take(i as int)),
        decreases lowered.len() - i,
    {
        let c = lowered[i];
        assert(lowered@.take(i + 1).drop_last() =~= lowered@.take(i as int));
        match slug_char_exec(c) {
            Some(ch) => {
                out.push(ch);
            },
            None => {
                if out.len() > 0 && out[out.len() - 1] != '-' {
                    out.push('-');
                }
            },
        }
        i += 1;
    }
    assert(lowered@.take(lowered.len() as int) =~= lowered@);
    while out.len() > 0 && out[out.len() - 1] == '-'
        invariant
            strip_dashes(out@) == strip_dashes(slug_scan(lowered@)),
        decreases out.len(),
    {
        out.pop();
    }
    proof {
        lemma_slug_is_well_formed(s@);
    }
    if out.len() == 0 {
        let g = chars_of("geral");
        return string_of(&g);
    }
    string_of(&out)
}


/// Where the JSON value opened at `start` closes: the scan goes on from `i`
/// with the nesting `depth`, inside a string or not, right after a
/// backslash in a string or not. Brackets inside strings do not count, and a
/// backslash in a string escapes the next character.
pub open spec fn json_close(
    s: Seq<char>,
    open: char,
    close: char,
    i: int,
    depth: int,
    in_str: bool,
    esc: bool,
) -> Option<int>
    decreases s.len() - i,
{
    if i < 0 || i >= s.len() {
        None
    } else {
        let c = s[i];
        if esc {
            json_close(s, open, close, i + 1, depth, in_str, false)
        } else if c == '\\' && in_str {
            json_close(s, open, close, i + 1, depth, in_str, true)
        } else if c == '"' {
            json_close(s, open, close, i + 1, depth, !in_str, false)
        } else if in_str {
            json_close(s, open, close, i + 1, depth, in_str, false)
        } else if c == open {
            json_close(s, open, close, i + 1, depth + 1, in_str, false)
        } else if c == close {
            if depth - 1 == 0 {
                Some(i)
            } else {
                json_close(s, open, close, i + 1, depth - 1, in_str, false)
            }
        } else {
            json_close(s, open, close, i + 1, depth, in_str, false)
        }
    }
}

/// The first balanced JSON value of `s` opened by `open` and closed by
/// `close`: from the first `open` to the `close` that balances it.
pub open spec fn json_span(s: Seq<char>, open: char, close: char) -> Option<Seq<char>> {
    match find(s, seq![open]) {
        None => None,
        Some(st) => match json_close(s, open, close, st, 0, false, false) {
            Some(e) => Some(s.subrange(st, e + 1)),
            None => None,
        },
    }
}

proof fn lemma_json_close(
    s: Seq<char>,
    open: char,
    close: char,
    i: int,
    depth: int,
    in_str: bool,
    esc: bool,
)
    ensures
        json_close(s, open, close, i, depth, in_str, esc) matches Some(e) ==> i <= e < s.len()
            && s[e] == close,
    decreases s.len() - i,
{
    if 0 <= i < s.len() {
        let c = s[i];
        lemma_json_close(s, open, close, i + 1, depth, in_str, false);
        lemma_json_close(s, open, close, i + 1, depth, in_str, true);
        lemma_json_close(s, open, close, i + 1, depth, !in_str, false);
        lemma_json_close(s, open, close, i + 1, depth + 1, in_str, false);
        lemma_json_close(s, open, close, i + 1, depth - 1, in_str, false);
    }
}

/// A JSON value recovered from a reply is a piece of the reply that begins
/// with the opening bracket and ends with the closing one.
pub proof fn lemma_json_span_bracketed(s: Seq<char>, open: char, close: char)
    ensures
        json_span(s, open, close) matches Some(v) ==> {
            &&& v.len() >= 1
            &&& v[0] == open
            &&& v.last() == close
            &&& exists|st: int| #[trigger] crate::text::is_at(s, st, v)
        },
{
    match find(s, seq![open]) {
        None => {},
        Some(st) => {
            crate::text::lemma_find_from(s, seq![open], 0);
            lemma_json_close(s, open, close, st, 0, false, false);
            match json_close(s, open, close, st, 0, false, false) {
                Some(e) => {
                    let v = s.subrange(st, e + 1);
                    assert(s.subrange(st, st + 1)[0] == s[st]);
                    assert(v[0] == s[st]);
                    assert(v.last() == s[e]);
                    assert(crate::text::is_at(s, st, v));
                },
                None => {},
            }
        },
    }
}

#[verifier::spinoff_prover]
fn json_span_chars(s: &Vec<char>, open: char, close: char) -> (r: Option<Vec<char>>)
    requires
        open != '"' && open != '\\' && close != '"' && close != '\\' && open != close,
    ensures
        r matches Some(v) ==> json_span(s@, open, close) == Some(v@),
        r is None ==> json_span(s@, open, close) is None,
{
    let mut o: Vec<char> = Vec::new();
    o.push(open);
    assert(o@ =~= seq![open]);
    let start = match find_chars(s, &o) {
        Some(st) => st,
        None => {
            return None;
        },
    };
    proof {
        crate::text::lemma_find_from(s@, o@, 0);
        assert(s@[start as int] == o@[0]) by {
            assert(s@.subrange(start as int, start + 1)[0] == s@[start as int]);
        }
    }
    let mut depth: usize = 0;
    let mut in_str = false;
    let mut esc = false;
    let mut i = start;
    while i < s.len()
        invariant
            start <= i <= s.len(),
            s@[start as int] == open,
            i == start ==> depth == 0 && !in_str && !esc,
            i > start ==> depth >= 1,
            depth <= i - start,
            json_close(s@, open, close, start as int, 0, false, false) == json_close(
                s@,
                open,
                close,
                i as int,
                depth as int,
                in_str,
                esc,
            ),
            open != '"' && open != '\\' && close != '"' && close != '\\' && open != close,
            find(s@, seq![open]) == Some(start as int),
        decreases s.len() - i,
    {
        let c = s[i];
        if esc {
            esc = false;
        } else if c == '\\' && in_str {
            esc = true;
        } else if c == '"' {
            in_str = !in_str;
        } else if in_str {
        } else if c == open {
            depth += 1;
        } else if c == close {
            if depth - 1 == 0 {
                let v = copy_range(s, start, i + 1);
                assert(json_close(s@, open, close, i as int, depth as int, in_str, esc) == Some(
                    i as int,
                ));
                assert(find(s@, seq![open]) == Some(start as int));
                return Some(v);
            }
            depth -= 1;
        }
        i += 1;
    }
    None
}

/// The first balanced JSON object `{...}` of the text, braces inside strings
/// and escaped quotes taken into account.
pub fn extract_json_object(s: &str) -> (r: Option<String>)
    ensures
        r matches Some(v) ==> json_span(s@, '{', '}') == Some(v@),
        r is None ==> json_span(s@, '{', '}') is None,
{
    let c = chars_of(s);
    match json_span_chars(&c, '{', '}') {
        Some(v) => Some(string_of(&v)),
        None => None,
    }
}

/// The first balanced JSON array `[...]` of the text, brackets inside
/// strings and escaped quotes taken into account.
pub fn extract_json_array(s: &str) -> (r: Option<String>)
    ensures
        r matches Some(v) ==> json_span(s@, '[', ']') == Some(v@),
        r is None ==> json_span(s@, '[', ']') is None,
{
    let c = chars_of(s);
    match json_span_chars(&c, '[', ']') {
        Some(v) => Some(string_of(&v)),
        None => None,
    }
}

/// Where the document starts: at 0 when the text opens with a level-one
/// heading `# `, else right after the first line feed followed by `# `.
pub open spec fn first_h1(s: Seq<char>) -> Option<int> {
    if starts_with(s, "# "@) {
        Some(0)
    } else {
        match find(s, "\n# "@) {
            Some(p) => Some(p + 1),
            None => None,
        }
    }
}

/// The index (in characters) where the first level-one heading starts.
pub fn find_first_h1(s: &Vec<char>) -> (r: Option<usize>)
    ensures
        r matches Some(p) ==> first_h1(s@) == Some(p as int) && p <= s.len(),
        r is None ==> first_h1(s@) is None,
{
    let h = chars_of("# ");
    if starts_with_chars(s, &h) {
        return Some(0);
    }
    let nh = chars_of("\n# ");
    match find_chars(s, &nh) {
        Some(p) => {
            proof {
                crate::text::lemma_find_from(s@, nh@, 0);
                reveal_strlit("\n# ");
                assert(nh@.len() == 3);
                assert(crate::text::is_at(s@, p as int, nh@));
            }
            let n = s.len();
            assert(p + 3 <= n);
            Some(p + 1)
        },
        None => None,
    }
}

/// The text without the opening fence of a code block, if it has one
/// (`\`\`\`markdown`, `\`\`\`md` or a bare fence, each followed by a line feed).
pub open spec fn strip_open_fence(t: Seq<char>) -> Seq<char> {
    if starts_with(t, "```markdown\n"@) {
        t.skip("```markdown\n"@.len() as int)
    } else if starts_with(t, "```md\n"@) {
        t.skip("```md\n"@.len() as int)
    } else if starts_with(t, "```\n"@) {
        t.skip("```\n"@.len() as int)
    } else {
        t
    }
}

/// The text without the closing fence that ends it, if any.
pub open spec fn strip_close_fence(t: Seq<char>) -> Seq<char> {
    if ends_with(t, "\n```"@) {
        t.take(t.len() - "\n```"@.len())
    } else if ends_with(t, "```"@) {
        t.take(t.len() - "```"@.len())
    } else {
        t
    }
}

/// The Markdown document of a model reply: the reply trimmed, its fences
/// removed, and whatever comes before the first level-one heading dropped;
/// trimmed again. Without such a heading, the reply trimmed and nothing more.
pub open spec fn markdown_doc(raw: Seq<char>) -> Seq<char> {
    let body = strip_close_fence(strip_open_fence(trim(raw)));
    match first_h1(body) {
        Some(p) => trim(body.skip(p)),
        None => trim(raw),
    }
}

/// When a reply holds a level-one heading at the start of a line, the
/// document recovered from it starts with that heading's `#`.
pub proof fn lemma_markdown_doc_starts_at_heading(raw: Seq<char>)
    ensures
        first_h1(strip_close_fence(strip_open_fence(trim(raw)))) is Some ==> {
            let d = markdown_doc(raw);
            d.len() > 0 && d[0] == '#'
        },
{
    let body = strip_close_fence(strip_open_fence(trim(raw)));
    reveal_strlit("# ");
    reveal_strlit("\n# ");
    match first_h1(body) {
        Some(p) => {
            if starts_with(body, "# "@) {
                assert(body[0] == "# "@[0]);
            } else {
                let q = p - 1;
                crate::text::lemma_find_from(body, "\n# "@, 0);
                assert(crate::text::is_at(body, q, "\n# "@));
                assert(body.subrange(q, q + 3)[1] == body[q + 1]);
            }
            assert(body[p] == '#');
            let x = body.skip(p);
            assert(x[0] == '#');
            crate::text::lemma_trim_start_nonws(x);
            crate::text::lemma_trim_end_take(x);
            assert(trim(x) == trim_end(x));
            if trim_end(x).len() == 0 {
                assert(crate::text::is_ws(x[0]));
            }
            assert(trim_end(x)[0] == x[0]);
        },
        None => {},
    }
}

fn skip_prefix(t: &Vec<char>, p: &str) -> (r: Option<Vec<char>>)
    ensures
        r matches Some(v) ==> starts_with(t@, p@) && v@ == t@.skip(p@.len() as int),
        r is None ==> !starts_with(t@, p@),
{
    let pc = chars_of(p);
    if starts_with_chars(t, &pc) {
        let v = copy_range(t, pc.len(), t.len());
        assert(v@ =~= t@.skip(p@.len() as int));
        Some(v)
    } else {
        None
    }
}

fn cut_suffix(t: &Vec<char>, p: &str) -> (r: Option<Vec<char>>)
    ensures
        r matches Some(v) ==> ends_with(t@, p@) && v@ == t@.take(t@.len() - p@.len()),
        r is None ==> !ends_with(t@, p@),
{
    let pc = chars_of(p);
    if ends_with_chars(t, &pc) {
        let v = copy_range(t, 0, t.len() - pc.len());
        assert(v@ =~= t@.take(t@.len() - p@.len()));
        Some(v)
    } else {
        None
    }
}

/// Cleans a model reply that should be a Markdown document: strips an
/// opening fence (`\`\`\`markdown`, `\`\`\`md`, `\`\`\``), a closing fence at
/// the very end, and any preamble before the first `# ` heading at the start
/// of a line; without such a heading, the reply trimmed and nothing more.
pub fn extract_markdown_doc(raw: &str) -> (r: String)
    ensures
        r@ == markdown_doc(raw@),
{
    let trimmed = trim_chars(&chars_of(raw));
    let kept = string_of(&trimmed);
    let after_open = match skip_prefix(&trimmed, "```markdown\n") {
        Some(v) => v,
        None => match skip_prefix(&trimmed, "```md\n") {
            Some(v) => v,
            None => match skip_prefix(&trimmed, "```\n") {
                Some(v) => v,
                None => trimmed,
            },
        },
    };
    let body = match cut_suffix(&after_open, "\n```") {
        Some(v) => v,
        None => match cut_suffix(&after_open, "```") {
            Some(v) => v,
            None => after_open,
        },
    };
    match find_first_h1(&body) {
        Some(p) => {
            let rest = copy_range(&body, p, body.len());
            assert(rest@ =~= body@.skip(p as int));
            string_of(&trim_chars(&rest))
        },
        None => kept,
    }
}


/// Why a request to the model was not made, or its reply was refused.
#[derive(Clone, Copy, Debug, PartialEq, Eq, Structural)]
pub enum AssistError {
    /// No sample to learn the style from.
    NoSamples,
    /// The reply held no document once cleaned.
    EmptyStyle,
    /// The description of the change is blank.
    EmptyInput,
}

impl AssistError {
    /// The message shown for the error.
    pub fn message(&self) -> (r: String)
        ensures
            r@ == match *self {
                AssistError::NoSamples => "nenhuma amostra para sintetizar"@,
                AssistError::EmptyStyle => "IA retornou conteúdo vazio após limpeza"@,
                AssistError::EmptyInput => "input vazio — nada pra sugerir"@,
            },
    {
        match self {
            AssistError::NoSamples => String::from_str("nenhuma amostra para sintetizar"),
            AssistError::EmptyStyle => String::from_str("IA retornou conteúdo vazio após limpeza"),
            AssistError::EmptyInput => String::from_str("input vazio — nada pra sugerir"),
        }
    }
}

/// A request of one user message holding `prompt`.
pub fn user_message(prompt: String) -> (r: Vec<ChatMessage>)
    ensures
        r@.len() == 1,
        r@[0].role@ == "user"@,
        r@[0].content@ == prompt@,
{
    let mut v: Vec<ChatMessage> = Vec::new();
    v.push(ChatMessage { role: String::from_str("user"), content: prompt });
    v
}

fn char_vecs(v: &[String]) -> (r: Vec<Vec<char>>)
    ensures
        views(r@) == string_views(v@),
{
    let mut out: Vec<Vec<char>> = Vec::new();
    let mut i: usize = 0;
    while i < v.len()
        invariant
            i <= v.len(),
            views(out@) =~= string_views(v@).take(i as int),
        decreases v.len() - i,
    {
        let c = chars_of(v[i].as_str());
        proof {
            crate::text::lemma_views_push(out@, c);
        }
        out.push(c);
        i += 1;
        assert(views(out@) =~= string_views(v@).take(i as int));
    }
    assert(string_views(v@).take(v.len() as int) =~= string_views(v@));
    out
}

/// The first word of the trimmed text, or `default` when it has none.
pub open spec fn first_word_or(s: Seq<char>, default: Seq<char>) -> Seq<char> {
    let ws = words(trim(s));
    if ws.len() > 0 {
        ws[0]
    } else {
        default
    }
}

/// The category named by a classification reply (its first choice's text,
/// if any): the first word of the reply, lowercase, as a slug; `geral` when
/// the reply is missing or has no word.
pub open spec fn category_of_reply(reply: Option<Seq<char>>) -> Seq<char> {
    let raw = match reply {
        Some(r) => r,
        None => "geral"@,
    };
    slug(lowercase_of(first_word_or(raw, "geral"@)))
}

/// The category that a classification reply names.
pub fn category_from_reply(reply: Option<&str>) -> (r: String)
    ensures
        r@ == category_of_reply(opt_view(reply)),
        is_slug(r@),
{
    let raw = match reply {
        Some(t) => chars_of(t),
        None => chars_of("geral"),
    };
    let ws = words_chars(&trim_chars(&raw));
    let word = if ws.len() > 0 {
        copy_range(&ws[0], 0, ws[0].len())
    } else {
        chars_of("geral")
    };
    assert(ws.len() > 0 ==> word@ =~= ws@[0]@);
    let low = to_lowercase_chars(&word);
    let low_s = string_of(&low);
    slugify_category(low_s.as_str())
}

/// The JSON text taken from a reply (its first choice's text, `default`
/// when missing): the first balanced value opened by `open`, or `default`.
pub open spec fn json_of_reply(
    reply: Option<Seq<char>>,
    open: char,
    close: char,
    default: Seq<char>,
) -> Seq<char> {
    let raw = match reply {
        Some(r) => r,
        None => default,
    };
    match json_span(raw, open, close) {
        Some(v) => v,
        None => default,
    }
}

/// The JSON array of a reply, `[]` when it has none.
pub fn json_array_of_reply(reply: Option<&str>) -> (r: String)
    ensures
        r@ == json_of_reply(opt_view(reply), '[', ']', "[]"@),
{
    let raw = match reply {
        Some(t) => String::from_str(t),
        None => String::from_str("[]"),
    };
    match extract_json_array(raw.as_str()) {
        Some(v) => v,
        None => String::from_str("[]"),
    }
}

/// The JSON object of a reply, `{}` when it has none.
pub fn json_object_of_reply(reply: Option<&str>) -> (r: String)
    ensures
        r@ == json_of_reply(opt_view(reply), '{', '}', "{}"@),
{
    let raw = match reply {
        Some(t) => String::from_str(t),
        None => String::from_str("{}"),
    };
    match extract_json_object(raw.as_str()) {
        Some(v) => v,
        None => String::from_str("{}"),
    }
}

/// The proposed `estilo.md` of a reply (its first choice's text, empty when
/// missing), cleaned by `markdown_doc`; refused when nothing is left.
pub fn style_from_reply(reply: Option<&str>) -> (r: Result<String, AssistError>)
    ensures
        ({
            let doc = markdown_doc(
                match opt_view(reply) {
                    Some(t) => t,
                    None => Seq::<char>::empty(),
                },
            );
            &&& (r is Err <==> trim(doc).len() == 0)
            &&& (r matches Err(e) ==> e == AssistError::EmptyStyle)
            &&& (r matches Ok(s) ==> s@ == doc)
        }),
{
    let raw = match reply {
        Some(t) => String::from_str(t),
        None => String::new(),
    };
    let cleaned = extract_markdown_doc(raw.as_str());
    if trim_chars(&chars_of(cleaned.as_str())).len() == 0 {
        return Err(AssistError::EmptyStyle);
    }
    Ok(cleaned)
}

/// The categories listed in the classification prompt: those already used,
/// separated by commas, or a note that there is none yet.
pub open spec fn categories_text(existing: Seq<Seq<char>>) -> Seq<char> {
    if existing.len() == 0 {
        "(nenhuma ainda — proponha uma curta e específica)"@
    } else {
        join(existing, ", "@)
    }
}

/// The prompt that asks the model for the one-word category of a text.
pub open spec fn classify_prompt_text(user_input: Seq<char>, existing: Seq<Seq<char>>) -> Seq<char> {
    "Você classifica devolutivas técnicas de software ERP em UMA palavra de categoria.\n\nCategorias já existentes neste sistema: "@ + categories_text(existing) + "\n\nTexto a classificar:\n"@ + user_input + "\n\nRegras:\n- Responda APENAS com UMA palavra de categoria, em minúsculas, sem pontuação ou explicação.\n- Se o texto se encaixa em uma categoria existente, use essa EXATAMENTE (preserve a grafia).\n- Crie nova categoria apenas se for genuinamente uma área diferente das existentes.\n- Nomes curtos e específicos do domínio ERP (ex: fiscal, vendas, financeiro, estoque, promocao, relatorios)."@
}

/// The prompt that asks the model for the one-word category of `user_input`,
/// anchored on the categories already used.
pub fn classify_prompt(user_input: &str, existing_categories: &[String]) -> (r: String)
    ensures
        r@ == classify_prompt_text(user_input@, string_views(existing_categories@)),
{
    let cats = if existing_categories.len() == 0 {
        chars_of("(nenhuma ainda — proponha uma curta e específica)")
    } else {
        let vs = char_vecs(existing_categories);
        let sep = chars_of(", ");
        join_chars(&vs, &sep)
    };
    let mut out = chars_of("Você classifica devolutivas técnicas de software ERP em UMA palavra de categoria.\n\nCategorias já existentes neste sistema: ");
    extend(&mut out, &cats);
    crate::text::extend_str(&mut out, "\n\nTexto a classificar:\n");
    crate::text::extend_str(&mut out, user_input);
    crate::text::extend_str(&mut out, "\n\nRegras:\n- Responda APENAS com UMA palavra de categoria, em minúsculas, sem pontuação ou explicação.\n- Se o texto se encaixa em uma categoria existente, use essa EXATAMENTE (preserve a grafia).\n- Crie nova categoria apenas se for genuinamente uma área diferente das existentes.\n- Nomes curtos e específicos do domínio ERP (ex: fiscal, vendas, financeiro, estoque, promocao, relatorios).");
    string_of(&out)
}

/// The edited pairs as they are listed in the prompt, numbered from 1.
pub open spec fn edit_pairs_text(ps: Seq<(Seq<char>, Seq<char>)>) -> Seq<char>
    decreases ps.len(),
{
    if ps.len() == 0 {
        Seq::<char>::empty()
    } else {
        edit_pairs_text(ps.drop_last()) + "\n=== PAR "@ + dec(ps.len() as nat) + " ===\n\nVERSÃO ORIGINAL (gerada pela IA):\n"@ + trim(ps.last().0) + "\n\nVERSÃO EDITADA E APROVADA PELO USUÁRIO:\n"@ + trim(ps.last().1) + "\n"@
    }
}

/// The prompt that asks the model which expressions the user keeps
/// removing from the generated replies.
pub open spec fn analyze_edits_prompt_text(ps: Seq<(Seq<char>, Seq<char>)>) -> Seq<char> {
    "Você analisa edições humanas em devolutivas técnicas de software ERP para identificar padrões de evitação de linguagem.\n\nPara cada par abaixo há uma versão original gerada pela IA e a versão editada e aprovada pelo usuário. Identifique:\n- Palavras/expressões que o usuário REMOVEU consistentemente (presentes no original, ausentes no editado).\n- Substituições sistemáticas (palavra X virou palavra Y em múltiplos casos).\n- Construções estilísticas que o usuário evita (gerúndios, voz passiva, jargão burocrático, anglicismos, etc.).\n\nRegras de saída:\n- Responda APENAS com um array JSON, sem texto antes ou depois, sem fences markdown.\n- Cada item tem: {\"expression\": <string>, \"reason\": <string explicando o padrão>, \"occurrences\": <número>}.\n- Inclua apenas padrões com 2+ ocorrências OU claramente intencionais.\n- Se nenhum padrão claro emergir, retorne [].\n- Máximo 8 sugestões — priorize as mais frequentes/impactantes.\n- `expression` deve ser a forma EXATA que aparece no original (a que deve ser evitada).\n- `reason` em português, breve (uma frase).\n\nPares para análise:\n"@ + edit_pairs_text(ps)
}

/// The prompt that asks the model for the expressions to avoid, from pairs
/// `(generated reply, edited and approved reply)`; `None` when there is no
/// pair, as no request is made then.
pub fn analyze_edits_prompt(pairs: &[(String, String)]) -> (r: Option<String>)
    ensures
        r is None <==> pairs.len() == 0,
        r matches Some(p) ==> p@ == analyze_edits_prompt_text(pair_views(pairs@)),
{
    if pairs.len() == 0 {
        return None;
    }
    let ghost ps = pair_views(pairs@);
    let mut text: Vec<char> = Vec::new();
    let mut i: usize = 0;
    assert(ps.take(0) =~= Seq::<(Seq<char>, Seq<char>)>::empty());
    while i < pairs.len()
        invariant
            i <= pairs.len(),
            ps == pair_views(pairs@),
            text@ == edit_pairs_text(ps.take(i as int)),
        decreases pairs.len() - i,
    {
        assert(ps.take(i + 1).drop_last() =~= ps.take(i as int));
        let num = dec_chars((i + 1) as u64);
        let a = trim_chars(&chars_of(pairs[i].0.as_str()));
        let b = trim_chars(&chars_of(pairs[i].1.as_str()));
        crate::text::extend_str(&mut text, "\n=== PAR ");
    extend(&mut text, &num);
    crate::text::extend_str(&mut text, " ===\n\nVERSÃO ORIGINAL (gerada pela IA):\n");
    extend(&mut text, &a);
    crate::text::extend_str(&mut text, "\n\nVERSÃO EDITADA E APROVADA PELO USUÁRIO:\n");
    extend(&mut text, &b);
    crate::text::extend_str(&mut text, "\n");
        i += 1;
    }
    assert(ps.take(pairs.len() as int) =~= ps);
    let mut out = chars_of("Você analisa edições humanas em devolutivas técnicas de software ERP para identificar padrões de evitação de linguagem.\n\nPara cada par abaixo há uma versão original gerada pela IA e a versão editada e aprovada pelo usuário. Identifique:\n- Palavras/expressões que o usuário REMOVEU consistentemente (presentes no original, ausentes no editado).\n- Substituições sistemáticas (palavra X virou palavra Y em múltiplos casos).\n- Construções estilísticas que o usuário evita (gerúndios, voz passiva, jargão burocrático, anglicismos, etc.).\n\nRegras de saída:\n- Responda APENAS com um array JSON, sem texto antes ou depois, sem fences markdown.\n- Cada item tem: {\"expression\": <string>, \"reason\": <string explicando o padrão>, \"occurrences\": <número>}.\n- Inclua apenas padrões com 2+ ocorrências OU claramente intencionais.\n- Se nenhum padrão claro emergir, retorne [].\n- Máximo 8 sugestões — priorize as mais frequentes/impactantes.\n- `expression` deve ser a forma EXATA que aparece no original (a que deve ser evitada).\n- `reason` em português, breve (uma frase).\n\nPares para análise:\n");
    extend(&mut out, &text);
    Some(string_of(&out))
}

/// The description of the audience of a booklet: the client's end users,
/// the internal team, or (for any other value) the first-line support team.
pub open spec fn audience_text(audience: Seq<char>) -> Seq<char> {
    if audience == "cliente"@ {
        "USUÁRIOS FINAIS do cliente (não técnicos). Linguagem acessível, sem jargão de programador. Foco em 'como usar' não em 'como funciona internamente'."@
    } else if audience == "interno"@ {
        "EQUIPE INTERNA da empresa (dev/suporte/QA). Pode usar termos técnicos sem explicar. Foco em estrutura e detalhes operacionais."@
    } else {
        "TIME DE SUPORTE N1. Português técnico mas explicativo — eles conhecem o sistema mas não os detalhes da implementação. Explique parâmetros novos e onde encontrá-los."@
    }
}

/// One line per image caption, numbered from 1.
pub open spec fn caption_items(cs: Seq<Seq<char>>) -> Seq<char>
    decreases cs.len(),
{
    if cs.len() == 0 {
        Seq::<char>::empty()
    } else {
        caption_items(cs.drop_last()) + "- Imagem "@ + dec(cs.len() as nat) + ": "@ + cs.last() + "\n"@
    }
}

/// The paragraph about the attached images, empty when there is none.
pub open spec fn images_hint(cs: Seq<Seq<char>>) -> Seq<char> {
    if cs.len() == 0 {
        Seq::<char>::empty()
    } else {
        "\n\nO dev anexou as seguintes imagens (na ordem):\n"@ + caption_items(cs) + "\nCite cada imagem onde for relevante no texto (ex: \"conforme a imagem 1\"). Todas serão renderizadas numa galeria no fim do documento."@
    }
}

/// The prompt of a didactic booklet written from a technical specification.
pub open spec fn cartilha_prompt_text(form_input: Seq<char>, audience: Seq<char>, captions: Seq<Seq<char>>) -> Seq<char> {
    "Você gera uma CARTILHA DIDÁTICA em português brasileiro a partir de uma especificação técnica.\n\nPúblico-alvo: "@ + audience_text(audience) + "\n\nEstruture o texto em seções, cada seção precedida por uma TAG ESPECIAL `[s]Título :[/s]` (parser equivalente ao `[n]` da devolutiva, mas para 'section'). Por exemplo:\n`[s]Objetivo :[/s]`\n\nSeções típicas (use as que fizerem sentido para o caso; omita as que não se aplicam):\n- Objetivo (por que existe)\n- O que mudou (resumo do delta)\n- Pré-requisitos (versão mínima, permissões necessárias)\n- Passo a passo (instruções numeradas ou em prosa)\n- Observações (cuidados, limitações, dicas)"@ + images_hint(captions) + "\n\nREGRAS:\n- NÃO use markdown (`#`, `**`, `*`). Exceção: linhas iniciadas com `- ` viram bullets no HTML final — use-as para enumerações e checklists.\n- NÃO use as tags `[n]...[/n]` (essas são da devolutiva N1, formato diferente).\n- Frases curtas, voz ativa, tom direto mas amigável.\n- Se o input mencionar nova permissão/parâmetro/caminho, dedique uma seção a explicar passo a passo onde encontrar.\n- Termine SEM despedidas ('Espero ter ajudado', etc.). A cartilha é referência, não conversa.\n\n═══ ESPECIFICAÇÃO TÉCNICA ═══\n\n"@ + trim(form_input)
}

/// The messages that ask for a didactic booklet for `audience` ("suporte",
/// "cliente" or "interno"; any other value is taken as "suporte"), citing
/// the attached images by their captions: one user message.
pub fn build_cartilha_messages(form_input: &str, audience: &str, image_captions: &[String]) -> (r: Vec<ChatMessage>)
    ensures
        r@.len() == 1,
        r@[0].role@ == "user"@,
        r@[0].content@ == cartilha_prompt_text(form_input@, audience@, string_views(image_captions@)),
{
    let a = chars_of(audience);
    let aud = if crate::stats::eq_chars(&a, &chars_of("cliente")) {
        chars_of("USUÁRIOS FINAIS do cliente (não técnicos). Linguagem acessível, sem jargão de programador. Foco em 'como usar' não em 'como funciona internamente'.")
    } else if crate::stats::eq_chars(&a, &chars_of("interno")) {
        chars_of("EQUIPE INTERNA da empresa (dev/suporte/QA). Pode usar termos técnicos sem explicar. Foco em estrutura e detalhes operacionais.")
    } else {
        chars_of("TIME DE SUPORTE N1. Português técnico mas explicativo — eles conhecem o sistema mas não os detalhes da implementação. Explique parâmetros novos e onde encontrá-los.")
    };
    let ghost cs = string_views(image_captions@);
    let mut hint: Vec<char> = Vec::new();
    if image_captions.len() > 0 {
        let mut items: Vec<char> = Vec::new();
        let mut i: usize = 0;
        assert(cs.take(0) =~= Seq::<Seq<char>>::empty());
        while i < image_captions.len()
            invariant
                i <= image_captions.len(),
                cs == string_views(image_captions@),
                items@ == caption_items(cs.take(i as int)),
            decreases image_captions.len() - i,
        {
            assert(cs.take(i + 1).drop_last() =~= cs.take(i as int));
            let num = dec_chars((i + 1) as u64);
            crate::text::extend_str(&mut items, "- Imagem ");
    extend(&mut items, &num);
    crate::text::extend_str(&mut items, ": ");
    crate::text::extend_str(&mut items, image_captions[i].as_str());
    crate::text::extend_str(&mut items, "\n");
            i += 1;
        }
        assert(cs.take(image_captions.len() as int) =~= cs);
        hint = chars_of("\n\nO dev anexou as seguintes imagens (na ordem):\n");
        extend(&mut hint, &items);
        crate::text::extend_str(&mut hint, "\nCite cada imagem onde for relevante no texto (ex: \"conforme a imagem 1\"). Todas serão renderizadas numa galeria no fim do documento.");
    }
    let fi = trim_chars(&chars_of(form_input));
    let mut out = chars_of("Você gera uma CARTILHA DIDÁTICA em português brasileiro a partir de uma especificação técnica.\n\nPúblico-alvo: ");
    extend(&mut out, &aud);
    crate::text::extend_str(&mut out, "\n\nEstruture o texto em seções, cada seção precedida por uma TAG ESPECIAL `[s]Título :[/s]` (parser equivalente ao `[n]` da devolutiva, mas para 'section'). Por exemplo:\n`[s]Objetivo :[/s]`\n\nSeções típicas (use as que fizerem sentido para o caso; omita as que não se aplicam):\n- Objetivo (por que existe)\n- O que mudou (resumo do delta)\n- Pré-requisitos (versão mínima, permissões necessárias)\n- Passo a passo (instruções numeradas ou em prosa)\n- Observações (cuidados, limitações, dicas)");
    extend(&mut out, &hint);
    crate::text::extend_str(&mut out, "\n\nREGRAS:\n- NÃO use markdown (`#`, `**`, `*`). Exceção: linhas iniciadas com `- ` viram bullets no HTML final — use-as para enumerações e checklists.\n- NÃO use as tags `[n]...[/n]` (essas são da devolutiva N1, formato diferente).\n- Frases curtas, voz ativa, tom direto mas amigável.\n- Se o input mencionar nova permissão/parâmetro/caminho, dedique uma seção a explicar passo a passo onde encontrar.\n- Termine SEM despedidas ('Espero ter ajudado', etc.). A cartilha é referência, não conversa.\n\n═══ ESPECIFICAÇÃO TÉCNICA ═══\n\n");
    extend(&mut out, &fi);
    user_message(string_of(&out))
}

/// The prompt that asks the model for test scenarios of a change.
pub open spec fn test_scenarios_prompt_text(form_input: Seq<char>) -> Seq<char> {
    "Você ajuda um dev a montar o formulário de testes para entregar para a equipe QA. Baseado na descrição da mudança abaixo, sugira:\n\n- `happy_path`: passo a passo do caminho feliz que deve funcionar.\n- `edge_cases`: cenários-limite (valores extremos, vazios, máximos, mínimos).\n- `negative_cases`: cenários que devem ser BLOQUEADOS/REJEITADOS pelo sistema.\n- `acceptance_criteria`: condições objetivas para QA aprovar (ex: 'mensagem X aparece após Y').\n- `regression_areas`: outras funcionalidades correlatas que merecem re-teste.\n- `risks`: pontos de atenção, dependências, limitações conhecidas.\n\nREGRAS:\n- APENAS JSON puro, sem texto antes ou depois, sem fences markdown.\n- Cada campo é uma STRING (use `\\n` para múltiplas linhas; pode usar `- ` para listas dentro da string).\n- Se um campo não for aplicável ao caso, devolva string vazia.\n- Português brasileiro, tom técnico direto, sem floreios.\n\nEstrutura JSON esperada:\n{\"happy_path\":\"...\",\"edge_cases\":\"...\",\"negative_cases\":\"...\",\"acceptance_criteria\":\"...\",\"regression_areas\":\"...\",\"risks\":\"...\"}\n\n═══ DESCRIÇÃO DA MUDANÇA ═══\n\n"@ + trim(form_input)
}

/// The prompt that asks the model for the test scenarios of the change
/// described in `form_input`; refused when the description is blank.
pub fn test_scenarios_prompt(form_input: &str) -> (r: Result<String, AssistError>)
    ensures
        r is Err <==> trim(form_input@).len() == 0,
        r matches Err(e) ==> e == AssistError::EmptyInput,
        r matches Ok(p) ==> p@ == test_scenarios_prompt_text(form_input@),
{
    let fi = trim_chars(&chars_of(form_input));
    if fi.len() == 0 {
        return Err(AssistError::EmptyInput);
    }
    let mut out = chars_of("Você ajuda um dev a montar o formulário de testes para entregar para a equipe QA. Baseado na descrição da mudança abaixo, sugira:\n\n- `happy_path`: passo a passo do caminho feliz que deve funcionar.\n- `edge_cases`: cenários-limite (valores extremos, vazios, máximos, mínimos).\n- `negative_cases`: cenários que devem ser BLOQUEADOS/REJEITADOS pelo sistema.\n- `acceptance_criteria`: condições objetivas para QA aprovar (ex: 'mensagem X aparece após Y').\n- `regression_areas`: outras funcionalidades correlatas que merecem re-teste.\n- `risks`: pontos de atenção, dependências, limitações conhecidas.\n\nREGRAS:\n- APENAS JSON puro, sem texto antes ou depois, sem fences markdown.\n- Cada campo é uma STRING (use `\\n` para múltiplas linhas; pode usar `- ` para listas dentro da string).\n- Se um campo não for aplicável ao caso, devolva string vazia.\n- Português brasileiro, tom técnico direto, sem floreios.\n\nEstrutura JSON esperada:\n{\"happy_path\":\"...\",\"edge_cases\":\"...\",\"negative_cases\":\"...\",\"acceptance_criteria\":\"...\",\"regression_areas\":\"...\",\"risks\":\"...\"}\n\n═══ DESCRIÇÃO DA MUDANÇA ═══\n\n");
    extend(&mut out, &fi);
    Ok(string_of(&out))
}

/// The current file as given to the model: trimmed, or `default` when blank.
pub open spec fn current_or(current: Seq<char>, default: Seq<char>) -> Seq<char> {
    if trim(current).len() == 0 {
        default
    } else {
        trim(current)
    }
}

fn current_or_chars(current: &str, default: &str) -> (r: Vec<char>)
    ensures
        r@ == current_or(current@, default@),
{
    let t = trim_chars(&chars_of(current));
    if t.len() == 0 {
        chars_of(default)
    } else {
        t
    }
}

/// The approved replies as they are listed in the prompt, numbered from 1.
pub open spec fn samples_text(ss: Seq<Seq<char>>) -> Seq<char>
    decreases ss.len(),
{
    if ss.len() == 0 {
        Seq::<char>::empty()
    } else {
        samples_text(ss.drop_last()) + "\n=== DEVOLUTIVA "@ + dec(ss.len() as nat) + " ===\n"@ + trim(ss.last()) + "\n"@
    }
}

/// The prompt that asks the model for recurring phrases of the approved
/// replies that `campos-padrao.md` does not hold yet.
pub open spec fn phrase_templates_prompt_text(samples: Seq<Seq<char>>, current: Seq<char>) -> Seq<char> {
    "Você analisa devolutivas técnicas aprovadas de um sistema ERP para identificar frases-modelo recorrentes que podem virar templates parametrizados no arquivo `campos-padrao.md`.\n\nVocê recebe:\n1. "@ + dec(samples.len()) + " devolutivas que o usuário APROVOU (são o output final aceito).\n2. O conteúdo atual do `campos-padrao.md` (incluindo a seção 'Frases-modelo aprovadas' que já existe).\n\nSua tarefa: identificar frases que aparecem em ≥ 3 devolutivas (literalmente ou com variações pequenas como datas, versões, caminhos) e propor um TEMPLATE parametrizado para cada.\n\nREGRAS:\n- NÃO proponha frases que já estejam na seção 'Frases-modelo aprovadas' do arquivo atual (mesma situação ou template equivalente). Verifique cuidadosamente antes de sugerir.\n- Para cada template: use `<placeholder>` nas partes variáveis (ex: `<vX.Y.Z — dd/mm/aaaa>`, `<caminho>`, `<nome do arquivo>`).\n- `situation` é um título curto descrevendo QUANDO usar a frase (ex: 'Para correção com troca de executável', 'Para validação de cenário fiscal específico').\n- `template` é o texto da frase em prosa, com placeholders. Mantenha o estilo direto do usuário.\n- `occurrences` é sua estimativa de quantas das devolutivas casam com o template.\n- Máximo 8 sugestões — priorize as MAIS frequentes e MAIS úteis (frases longas, com mais informação, valem mais que frases curtas óbvias).\n- Se nenhuma frase claramente recorrente emergir, retorne `[]`.\n\nFORMATO DE SAÍDA:\n- APENAS um array JSON, sem texto antes ou depois, sem fences markdown.\n- Cada item: `{\"situation\": \"<string>\", \"template\": \"<string com placeholders>\", \"occurrences\": <número>}`.\n\n═══ CAMPOS-PADRAO.MD ATUAL ═══\n\n"@ + current_or(current, "(arquivo vazio — qualquer frase recorrente é candidato válido)"@) + "\n\n═══ DEVOLUTIVAS APROVADAS ═══\n"@ + samples_text(samples)
}

/// The prompt that asks the model for phrase templates from the approved
/// replies `samples` and the current `campos-padrao.md`; `None` when there
/// is no sample, as no request is made then.
pub fn phrase_templates_prompt(samples: &[String], current_campos_md: &str) -> (r: Option<String>)
    ensures
        r is None <==> samples.len() == 0,
        r matches Some(p) ==> p@ == phrase_templates_prompt_text(string_views(samples@), current_campos_md@),
{
    if samples.len() == 0 {
        return None;
    }
    let ghost ss = string_views(samples@);
    let mut text: Vec<char> = Vec::new();
    let mut i: usize = 0;
    assert(ss.take(0) =~= Seq::<Seq<char>>::empty());
    while i < samples.len()
        invariant
            i <= samples.len(),
            ss == string_views(samples@),
            text@ == samples_text(ss.take(i as int)),
        decreases samples.len() - i,
    {
        assert(ss.take(i + 1).drop_last() =~= ss.take(i as int));
        let num = dec_chars((i + 1) as u64);
        let t = trim_chars(&chars_of(samples[i].as_str()));
        crate::text::extend_str(&mut text, "\n=== DEVOLUTIVA ");
    extend(&mut text, &num);
    crate::text::extend_str(&mut text, " ===\n");
    extend(&mut text, &t);
    crate::text::extend_str(&mut text, "\n");
        i += 1;
    }
    assert(ss.take(samples.len() as int) =~= ss);
    let n = dec_chars(samples.len() as u64);
    let current = current_or_chars(current_campos_md, "(arquivo vazio — qualquer frase recorrente é candidato válido)");
    let mut out = chars_of("Você analisa devolutivas técnicas aprovadas de um sistema ERP para identificar frases-modelo recorrentes que podem virar templates parametrizados no arquivo `campos-padrao.md`.\n\nVocê recebe:\n1. ");
    extend(&mut out, &n);
    crate::text::extend_str(&mut out, " devolutivas que o usuário APROVOU (são o output final aceito).\n2. O conteúdo atual do `campos-padrao.md` (incluindo a seção 'Frases-modelo aprovadas' que já existe).\n\nSua tarefa: identificar frases que aparecem em ≥ 3 devolutivas (literalmente ou com variações pequenas como datas, versões, caminhos) e propor um TEMPLATE parametrizado para cada.\n\nREGRAS:\n- NÃO proponha frases que já estejam na seção 'Frases-modelo aprovadas' do arquivo atual (mesma situação ou template equivalente). Verifique cuidadosamente antes de sugerir.\n- Para cada template: use `<placeholder>` nas partes variáveis (ex: `<vX.Y.Z — dd/mm/aaaa>`, `<caminho>`, `<nome do arquivo>`).\n- `situation` é um título curto descrevendo QUANDO usar a frase (ex: 'Para correção com troca de executável', 'Para validação de cenário fiscal específico').\n- `template` é o texto da frase em prosa, com placeholders. Mantenha o estilo direto do usuário.\n- `occurrences` é sua estimativa de quantas das devolutivas casam com o template.\n- Máximo 8 sugestões — priorize as MAIS frequentes e MAIS úteis (frases longas, com mais informação, valem mais que frases curtas óbvias).\n- Se nenhuma frase claramente recorrente emergir, retorne `[]`.\n\nFORMATO DE SAÍDA:\n- APENAS um array JSON, sem texto antes ou depois, sem fences markdown.\n- Cada item: `{\"situation\": \"<string>\", \"template\": \"<string com placeholders>\", \"occurrences\": <número>}`.\n\n═══ CAMPOS-PADRAO.MD ATUAL ═══\n\n");
    extend(&mut out, &current);
    crate::text::extend_str(&mut out, "\n\n═══ DEVOLUTIVAS APROVADAS ═══\n");
    extend(&mut out, &text);
    Some(string_of(&out))
}

/// The samples approved without edits as they are listed in the prompt,
/// numbered from 1.
pub open spec fn style_samples_text(ps: Seq<(Seq<char>, Seq<char>)>) -> Seq<char>
    decreases ps.len(),
{
    if ps.len() == 0 {
        Seq::<char>::empty()
    } else {
        style_samples_text(ps.drop_last()) + "\n=== AMOSTRA "@ + dec(ps.len() as nat) + " ===\n\nENTRADA BRUTA:\n"@ + trim(ps.last().0) + "\n\nDEVOLUTIVA APROVADA (sem edições — a IA acertou de cara):\n"@ + trim(ps.last().1) + "\n"@
    }
}

/// The prompt that asks the model for a refined `estilo.md`.
pub open spec fn style_prompt_text(current: Seq<char>, ps: Seq<(Seq<char>, Seq<char>)>) -> Seq<char> {
    "Você refina o arquivo `estilo.md` de um sistema que redige devolutivas técnicas para suporte N1 de ERP.\n\nVocê recebe (1) o `estilo.md` atual escrito/mantido pelo usuário e (2) "@ + dec(ps.len()) + " amostras de devolutivas aprovadas pelo usuário SEM edição (sinais positivos puros — a IA acertou).\n\nSua tarefa: produzir uma nova versão refinada do `estilo.md` que sirva como instrução de estilo para um LLM gerar devolutivas alinhadas com este usuário.\n\nREGRAS RÍGIDAS:\n- PRESERVE todas as regras já presentes no estilo.md atual. Não remova, não relativize, não substitua. O usuário escolheu cada uma deliberadamente.\n- ADICIONE padrões novos que você observar nas amostras (ex: novo vocabulário recorrente, novas convenções de formatação, frases-padrão).\n- REFINE descrições vagas com evidência específica das amostras (ex: se o estilo atual diz 'voz ativa' e nas amostras a forma sempre é 'Corrigi X' não 'O sistema corrigiu X', explicite).\n- MANTENHA a estrutura de seções do estilo atual (Tom geral, Vocabulário preferido, Formatação, O que NÃO fazer, ou outras se já existirem). Use os MESMOS títulos `##`.\n- Se o estilo atual estiver vazio, use esta estrutura padrão: Tom geral / Vocabulário preferido / Formatação / O que NÃO fazer.\n- Itens em lista (`-`), prosa curta. Pt-br. Sem emojis. Sem meta-comentários do tipo 'baseado nas amostras...'.\n\nFORMATO DE SAÍDA:\n- APENAS o conteúdo do arquivo markdown final, começando com `# ` no título.\n- SEM preâmbulo ('Aqui está...', 'Segue...'), SEM fences markdown (```), SEM explicações posteriores.\n- O texto que você retornar substituirá o estilo.md atual; ele será revisado por humano antes de aplicar.\n\n═══ ESTILO.MD ATUAL ═══\n\n"@ + current_or(current, "(arquivo ainda não existe — gere uma primeira versão respeitando a estrutura padrão indicada nas regras)"@) + "\n\n═══ AMOSTRAS APROVADAS SEM EDIÇÃO ═══\n"@ + style_samples_text(ps)
}

/// The prompt that asks the model for a refined `estilo.md` from the current
/// one and the samples `(raw input, reply approved without edits)`; refused
/// when there is no sample.
pub fn style_prompt(current_style: &str, samples: &[(String, String)]) -> (r: Result<String, AssistError>)
    ensures
        r is Err <==> samples.len() == 0,
        r matches Err(e) ==> e == AssistError::NoSamples,
        r matches Ok(p) ==> p@ == style_prompt_text(current_style@, pair_views(samples@)),
{
    if samples.len() == 0 {
        return Err(AssistError::NoSamples);
    }
    let ghost ps = pair_views(samples@);
    let mut text: Vec<char> = Vec::new();
    let mut i: usize = 0;
    assert(ps.take(0) =~= Seq::<(Seq<char>, Seq<char>)>::empty());
    while i < samples.len()
        invariant
            i <= samples.len(),
            ps == pair_views(samples@),
            text@ == style_samples_text(ps.take(i as int)),
        decreases samples.len() - i,
    {
        assert(ps.take(i + 1).drop_last() =~= ps.take(i as int));
        let num = dec_chars((i + 1) as u64);
        let a = trim_chars(&chars_of(samples[i].0.as_str()));
        let b = trim_chars(&chars_of(samples[i].1.as_str()));
        crate::text::extend_str(&mut text, "\n=== AMOSTRA ");
    extend(&mut text, &num);
    crate::text::extend_str(&mut text, " ===\n\nENTRADA BRUTA:\n");
    extend(&mut text, &a);
    crate::text::extend_str(&mut text, "\n\nDEVOLUTIVA APROVADA (sem edições — a IA acertou de cara):\n");
    extend(&mut text, &b);
    crate::text::extend_str(&mut text, "\n");
        i += 1;
    }
    assert(ps.take(samples.len() as int) =~= ps);
    let n = dec_chars(samples.len() as u64);
    let current = current_or_chars(current_style, "(arquivo ainda não existe — gere uma primeira versão respeitando a estrutura padrão indicada nas regras)");
    let mut out = chars_of("Você refina o arquivo `estilo.md` de um sistema que redige devolutivas técnicas para suporte N1 de ERP.\n\nVocê recebe (1) o `estilo.md` atual escrito/mantido pelo usuário e (2) ");
    extend(&mut out, &n);
    crate::text::extend_str(&mut out, " amostras de devolutivas aprovadas pelo usuário SEM edição (sinais positivos puros — a IA acertou).\n\nSua tarefa: produzir uma nova versão refinada do `estilo.md` que sirva como instrução de estilo para um LLM gerar devolutivas alinhadas com este usuário.\n\nREGRAS RÍGIDAS:\n- PRESERVE todas as regras já presentes no estilo.md atual. Não remova, não relativize, não substitua. O usuário escolheu cada uma deliberadamente.\n- ADICIONE padrões novos que você observar nas amostras (ex: novo vocabulário recorrente, novas convenções de formatação, frases-padrão).\n- REFINE descrições vagas com evidência específica das amostras (ex: se o estilo atual diz 'voz ativa' e nas amostras a forma sempre é 'Corrigi X' não 'O sistema corrigiu X', explicite).\n- MANTENHA a estrutura de seções do estilo atual (Tom geral, Vocabulário preferido, Formatação, O que NÃO fazer, ou outras se já existirem). Use os MESMOS títulos `##`.\n- Se o estilo atual estiver vazio, use esta estrutura padrão: Tom geral / Vocabulário preferido / Formatação / O que NÃO fazer.\n- Itens em lista (`-`), prosa curta. Pt-br. Sem emojis. Sem meta-comentários do tipo 'baseado nas amostras...'.\n\nFORMATO DE SAÍDA:\n- APENAS o conteúdo do arquivo markdown final, começando com `# ` no título.\n- SEM preâmbulo ('Aqui está...', 'Segue...'), SEM fences markdown (```), SEM explicações posteriores.\n- O texto que você retornar substituirá o estilo.md atual; ele será revisado por humano antes de aplicar.\n\n═══ ESTILO.MD ATUAL ═══\n\n");
    extend(&mut out, &current);
    crate::text::extend_str(&mut out, "\n\n═══ AMOSTRAS APROVADAS SEM EDIÇÃO ═══\n");
    extend(&mut out, &text);
    Ok(string_of(&out))
}



/// The category of a reply: the one the model gave, or `geral` when the
/// classification failed.
pub fn category_or_general(classified: Option<String>) -> (r: String)
    ensures
        classified is Some ==> r@ == classified->0@,
        classified is None ==> r@ == "geral"@,
{
    match classified {
        Some(c) => c,
        None => String::from_str("geral"),
    }
}

/// The request settings of a streamed chat completion: the model, that the
/// reply comes as a stream, and the largest number of tokens it may hold.
/// The sampling temperature is set by the application.
#[derive(Clone, Debug)]
pub struct StreamRequest {
    pub model: String,
    pub stream: bool,
    pub max_tokens: u32,
}

/// The settings of the streamed completion that revises a text.
pub fn stream_request() -> (r: StreamRequest)
    ensures
        r.model@ == "deepseek-chat"@,
        r.stream,
        r.max_tokens == 2048,
{
    StreamRequest { model: String::from_str("deepseek-chat"), stream: true, max_tokens: 2048 }
}

/// One event of the server-sent stream of a chat completion, as the
/// application reads it. A message brings its data, and the text delta of
/// its first choice when the data parses as a chunk that has one.
#[derive(Clone, Debug)]
pub enum SseEvent {
    Open,
    Message(String, Option<String>),
    Ended,
    Failed(String),
}

/// What the streaming loop does on an event: wait for the next, hand a token
/// on, end the stream normally, or end it with an error.
#[derive(Clone, Debug)]
pub enum StreamStep {
    Continue,
    Emit(String),
    Finish,
    Fail(String),
}

/// The step for one event: the data `[DONE]` and the end of the stream finish
/// it, a message hands its delta on (and is skipped when it has none, as when
/// its data does not parse), and any other error fails the stream.
pub fn stream_step(ev: &SseEvent) -> (r: StreamStep)
    ensures
        *ev is Open ==> r is Continue,
        *ev matches SseEvent::Message(d, _) && d@ == "[DONE]"@ ==> r is Finish,
        *ev matches SseEvent::Message(d, delta) ==> (d@ != "[DONE]"@ && delta is Some ==> r
            == StreamStep::Emit(delta->0)),
        *ev matches SseEvent::Message(d, delta) ==> (d@ != "[DONE]"@ && delta is None ==> r
            is Continue),
        *ev is Ended ==> r is Finish,
        *ev matches SseEvent::Failed(e) ==> r == StreamStep::Fail(e),
{
    match ev {
        SseEvent::Open => StreamStep::Continue,
        SseEvent::Message(d, delta) => {
            let dc = chars_of(d.as_str());
            let done = chars_of("[DONE]");
            if crate::stats::eq_chars(&dc, &done) {
                StreamStep::Finish
            } else {
                match delta {
                    Some(t) => StreamStep::Emit(t.clone()),
                    None => StreamStep::Continue,
                }
            }
        },
        SseEvent::Ended => StreamStep::Finish,
        SseEvent::Failed(e) => StreamStep::Fail(e.clone()),
    }
}

/// The tokens that a run of stream events hands on: the deltas of the
/// messages before the first event that stops the stream (`[DONE]`, the
/// end, or an error), in order.
pub open spec fn stream_tokens(evs: Seq<SseEvent>) -> Seq<Seq<char>>
    decreases evs.len(),
{
    if evs.len() == 0 {
        Seq::empty()
    } else {
        match evs[0] {
            SseEvent::Open => stream_tokens(evs.drop_first()),
            SseEvent::Message(d, delta) => if d@ == "[DONE]"@ {
                Seq::empty()
            } else {
                match delta {
                    Some(t) => seq![t@] + stream_tokens(evs.drop_first()),
                    None => stream_tokens(evs.drop_first()),
                }
            },
            SseEvent::Ended => Seq::empty(),
            SseEvent::Failed(_) => Seq::empty(),
        }
    }
}

/// The error a run of stream events ends with: that of the first event that
/// stops the stream, when that event is an error; none when the stream
/// finishes or the events run out first.
pub open spec fn stream_error(evs: Seq<SseEvent>) -> Option<Seq<char>>
    decreases evs.len(),
{
    if evs.len() == 0 {
        None
    } else {
        match evs[0] {
            SseEvent::Open => stream_error(evs.drop_first()),
            SseEvent::Message(d, _) => if d@ == "[DONE]"@ {
                None
            } else {
                stream_error(evs.drop_first())
            },
            SseEvent::Ended => None,
            SseEvent::Failed(e) => Some(e@),
        }
    }
}

/// The streaming loop run over a recorded sequence of events, one
/// `stream_step` each, stopping where a step finishes or fails: the tokens
/// handed on, and the outcome.
pub fn replay_stream(evs: &Vec<SseEvent>) -> (r: (Vec<String>, Result<(), String>))
    ensures
        string_views(r.0@) == stream_tokens(evs@),
        r.1 is Err <==> stream_error(evs@) is Some,
        r.1 matches Err(e) ==> stream_error(evs@) == Some(e@),
{
    let mut tokens: Vec<String> = Vec::new();
    let mut i: usize = 0;
    assert(evs@.skip(0) =~= evs@);
    assert(string_views(tokens@) + stream_tokens(evs@) =~= stream_tokens(evs@));
    while i < evs.len()
        invariant
            i <= evs.len(),
            stream_tokens(evs@) == string_views(tokens@) + stream_tokens(evs@.skip(i as int)),
            stream_error(evs@) == stream_error(evs@.skip(i as int)),
        decreases evs.len() - i,
    {
        let ghost rest = evs@.skip(i as int);
        assert(rest[0] == evs@[i as int]);
        assert(rest.drop_first() =~= evs@.skip(i + 1));
        let step = stream_step(&evs[i]);
        match step {
            StreamStep::Continue => {},
            StreamStep::Emit(t) => {
                proof {
                    assert(string_views(tokens@.push(t)) =~= string_views(tokens@).push(t@));
                    assert(seq![t@] + stream_tokens(evs@.skip(i + 1)) =~= seq![t@].add(
                        stream_tokens(evs@.skip(i + 1)),
                    ));
                    assert(string_views(tokens@).push(t@) + stream_tokens(evs@.skip(i + 1))
                        =~= string_views(tokens@) + (seq![t@] + stream_tokens(
                        evs@.skip(i + 1),
                    )));
                }
                tokens.push(t);
            },
            StreamStep::Finish => {
                assert(string_views(tokens@) + Seq::<Seq<char>>::empty() =~= string_views(
                    tokens@,
                ));
                return (tokens, Ok(()));
            },
            StreamStep::Fail(e) => {
                assert(string_views(tokens@) + Seq::<Seq<char>>::empty() =~= string_views(
                    tokens@,
                ));
                return (tokens, Err(e));
            },
        }
        i += 1;
    }
    assert(evs@.skip(i as int) =~= Seq::<SseEvent>::empty());
    assert(string_views(tokens@) + Seq::<Seq<char>>::empty() =~= string_views(tokens@));
    (tokens, Ok(()))
}

} // verus!
