//! The user's Markdown vault: the three rule files loaded into every prompt,
//! the per-category example files, and the edits that the curation loops
//! make to `campos-padrao.md`, `evitar.md` and `estilo.md`.

use vstd::prelude::*;
use crate::stats::{normalize_chars, paths_in, normalized, string_views};
use crate::text::{
    chars_of, contains, copy_range, extend, find, find_chars, lines, lines_chars,
    lowercase_of, starts_with, starts_with_chars, string_of, to_lowercase_chars, trim,
    trim_chars, trim_start, trim_start_chars, views, trim_end, trim_end_chars, opt_view, is_ws,
    split_any, count_line_starts, line_starts_from, at_line_start,
    lemma_line_starts_concat_sep, lemma_line_starts_concat_tail, lemma_line_starts_concat_nl,
    lemma_line_starts_none, lemma_line_starts_none_char, lemma_line_starts_inline, dec,
    dec_padded, pad_zeros,
};
use chrono::{Datelike, Timelike};

verus! {

/// The contents of the three rule files of the vault.
#[derive(Clone, Debug)]
pub struct VaultContext {
    pub estilo: String,
    pub evitar: String,
    pub campos_padrao: String,
}

/// The number of UTF-8 bytes of a text (`str::len`).
pub open spec fn byte_len(s: Seq<char>) -> usize {
    vstd::utf8::encode_utf8(s).len() as usize
}

/// `str::len`: the number of UTF-8 bytes of the string.
pub fn str_byte_len(s: &String) -> (r: usize)
    ensures
        r == byte_len(s@),
{
    s.as_str().len()
}

impl Default for VaultContext {
    /// The context of a vault with empty rule files.
    fn default() -> (r: VaultContext)
        ensures
            r.estilo@ == Seq::<char>::empty(),
            r.evitar@ == Seq::<char>::empty(),
            r.campos_padrao@ == Seq::<char>::empty(),
    {
        VaultContext::empty()
    }
}

impl VaultContext {
    /// The context of a vault with empty rule files.
    pub fn empty() -> (r: VaultContext)
        ensures
            r.estilo@ == Seq::<char>::empty(),
            r.evitar@ == Seq::<char>::empty(),
            r.campos_padrao@ == Seq::<char>::empty(),
    {
        VaultContext { estilo: String::new(), evitar: String::new(), campos_padrao: String::new() }
    }

    /// The number of UTF-8 bytes of the three files together.
    pub fn total_chars(&self) -> (r: usize)
        requires
            byte_len(self.estilo@) + byte_len(self.evitar@) + byte_len(self.campos_padrao@)
                <= usize::MAX,
        ensures
            r == byte_len(self.estilo@) + byte_len(self.evitar@) + byte_len(self.campos_padrao@),
    {
        str_byte_len(&self.estilo) + str_byte_len(&self.evitar) + str_byte_len(&self.campos_padrao)
    }

    /// The names of the rule files whose content is not blank, in the order
    /// estilo, evitar, campos-padrao.
    pub open spec fn spec_files_present(&self) -> Seq<Seq<char>> {
        let a = if trim(self.estilo@).len() > 0 {
            seq!["estilo.md"@]
        } else {
            Seq::<Seq<char>>::empty()
        };
        let b = if trim(self.evitar@).len() > 0 {
            seq!["evitar.md"@]
        } else {
            Seq::<Seq<char>>::empty()
        };
        let c = if trim(self.campos_padrao@).len() > 0 {
            seq!["campos-padrao.md"@]
        } else {
            Seq::<Seq<char>>::empty()
        };
        a + b + c
    }

    /// The names of the rule files whose content is not blank.
    pub fn files_present(&self) -> (r: Vec<String>)
        ensures
            string_views(r@) == self.spec_files_present(),
    {
        let mut out: Vec<String> = Vec::new();
        let e = chars_of(self.estilo.as_str());
        if trim_chars(&e).len() > 0 {
            out.push(String::from_str("estilo.md"));
        }
        let v = chars_of(self.evitar.as_str());
        if trim_chars(&v).len() > 0 {
            out.push(String::from_str("evitar.md"));
        }
        let c = chars_of(self.campos_padrao.as_str());
        if trim_chars(&c).len() > 0 {
            out.push(String::from_str("campos-padrao.md"));
        }
        assert(string_views(out@) =~= self.spec_files_present());
        out
    }
}

/// The number of example blocks in the text of a category file: the lines
/// that begin with the block heading `## Aprovado em`. Free notes, and the
/// heading quoted inside a line, are not counted.
pub fn count_example_blocks(content: &str) -> (r: usize)
    ensures
        r == count_line_starts(content@, "## Aprovado em"@),
{
    let c = chars_of(content);
    let p = chars_of("## Aprovado em");
    crate::text::count_line_starts_chars(&c, &p)
}

/// The text between backticks on a line `- **Release atual:** \`...\``,
/// leading whitespace of the line and spaces around the value allowed.
pub open spec fn release_line_value(line: Seq<char>) -> Option<Seq<char>> {
    let t = trim_start(line);
    let prefix = "- **Release atual:**"@;
    if !starts_with(t, prefix) {
        None
    } else {
        let rest = trim(t.skip(prefix.len() as int));
        if !(rest.len() > 0 && rest[0] == '`') {
            None
        } else {
            let inner = rest.drop_first();
            match find(inner, seq!['`']) {
                Some(e) => Some(inner.take(e)),
                None => None,
            }
        }
    }
}

/// The first value given on a release line among the lines from `i` on.
pub open spec fn release_from_lines(ls: Seq<Seq<char>>, i: int) -> Option<Seq<char>>
    decreases ls.len() - i,
{
    if i < 0 || i >= ls.len() {
        None
    } else {
        match release_line_value(ls[i]) {
            Some(v) => Some(v),
            None => release_from_lines(ls, i + 1),
        }
    }
}

fn release_line_value_chars(line: &Vec<char>) -> (r: Option<Vec<char>>)
    ensures
        r matches Some(v) ==> release_line_value(line@) == Some(v@),
        r is None ==> release_line_value(line@) is None,
{
    let t = trim_start_chars(line);
    let prefix = chars_of("- **Release atual:**");
    if !starts_with_chars(&t, &prefix) {
        return None;
    }
    let after = copy_range(&t, prefix.len(), t.len());
    assert(after@ =~= t@.skip(prefix@.len() as int));
    let rest = trim_chars(&after);
    if !(rest.len() > 0 && rest[0] == '`') {
        return None;
    }
    let inner = copy_range(&rest, 1, rest.len());
    assert(inner@ =~= rest@.drop_first());
    let mut tick: Vec<char> = Vec::new();
    tick.push('`');
    assert(tick@ =~= seq!['`']);
    match find_chars(&inner, &tick) {
        Some(e) => {
            proof {
                crate::text::lemma_find_from(inner@, tick@, 0);
            }
            let v = copy_range(&inner, 0, e);
            assert(v@ =~= inner@.take(e as int));
            Some(v)
        },
        None => None,
    }
}

/// The current release written in `campos-padrao.md` on its line
/// `- **Release atual:** \`vX.Y.Z — dd/mm/aaaa\``: the text between the
/// backticks of the first such line that has them.
pub fn current_release_in_text(content: &str) -> (r: Option<String>)
    ensures
        r matches Some(v) ==> release_from_lines(lines(content@), 0) == Some(v@),
        r is None ==> release_from_lines(lines(content@), 0) is None,
{
    let c = chars_of(content);
    let ls = lines_chars(&c);
    let ghost lv = views(ls@);
    let mut i: usize = 0;
    while i < ls.len()
        invariant
            lv == views(ls@),
            lv == lines(content@),
            i <= ls.len(),
            release_from_lines(lv, 0) == release_from_lines(lv, i as int),
        decreases ls.len() - i,
    {
        match release_line_value_chars(&ls[i]) {
            Some(v) => {
                return Some(string_of(&v));
            },
            None => {},
        }
        i += 1;
    }
    None
}

/// A set of paths without repetitions.
pub struct PathSet {
    paths: Vec<String>,
}

impl PathSet {
    /// No path is kept twice.
    #[verifier::type_invariant]
    spec fn no_repeats(self) -> bool {
        string_views(self.paths@).no_duplicates()
    }

    /// The paths of the set.
    pub closed spec fn view(&self) -> Set<Seq<char>> {
        string_views(self.paths@).to_set()
    }

    /// The set holds the path `p`.
    pub fn contains(&self, p: &str) -> (r: bool)
        ensures
            r == self.view().contains(p@),
    {
        let q = chars_of(p);
        let mut i: usize = 0;
        while i < self.paths.len()
            invariant
                i <= self.paths.len(),
                q@ == p@,
                forall|j: int| 0 <= j < i ==> (#[trigger] self.paths@[j])@ != p@,
            decreases self.paths.len() - i,
        {
            let c = chars_of(self.paths[i].as_str());
            if crate::stats::eq_chars(&c, &q) {
                assert(string_views(self.paths@)[i as int] == p@);
                return true;
            }
            i += 1;
        }
        assert(!self.view().contains(p@)) by {
            if string_views(self.paths@).contains(p@) {
                let j = choose|j: int|
                    0 <= j < string_views(self.paths@).len() && string_views(self.paths@)[j] == p@;
                assert(self.paths@[j]@ == p@);
            }
        }
        false
    }
}

/// The paths written in the text (as `extract_paths` finds them), each
/// normalized.
pub open spec fn normalized_paths(ps: Seq<Seq<char>>) -> Seq<Seq<char>> {
    ps.map_values(|p: Seq<char>| normalized(p))
}

/// The set of paths already written in `campos-padrao.md`: every path found
/// in its text, normalized. Used to leave out suggestions that are there.
#[verifier::spinoff_prover]
pub fn existing_paths_in_text(content: &str) -> (r: PathSet)
    ensures
        r.view() == normalized_paths(paths_in(content@)).to_set(),
{
    let found = crate::stats::extract_paths(content);
    let ghost fv = string_views(found@);
    let mut out: Vec<String> = Vec::new();
    let mut i: usize = 0;
    while i < found.len()
        invariant
            fv == string_views(found@),
            fv == paths_in(content@),
            i <= found.len(),
            string_views(out@).to_set() =~= normalized_paths(fv.take(i as int)).to_set(),
            string_views(out@).no_duplicates(),
        decreases found.len() - i,
    {
        let c = chars_of(found[i].as_str());
        let n = normalize_chars(&c);
        let ns = string_of(&n);
        let ghost before = string_views(out@);
        assert(normalized_paths(fv.take(i + 1)) =~= normalized_paths(fv.take(i as int)).push(
            normalized(fv[i as int]),
        ));
        let mut present = false;
        let mut j: usize = 0;
        while j < out.len() && !present
            invariant
                j <= out.len(),
                !present ==> forall|k: int| 0 <= k < j ==> (#[trigger] out@[k])@ != n@,
                present ==> j < out.len() && out@[j as int]@ == n@,
            decreases out.len() - j, (if present { 0int } else { 1int }),
        {
            let o = chars_of(out[j].as_str());
            if crate::stats::eq_chars(&o, &n) {
                present = true;
            } else {
                j += 1;
            }
        }
        if !present {
            assert(string_views(out@.push(ns)) =~= before.push(n@));
            assert(before.push(n@).to_set() =~= before.to_set().insert(n@)) by {
                broadcast use vstd::seq_lib::group_seq_properties;
            }
            assert(normalized_paths(fv.take(i + 1)).to_set() =~= normalized_paths(
                fv.take(i as int),
            ).to_set().insert(n@)) by {
                broadcast use vstd::seq_lib::group_seq_properties;
            }
            out.push(ns);
            assert(!before.contains(n@)) by {
                if before.contains(n@) {
                    let k = choose|k: int| 0 <= k < before.len() && before[k] == n@;
                    assert(out@[k]@ == n@);
                }
            }
        } else {
            assert(before[j as int] == n@);
            assert(before.to_set().insert(n@) =~= before.to_set());
            assert(normalized_paths(fv.take(i + 1)).to_set() =~= normalized_paths(
                fv.take(i as int),
            ).to_set().insert(n@)) by {
                broadcast use vstd::seq_lib::group_seq_properties;
            }
        }
        i += 1;
    }
    assert(fv.take(found.len() as int) =~= fv);
    PathSet { paths: out }
}


/// Lines `a..b` of `ls`, each followed by a line feed.
pub open spec fn lines_text(ls: Seq<Seq<char>>, a: int, b: int) -> Seq<char>
    decreases b - a,
{
    if b <= a {
        Seq::<char>::empty()
    } else {
        lines_text(ls, a, b - 1) + ls[b - 1] + seq!['\n']
    }
}

/// The line is a second-level heading (`## `, leading whitespace allowed).
pub open spec fn is_heading(line: Seq<char>) -> bool {
    starts_with(trim_start(line), "## "@)
}

/// The line is a second-level heading whose lowercase text contains `kw`.
pub open spec fn is_section(line: Seq<char>, kw: Seq<char>) -> bool {
    is_heading(line) && contains(lowercase_of(trim_start(line)), kw)
}

/// The index of the first line at or after `i` that opens the section
/// named by `kw`, or the number of lines.
pub open spec fn section_from(ls: Seq<Seq<char>>, kw: Seq<char>, i: int) -> int
    decreases ls.len() - i,
{
    if i < 0 || i >= ls.len() {
        ls.len() as int
    } else if is_section(ls[i], kw) {
        i
    } else {
        section_from(ls, kw, i + 1)
    }
}

/// The index of the first heading at or after `i`, or the number of lines.
pub open spec fn heading_from(ls: Seq<Seq<char>>, i: int) -> int
    decreases ls.len() - i,
{
    if i < 0 || i >= ls.len() {
        ls.len() as int
    } else if is_heading(ls[i]) {
        i
    } else {
        heading_from(ls, i + 1)
    }
}

/// `content` with `block` inserted at the end of the section whose heading
/// contains `kw` (before the next heading, or at the end of the text), every
/// line ending with a line feed; when there is no such section, the text
/// followed by a blank line, `heading` and `block`.
pub open spec fn insert_in_section(
    content: Seq<char>,
    block: Seq<char>,
    kw: Seq<char>,
    heading: Seq<char>,
) -> Seq<char> {
    let ls = lines(content);
    let k = section_from(ls, kw, 0);
    if k < ls.len() {
        let e = heading_from(ls, k + 1);
        lines_text(ls, 0, e) + block + lines_text(ls, e, ls.len() as int)
    } else {
        let c1 = if content.len() > 0 && content.last() != '\n' {
            content.push('\n')
        } else {
            content
        };
        let c2 = if content.len() > 0 {
            c1.push('\n')
        } else {
            c1
        };
        c2 + heading + block
    }
}

fn is_heading_chars(line: &Vec<char>) -> (r: bool)
    ensures
        r == is_heading(line@),
{
    let t = trim_start_chars(line);
    let h = chars_of("## ");
    starts_with_chars(&t, &h)
}

fn is_section_chars(line: &Vec<char>, kw: &Vec<char>) -> (r: bool)
    ensures
        r == is_section(line@, kw@),
{
    if !is_heading_chars(line) {
        return false;
    }
    let t = trim_start_chars(line);
    let low = to_lowercase_chars(&t);
    find_chars(&low, kw).is_some()
}

fn append_lines(out: &mut Vec<char>, ls: &Vec<Vec<char>>, a: usize, b: usize)
    requires
        a <= b <= ls.len(),
    ensures
        final(out)@ == old(out)@ + lines_text(views(ls@), a as int, b as int),
{
    let ghost o0 = out@;
    let mut i = a;
    while i < b
        invariant
            a <= i <= b <= ls.len(),
            out@ == o0 + lines_text(views(ls@), a as int, i as int),
        decreases b - i,
    {
        extend(out, &ls[i]);
        out.push('\n');
        i += 1;
        assert(out@ =~= o0 + lines_text(views(ls@), a as int, i as int));
    }
}

/// Inserts `block` at the end of the section whose heading contains `kw`,
/// or appends a new section with `heading` and `block`.
#[verifier::spinoff_prover]
pub fn insert_in_section_chars(
    content: &Vec<char>,
    block: &Vec<char>,
    kw: &Vec<char>,
    heading: &Vec<char>,
) -> (r: Vec<char>)
    ensures
        r@ == insert_in_section(content@, block@, kw@, heading@),
{
    let ls = lines_chars(content);
    let ghost lv = views(ls@);
    let mut k: usize = 0;
    while k < ls.len() && !is_section_chars(&ls[k], kw)
        invariant
            lv == views(ls@),
            k <= ls.len(),
            section_from(lv, kw@, 0) == section_from(lv, kw@, k as int),
        decreases ls.len() - k,
    {
        k += 1;
    }
    if k < ls.len() {
        let mut e = k + 1;
        while e < ls.len() && !is_heading_chars(&ls[e])
            invariant
                lv == views(ls@),
                k < e <= ls.len(),
                heading_from(lv, k + 1) == heading_from(lv, e as int),
            decreases ls.len() - e,
        {
            e += 1;
        }
        let mut out: Vec<char> = Vec::new();
        append_lines(&mut out, &ls, 0, e);
        extend(&mut out, block);
        append_lines(&mut out, &ls, e, ls.len());
        out
    } else {
        let mut out = copy_range(content, 0, content.len());
        assert(out@ =~= content@);
        if content.len() > 0 && content[content.len() - 1] != '\n' {
            out.push('\n');
        }
        if content.len() > 0 {
            out.push('\n');
        }
        extend(&mut out, heading);
        extend(&mut out, block);
        out
    }
}

/// The line that states the current release.
pub open spec fn release_line(v: Seq<char>) -> Seq<char> {
    "- **Release atual:** `"@ + v + "`"@
}

/// The first line at or after `i` that starts (after its indentation) with
/// `- **Release atual:**`, or the number of lines.
pub open spec fn release_line_from(ls: Seq<Seq<char>>, i: int) -> int
    decreases ls.len() - i,
{
    if i < 0 || i >= ls.len() {
        ls.len() as int
    } else if starts_with(trim_start(ls[i]), "- **Release atual:**"@) {
        i
    } else {
        release_line_from(ls, i + 1)
    }
}

/// The indentation of a line.
pub open spec fn indent(line: Seq<char>) -> Seq<char> {
    line.take(line.len() - trim_start(line).len())
}

/// The lines joined by line feeds (`join("\n")`).
pub open spec fn join_lines(ls: Seq<Seq<char>>) -> Seq<char> {
    crate::text::join(ls, seq!['\n'])
}

/// `campos-padrao.md` with its release line pointing to `v`: the first line
/// `- **Release atual:** ...` replaced (its indentation kept), the final
/// line feed kept; when there is no such line, a section
/// `## Versão atual em produção` holding the new line appended after a
/// blank line.
pub open spec fn with_release_line(content: Seq<char>, v: Seq<char>) -> Seq<char> {
    let ls = lines(content);
    let k = release_line_from(ls, 0);
    let nl = release_line(v);
    if k < ls.len() {
        let j = join_lines(ls.update(k, indent(ls[k]) + nl));
        if content.len() > 0 && content.last() == '\n' && !(j.len() > 0 && j.last() == '\n') {
            j.push('\n')
        } else {
            j
        }
    } else {
        let j = join_lines(ls);
        let j0 = if content.len() > 0 && content.last() == '\n' && !(j.len() > 0 && j.last()
            == '\n') {
            j.push('\n')
        } else {
            j
        };
        let j1 = if j0.len() > 0 && j0.last() != '\n' {
            j0.push('\n')
        } else {
            j0
        };
        let j2 = if !crate::text::ends_with(j1, seq!['\n', '\n']) && j1.len() > 0 {
            j1.push('\n')
        } else {
            j1
        };
        j2 + "## Versão atual em produção\n"@ + nl + seq!['\n']
    }
}

fn ends_with_nl(s: &Vec<char>) -> (r: bool)
    ensures
        r == (s@.len() > 0 && s@.last() == '\n'),
{
    s.len() > 0 && s[s.len() - 1] == '\n'
}

/// Points the release line of `campos-padrao.md` to `new_release`.
#[verifier::spinoff_prover]
pub fn replace_or_append_release_line(content: &str, new_release: &str) -> (r: String)
    ensures
        r@ == with_release_line(content@, new_release@),
{
    let c = chars_of(content);
    let v = chars_of(new_release);
    let mut nl = chars_of("- **Release atual:** `");
    extend(&mut nl, &v);
    let tick = chars_of("`");
    extend(&mut nl, &tick);
    let mut ls = lines_chars(&c);
    let ghost lv = views(ls@);
    let prefix = chars_of("- **Release atual:**");
    let mut k: usize = 0;
    while k < ls.len() && !starts_with_chars(&trim_start_chars(&ls[k]), &prefix)
        invariant
            lv == views(ls@),
            prefix@ == "- **Release atual:**"@,
            k <= ls.len(),
            release_line_from(lv, 0) == release_line_from(lv, k as int),
        decreases ls.len() - k,
    {
        k += 1;
    }
    let replaced = k < ls.len();
    assert(nl@ =~= release_line(v@));
    if replaced {
        let ti = crate::text::trim_start_index(&ls[k]);
        let mut line = copy_range(&ls[k], 0, ti);
        assert(line@ =~= indent(lv[k as int]));
        extend(&mut line, &nl);
        ls.set(k, line);
        assert(views(ls@) =~= lv.update(k as int, indent(lv[k as int]) + release_line(v@)));
    }
    let ghost jl = if replaced {
        lv.update(k as int, indent(lv[k as int]) + release_line(v@))
    } else {
        lv
    };
    assert(views(ls@) == jl);
    let mut sep: Vec<char> = Vec::new();
    sep.push('\n');
    assert(sep@ =~= seq!['\n']);
    let mut result = crate::text::join_chars(&ls, &sep);
    assert(result@ == join_lines(jl));
    if c.len() > 0 && c[c.len() - 1] == '\n' && !ends_with_nl(&result) {
        result.push('\n');
    }
    if replaced {
        assert(result@ == with_release_line(content@, new_release@));
    }
    if !replaced {
        if result.len() > 0 && result[result.len() - 1] != '\n' {
            result.push('\n');
        }
        let mut two: Vec<char> = Vec::new();
        two.push('\n');
        two.push('\n');
        assert(two@ =~= seq!['\n', '\n']);
        if !crate::text::ends_with_chars(&result, &two) && result.len() > 0 {
            result.push('\n');
        }
        let h = chars_of("## Versão atual em produção\n");
        extend(&mut result, &h);
        extend(&mut result, &nl);
        result.push('\n');
    }
    string_of(&result)
}


/// The block of new paths for `campos-padrao.md`: a marker with the date,
/// then one item per path.
pub open spec fn paths_block(paths: Seq<Seq<char>>, date: Seq<char>) -> Seq<char> {
    "\n<!-- auto-aprendidos em "@ + date + " -->\n"@ + path_items(paths)
}

/// One line `- \`path\`` per path.
pub open spec fn path_items(paths: Seq<Seq<char>>) -> Seq<char>
    decreases paths.len(),
{
    if paths.len() == 0 {
        Seq::<char>::empty()
    } else {
        path_items(paths.drop_last()) + "- `"@ + paths.last() + "`\n"@
    }
}

/// `content` with the block of `paths` added to its section
/// `## Caminhos recorrentes`, which is created at the end when missing.
pub open spec fn with_paths(content: Seq<char>, paths: Seq<Seq<char>>, date: Seq<char>) -> Seq<
    char,
> {
    insert_in_section(
        content,
        paths_block(paths, date),
        "caminhos recorrentes"@,
        "## Caminhos recorrentes\n"@,
    )
}

/// Adds the paths under a dated marker at the end of the section whose
/// heading contains "caminhos recorrentes" (any case), before the next
/// heading; when the file has no such section, a section
/// `## Caminhos recorrentes` is appended.
pub fn append_paths_to_section(content: &str, new_paths: &Vec<String>, date: &str) -> (r: String)
    ensures
        r@ == with_paths(content@, string_views(new_paths@), date@),
{
    let mut block = chars_of("\n<!-- auto-aprendidos em ");
    crate::text::extend_str(&mut block, date);
    crate::text::extend_str(&mut block, " -->\n");
    let ghost head = block@;
    let ghost ps = string_views(new_paths@);
    let mut i: usize = 0;
    while i < new_paths.len()
        invariant
            i <= new_paths.len(),
            ps == string_views(new_paths@),
            block@ == head + path_items(ps.take(i as int)),
        decreases new_paths.len() - i,
    {
        assert(ps.take(i + 1).drop_last() =~= ps.take(i as int));
        crate::text::extend_str(&mut block, "- `");
        crate::text::extend_str(&mut block, new_paths[i].as_str());
        crate::text::extend_str(&mut block, "`\n");
        i += 1;
    }
    assert(ps.take(new_paths.len() as int) =~= ps);
    let c = chars_of(content);
    let kw = chars_of("caminhos recorrentes");
    let h = chars_of("## Caminhos recorrentes\n");
    let r = insert_in_section_chars(&c, &block, &kw, &h);
    string_of(&r)
}

/// `content` with `block` added to its section `## Frases-modelo aprovadas`,
/// which is created at the end when missing.
pub open spec fn with_phrases(content: Seq<char>, block: Seq<char>) -> Seq<char> {
    insert_in_section(content, block, "frases-modelo"@, "## Frases-modelo aprovadas\n"@)
}

/// Inserts `block` at the end of the section whose heading contains
/// "frases-modelo" (any case), before the next heading; when the file has no
/// such section, a section `## Frases-modelo aprovadas` is appended.
pub fn insert_into_phrases_section(content: &str, block: &str) -> (r: String)
    ensures
        r@ == with_phrases(content@, block@),
{
    let c = chars_of(content);
    let b = chars_of(block);
    let kw = chars_of("frases-modelo");
    let h = chars_of("## Frases-modelo aprovadas\n");
    let r = insert_in_section_chars(&c, &b, &kw, &h);
    string_of(&r)
}

/// The pairs of strings as pairs of texts.
pub open spec fn pair_views(v: Seq<(String, String)>) -> Seq<(Seq<char>, Seq<char>)> {
    v.map_values(|p: (String, String)| (p.0@, p.1@))
}

/// The block of phrase templates: a marker with the date, then for each
/// `(situation, template)` the situation in bold and the template quoted,
/// both trimmed.
pub open spec fn phrases_block(ts: Seq<(Seq<char>, Seq<char>)>, date: Seq<char>) -> Seq<char> {
    "\n<!-- auto-aprendidos em "@ + date + " -->\n"@ + phrase_items(ts)
}

/// The items of a phrases block.
pub open spec fn phrase_items(ts: Seq<(Seq<char>, Seq<char>)>) -> Seq<char>
    decreases ts.len(),
{
    if ts.len() == 0 {
        Seq::<char>::empty()
    } else {
        phrase_items(ts.drop_last()) + "\n**"@ + trim(ts.last().0) + ":**\n> "@ + trim(
            ts.last().1,
        ) + "\n"@
    }
}

proof fn lemma_phrase_items_append(ts: Seq<(Seq<char>, Seq<char>)>, us: Seq<(Seq<char>, Seq<char>)>)
    ensures
        phrase_items(ts + us) == phrase_items(ts) + phrase_items(us),
    decreases us.len(),
{
    if us.len() == 0 {
        assert(ts + us =~= ts);
        assert(phrase_items(ts) + Seq::<char>::empty() =~= phrase_items(ts));
    } else {
        let u0 = us.drop_last();
        lemma_phrase_items_append(ts, u0);
        assert((ts + us).drop_last() =~= ts + u0);
        assert((ts + us).last() == us.last());
        let it = "\n**"@ + trim(us.last().0) + ":**\n> "@ + trim(us.last().1) + "\n"@;
        assert(phrase_items(ts + us) == phrase_items(ts + u0) + it);
        assert(phrase_items(us) == phrase_items(u0) + it);
        assert(phrase_items(ts) + phrase_items(u0) + it =~= phrase_items(ts) + (phrase_items(u0)
            + it));
    }
}

/// Each accepted phrase template gives its own item, in order: the items of
/// two runs of pairs are the items of the first then those of the second,
/// and one pair `(situation, template)` gives exactly
/// `\n**situation:**\n> template\n`, both trimmed.
pub proof fn lemma_phrase_item_per_pair(
    ts: Seq<(Seq<char>, Seq<char>)>,
    us: Seq<(Seq<char>, Seq<char>)>,
    situation: Seq<char>,
    template: Seq<char>,
)
    ensures
        phrase_items(ts + us) == phrase_items(ts) + phrase_items(us),
        phrase_items(seq![(situation, template)]) == "\n**"@ + trim(situation) + ":**\n> "@ + trim(
            template,
        ) + "\n"@,
{
    lemma_phrase_items_append(ts, us);
    let one = seq![(situation, template)];
    assert(one.drop_last() =~= Seq::<(Seq<char>, Seq<char>)>::empty());
    assert(one.last() == (situation, template));
    let it = "\n**"@ + trim(situation) + ":**\n> "@ + trim(template) + "\n"@;
    assert(phrase_items(one.drop_last()) == Seq::<char>::empty());
    assert(phrase_items(one) == phrase_items(one.drop_last()) + "\n**"@ + trim(one.last().0)
        + ":**\n> "@ + trim(one.last().1) + "\n"@);
    assert(Seq::<char>::empty() + "\n**"@ + trim(situation) + ":**\n> "@ + trim(template) + "\n"@
        =~= it);
}

/// The block of phrase templates approved at `date`.
pub fn phrase_templates_block(templates: &Vec<(String, String)>, date: &str) -> (r: String)
    ensures
        r@ == phrases_block(pair_views(templates@), date@),
{
    let mut block = chars_of("\n<!-- auto-aprendidos em ");
    crate::text::extend_str(&mut block, date);
    crate::text::extend_str(&mut block, " -->\n");
    let ghost head = block@;
    let ghost ts = pair_views(templates@);
    let mut i: usize = 0;
    while i < templates.len()
        invariant
            i <= templates.len(),
            ts == pair_views(templates@),
            block@ == head + phrase_items(ts.take(i as int)),
        decreases templates.len() - i,
    {
        assert(ts.take(i + 1).drop_last() =~= ts.take(i as int));
        let sit = chars_of(templates[i].0.as_str());
        let tpl = chars_of(templates[i].1.as_str());
        crate::text::extend_str(&mut block, "\n**");
        extend(&mut block, &trim_chars(&sit));
        crate::text::extend_str(&mut block, ":**\n> ");
        extend(&mut block, &trim_chars(&tpl));
        crate::text::extend_str(&mut block, "\n");
        i += 1;
    }
    assert(ts.take(templates.len() as int) =~= ts);
    string_of(&block)
}

/// Why a change to the vault was refused.
#[derive(Clone, Copy, Debug, PartialEq, Eq, Structural)]
pub enum VaultError {
    /// The proposed `estilo.md` is blank.
    EmptyContent,
    /// Neither a release nor a path was given.
    NothingToApply,
    /// No phrase template was given.
    NoTemplates,
}

impl VaultError {
    /// The message shown for the error.
    pub fn message(&self) -> (r: String)
        ensures
            r@ == match *self {
                VaultError::EmptyContent => "conteúdo proposto está vazio — operação abortada"@,
                VaultError::NothingToApply => "nenhuma mudança a aplicar"@,
                VaultError::NoTemplates => "nenhuma frase-modelo a aplicar"@,
            },
    {
        match self {
            VaultError::EmptyContent => String::from_str(
                "conteúdo proposto está vazio — operação abortada",
            ),
            VaultError::NothingToApply => String::from_str("nenhuma mudança a aplicar"),
            VaultError::NoTemplates => String::from_str("nenhuma frase-modelo a aplicar"),
        }
    }
}

/// A file of the vault to rewrite: the copy of its old content to keep in
/// the `.bak` file, if one is to be made, and its new content.
pub struct FileEdit {
    pub backup: Option<String>,
    pub content: String,
}

/// The local date and time now, as (year, month, day, hour, minute). Calls
/// `chrono::Local::now()` and reads its fields, whose ranges chrono's
/// `Datelike` and `Timelike` document; which instant it is depends on the
/// clock and on the machine's time zone, and is not stated.
#[verifier::external_body]
fn local_now() -> (r: (i32, u32, u32, u32, u32))
    ensures
        1 <= r.1 <= 12,
        1 <= r.2 <= 31,
        r.3 <= 23,
        r.4 <= 59,
{
    let now = chrono::Local::now();
    (now.year(), now.month(), now.day(), now.hour(), now.minute())
}

/// A year as chrono's `%Y` writes it: four digits, zero-padded, for the years
/// 0 to 9999; otherwise with its sign, and zero-padded to four digits.
pub open spec fn year_text(y: int) -> Seq<char> {
    if 0 <= y <= 9999 {
        pad_zeros(dec(y as nat), 4)
    } else if y < 0 {
        seq!['-'] + pad_zeros(dec((-y) as nat), 4)
    } else {
        seq!['+'] + pad_zeros(dec(y as nat), 4)
    }
}

/// The label `dd/mm/aaaa hh:mm` of a date and time (chrono's
/// `%d/%m/%Y %H:%M`).
pub open spec fn date_label(year: int, month: nat, day: nat, hour: nat, minute: nat) -> Seq<char> {
    pad_zeros(dec(day), 2) + seq!['/'] + pad_zeros(dec(month), 2) + seq!['/'] + year_text(year)
        + seq![' '] + pad_zeros(dec(hour), 2) + seq![':'] + pad_zeros(dec(minute), 2)
}

/// A label of a real date and time: fields within their ranges.
pub open spec fn is_date_label(s: Seq<char>) -> bool {
    exists|y: int, mo: nat, d: nat, h: nat, mi: nat|
        1 <= mo <= 12 && 1 <= d <= 31 && h <= 23 && mi <= 59 && s == #[trigger] date_label(
            y,
            mo,
            d,
            h,
            mi,
        )
}

/// Writes the label `dd/mm/aaaa hh:mm` of a date and time.
pub fn format_date_label(year: i32, month: u32, day: u32, hour: u32, minute: u32) -> (r: String)
    ensures
        r@ == date_label(year as int, month as nat, day as nat, hour as nat, minute as nat),
{
    let mut out = dec_padded(day as u64, 2);
    out.push('/');
    extend(&mut out, &dec_padded(month as u64, 2));
    out.push('/');
    if 0 <= year && year <= 9999 {
        extend(&mut out, &dec_padded(year as u64, 4));
    } else if year < 0 {
        out.push('-');
        let a: i64 = -(year as i64);
        extend(&mut out, &dec_padded(a as u64, 4));
    } else {
        out.push('+');
        extend(&mut out, &dec_padded(year as u64, 4));
    }
    out.push(' ');
    extend(&mut out, &dec_padded(hour as u64, 2));
    out.push(':');
    extend(&mut out, &dec_padded(minute as u64, 2));
    let r = string_of(&out);
    assert(r@ =~= date_label(year as int, month as nat, day as nat, hour as nat, minute as nat));
    r
}

/// The local date and time now, labelled `dd/mm/aaaa hh:mm`, for the markers
/// of the blocks added to the vault.
fn now_label() -> (r: String)
    ensures
        is_date_label(r@),
{
    let (y, mo, d, h, mi) = local_now();
    let r = format_date_label(y, mo, d, h, mi);
    assert(r@ == date_label(y as int, mo as nat, d as nat, h as nat, mi as nat));
    r
}

/// `campos-padrao.md` after the accepted changes: the release line pointed
/// to the release, if one is given, then the paths added, if any.
pub open spec fn campos_with_changes(
    original: Seq<char>,
    release: Option<Seq<char>>,
    paths: Seq<Seq<char>>,
    date: Seq<char>,
) -> Seq<char> {
    let c1 = match release {
        Some(v) => with_release_line(original, v),
        None => original,
    };
    if paths.len() > 0 {
        with_paths(c1, paths, date)
    } else {
        c1
    }
}

/// The content of `campos-padrao.md` after the accepted changes, with `date`
/// in the marker of the added paths.
pub fn with_campos_changes(
    original: &str,
    new_release_line: Option<&str>,
    new_paths: &Vec<String>,
    date: &str,
) -> (r: String)
    ensures
        r@ == campos_with_changes(
            original@,
            opt_view(new_release_line),
            string_views(new_paths@),
            date@,
        ),
{
    let c1 = match new_release_line {
        Some(line) => replace_or_append_release_line(original, line),
        None => String::from_str(original),
    };
    if new_paths.len() > 0 {
        append_paths_to_section(c1.as_str(), new_paths, date)
    } else {
        c1
    }
}

/// Applies the accepted changes to `campos-padrao.md` (whose current content
/// is `original`, empty when the file is missing): refused when neither a
/// release nor a path is given; otherwise the new content, stamped with the
/// current date, and a backup of the old content when it was not empty.
pub fn apply_campos_changes(
    original: &str,
    new_release_line: Option<&str>,
    new_paths: &Vec<String>,
) -> (r: Result<FileEdit, VaultError>)
    ensures
        r is Err <==> (new_release_line is None && new_paths.len() == 0),
        r matches Err(e) ==> e == VaultError::NothingToApply,
        r matches Ok(edit) ==> {
            &&& (original@.len() > 0 ==> (edit.backup matches Some(b) && b@ == original@))
            &&& (original@.len() == 0 ==> edit.backup is None)
            &&& exists|date: Seq<char>|
                (new_paths@.len() > 0 ==> is_date_label(date)) && edit.content@
                    == #[trigger] campos_with_changes(
                    original@,
                    opt_view(new_release_line),
                    string_views(new_paths@),
                    date,
                )
        },
{
    if new_release_line.is_none() && new_paths.len() == 0 {
        return Err(VaultError::NothingToApply);
    }
    let date = if new_paths.len() > 0 {
        now_label()
    } else {
        String::new()
    };
    let content = with_campos_changes(original, new_release_line, new_paths, date.as_str());
    let backup = if original.is_empty() {
        None
    } else {
        Some(String::from_str(original))
    };
    Ok(FileEdit { backup, content })
}

/// Adds the approved phrase templates to `campos-padrao.md` (whose current
/// content is `original`, empty when the file is missing): refused when
/// there is none; otherwise the new content, stamped with the current date,
/// and a backup of the old content when it was not empty.
pub fn append_phrase_templates(original: &str, templates: &Vec<(String, String)>) -> (r: Result<
    FileEdit,
    VaultError,
>)
    ensures
        r is Err <==> templates.len() == 0,
        r matches Err(e) ==> e == VaultError::NoTemplates,
        r matches Ok(edit) ==> {
            &&& (original@.len() > 0 ==> (edit.backup matches Some(b) && b@ == original@))
            &&& (original@.len() == 0 ==> edit.backup is None)
            &&& exists|date: Seq<char>|
                is_date_label(date) && edit.content@ == with_phrases(
                    original@,
                    #[trigger] phrases_block(pair_views(templates@), date),
                )
        },
{
    if templates.len() == 0 {
        return Err(VaultError::NoTemplates);
    }
    let date = now_label();
    let block = phrase_templates_block(templates, date.as_str());
    let content = insert_into_phrases_section(original, block.as_str());
    let backup = if original.is_empty() {
        None
    } else {
        Some(String::from_str(original))
    };
    Ok(FileEdit { backup, content })
}

/// Replaces `estilo.md` by `new_content`: refused when it is blank; the
/// current content, when the file exists, is kept as the backup.
pub fn replace_estilo(current: Option<&str>, new_content: &str) -> (r: Result<FileEdit, VaultError>)
    ensures
        r is Err <==> trim(new_content@).len() == 0,
        r matches Err(e) ==> e == VaultError::EmptyContent,
        r matches Ok(edit) ==> {
            &&& edit.content@ == new_content@
            &&& match current {
                Some(c) => (edit.backup matches Some(b) && b@ == c@),
                None => edit.backup is None,
            }
        },
{
    let n = chars_of(new_content);
    if trim_chars(&n).len() == 0 {
        return Err(VaultError::EmptyContent);
    }
    let backup = match current {
        Some(c) => Some(String::from_str(c)),
        None => None,
    };
    Ok(FileEdit { backup, content: String::from_str(new_content) })
}


/// The text with each double quote escaped by a backslash
/// (`str::replace('"', "\\\"")`).
pub open spec fn escape_quotes(s: Seq<char>) -> Seq<char>
    decreases s.len(),
{
    if s.len() == 0 {
        Seq::<char>::empty()
    } else {
        escape_quotes(s.drop_last()) + if s.last() == '"' {
            seq!['\\', '"']
        } else {
            seq![s.last()]
        }
    }
}

fn escape_quotes_chars(s: &Vec<char>) -> (r: Vec<char>)
    ensures
        r@ == escape_quotes(s@),
{
    let mut out: Vec<char> = Vec::new();
    let mut i: usize = 0;
    assert(s@.take(0) =~= Seq::<char>::empty());
    while i < s.len()
        invariant
            i <= s.len(),
            out@ == escape_quotes(s@.take(i as int)),
        decreases s.len() - i,
    {
        assert(s@.take(i + 1).drop_last() =~= s@.take(i as int));
        if s[i] == '"' {
            out.push('\\');
            out.push('"');
            assert(out@ =~= escape_quotes(s@.take(i + 1)));
        } else {
            out.push(s[i]);
            assert(out@ =~= escape_quotes(s@.take(i + 1)));
        }
        i += 1;
    }
    assert(s@.take(s.len() as int) =~= s@);
    out
}

/// One line ``- ~~"expression"~~ — reason`` per accepted suggestion, the
/// quotes of the expression escaped.
pub open spec fn evitar_items(ps: Seq<(Seq<char>, Seq<char>)>) -> Seq<char>
    decreases ps.len(),
{
    if ps.len() == 0 {
        Seq::<char>::empty()
    } else {
        evitar_items(ps.drop_last()) + "- ~~\""@ + escape_quotes(ps.last().0) + "\"~~ — "@
            + ps.last().1 + "\n"@
    }
}

proof fn lemma_evitar_items_append(ps: Seq<(Seq<char>, Seq<char>)>, qs: Seq<(Seq<char>, Seq<char>)>)
    ensures
        evitar_items(ps + qs) == evitar_items(ps) + evitar_items(qs),
    decreases qs.len(),
{
    if qs.len() == 0 {
        assert(ps + qs =~= ps);
        assert(evitar_items(ps) + Seq::<char>::empty() =~= evitar_items(ps));
    } else {
        let q0 = qs.drop_last();
        lemma_evitar_items_append(ps, q0);
        assert((ps + qs).drop_last() =~= ps + q0);
        assert((ps + qs).last() == qs.last());
        let it = "- ~~\""@ + escape_quotes(qs.last().0) + "\"~~ — "@ + qs.last().1 + "\n"@;
        assert(evitar_items(ps + qs) == evitar_items(ps + q0) + it);
        assert(evitar_items(qs) == evitar_items(q0) + it);
        assert(evitar_items(ps) + evitar_items(q0) + it =~= evitar_items(ps) + (evitar_items(q0)
            + it));
    }
}

/// Each accepted suggestion gives its own line, in order: the items of two
/// runs of suggestions are the lines of the first then those of the second,
/// and one suggestion `(expression, reason)` gives exactly the line
/// `- ~~"expression"~~ — reason` (quotes in the expression escaped).
pub proof fn lemma_evitar_line_per_suggestion(
    ps: Seq<(Seq<char>, Seq<char>)>,
    qs: Seq<(Seq<char>, Seq<char>)>,
    expression: Seq<char>,
    reason: Seq<char>,
)
    ensures
        evitar_items(ps + qs) == evitar_items(ps) + evitar_items(qs),
        evitar_items(seq![(expression, reason)]) == "- ~~\""@ + escape_quotes(expression)
            + "\"~~ — "@ + reason + "\n"@,
{
    lemma_evitar_items_append(ps, qs);
    let one = seq![(expression, reason)];
    assert(one.drop_last() =~= Seq::<(Seq<char>, Seq<char>)>::empty());
    assert(one.last() == (expression, reason));
    let it = "- ~~\""@ + escape_quotes(expression) + "\"~~ — "@ + reason + "\n"@;
    assert(evitar_items(one.drop_last()) == Seq::<char>::empty());
    assert(evitar_items(one) == evitar_items(one.drop_last()) + "- ~~\""@ + escape_quotes(
        one.last().0,
    ) + "\"~~ — "@ + one.last().1 + "\n"@);
    assert(Seq::<char>::empty() + "- ~~\""@ + escape_quotes(expression) + "\"~~ — "@ + reason
        + "\n"@ =~= it);
}

/// The block of accepted suggestions for `evitar.md`: a marker with the
/// date, then one item per suggestion.
pub open spec fn evitar_block(ps: Seq<(Seq<char>, Seq<char>)>, date: Seq<char>) -> Seq<char> {
    "\n\n<!-- auto-aprendidos em "@ + date + " -->\n"@ + evitar_items(ps)
}

/// The title and note that open a new `evitar.md`.
pub open spec fn evitar_header() -> Seq<char> {
    "# Expressões a evitar\n\n> Adicione manualmente ou deixe o Artemis sugerir após você editar devolutivas antes de aprovar.\n"@
}

/// A file with `block` added: the header then the block when the file is
/// blank, else the file without its trailing whitespace then the block.
pub open spec fn with_block(existing: Seq<char>, header: Seq<char>, block: Seq<char>) -> Seq<char> {
    if trim(existing).len() == 0 {
        header + block
    } else {
        trim_end(existing) + block
    }
}

fn with_block_chars(existing: &str, header: &str, block: &Vec<char>) -> (r: String)
    ensures
        r@ == with_block(existing@, header@, block@),
{
    let e = chars_of(existing);
    let mut out = if trim_chars(&e).len() == 0 {
        chars_of(header)
    } else {
        trim_end_chars(&e)
    };
    extend(&mut out, block);
    string_of(&out)
}

/// `evitar.md` (whose current content is `existing`, empty when missing)
/// with the accepted `(expression, reason)` suggestions added under a marker
/// dated `date`.
pub fn with_evitar_suggestions(existing: &str, suggestions: &Vec<(String, String)>, date: &str) -> (r:
    String)
    ensures
        r@ == with_block(existing@, evitar_header(), evitar_block(pair_views(suggestions@), date@)),
{
    let mut block = chars_of("\n\n<!-- auto-aprendidos em ");
    crate::text::extend_str(&mut block, date);
    crate::text::extend_str(&mut block, " -->\n");
    let ghost head = block@;
    let ghost ps = pair_views(suggestions@);
    let mut i: usize = 0;
    while i < suggestions.len()
        invariant
            i <= suggestions.len(),
            ps == pair_views(suggestions@),
            block@ == head + evitar_items(ps.take(i as int)),
        decreases suggestions.len() - i,
    {
        assert(ps.take(i + 1).drop_last() =~= ps.take(i as int));
        let e = chars_of(suggestions[i].0.as_str());
        crate::text::extend_str(&mut block, "- ~~\"");
        extend(&mut block, &escape_quotes_chars(&e));
        crate::text::extend_str(&mut block, "\"~~ — ");
        crate::text::extend_str(&mut block, suggestions[i].1.as_str());
        crate::text::extend_str(&mut block, "\n");
        i += 1;
    }
    assert(ps.take(suggestions.len() as int) =~= ps);
    with_block_chars(
        existing,
        "# Expressões a evitar\n\n> Adicione manualmente ou deixe o Artemis sugerir após você editar devolutivas antes de aprovar.\n",
        &block,
    )
}

/// `evitar.md` (current content `existing`) with the accepted
/// `(expression, reason)` suggestions added under a marker with the current
/// date and time.
pub fn append_to_evitar(existing: &str, suggestions: &Vec<(String, String)>) -> (r: String)
    ensures
        exists|date: Seq<char>|
            is_date_label(date) && r@ == with_block(
                existing@,
                evitar_header(),
                #[trigger] evitar_block(pair_views(suggestions@), date),
            ),
{
    let date = now_label();
    with_evitar_suggestions(existing, suggestions, date.as_str())
}

/// The name of the examples file of a category: `exemplos-<slug>.md`.
pub open spec fn category_file_name(category: Seq<char>) -> Seq<char> {
    "exemplos-"@ + crate::deepseek::slug(category) + ".md"@
}

/// The name of the examples file of a category, `exemplos-<slug>.md`.
pub fn category_examples_file(category: &str) -> (r: String)
    ensures
        r@ == category_file_name(category@),
{
    let mut out = chars_of("exemplos-");
    let sl = crate::deepseek::slugify_category(category);
    crate::text::extend_str(&mut out, sl.as_str());
    crate::text::extend_str(&mut out, ".md");
    string_of(&out)
}

/// The block of one approved reply: a rule, the heading with the date, the
/// raw input in a code block and the approved reply, both trimmed.
pub open spec fn example_block(date: Seq<char>, raw: Seq<char>, fin: Seq<char>) -> Seq<char> {
    "\n\n---\n\n## Aprovado em "@ + date + "\n\n**Entrada bruta:**\n\n```\n"@ + trim(raw)
        + "\n```\n\n**Devolutiva aprovada:**\n\n"@ + trim(fin) + "\n"@
}

/// The title and note that open a new examples file of the category `slug`.
pub open spec fn examples_header(slug: Seq<char>) -> Seq<char> {
    "# Exemplos aprovados — "@ + slug
        + "\n\n> Arquivo auto-curado pelo Artemis. A IA lê este arquivo INTEIRO ao gerar devolutivas desta categoria, incluindo qualquer texto que você adicionar manualmente (exemplos próprios, anotações, instruções específicas). Os blocos `## Aprovado em ...` são gerados automaticamente, mas você pode editar, remover, reordenar ou adicionar conteúdo livremente.\n"@
}

/// The examples file of `category` (current content `existing`, empty when
/// missing) with the approved reply added, dated `date`.
pub fn with_category_example(
    existing: &str,
    category: &str,
    raw_input: &str,
    final_output: &str,
    date: &str,
) -> (r: String)
    ensures
        r@ == with_block(
            existing@,
            examples_header(crate::deepseek::slug(category@)),
            example_block(date@, raw_input@, final_output@),
        ),
{
    let sl = crate::deepseek::slugify_category(category);
    let mut block = chars_of("\n\n---\n\n## Aprovado em ");
    crate::text::extend_str(&mut block, date);
    crate::text::extend_str(&mut block, "\n\n**Entrada bruta:**\n\n```\n");
    extend(&mut block, &trim_chars(&chars_of(raw_input)));
    crate::text::extend_str(&mut block, "\n```\n\n**Devolutiva aprovada:**\n\n");
    extend(&mut block, &trim_chars(&chars_of(final_output)));
    crate::text::extend_str(&mut block, "\n");
    let mut header = chars_of("# Exemplos aprovados — ");
    crate::text::extend_str(&mut header, sl.as_str());
    crate::text::extend_str(
        &mut header,
        "\n\n> Arquivo auto-curado pelo Artemis. A IA lê este arquivo INTEIRO ao gerar devolutivas desta categoria, incluindo qualquer texto que você adicionar manualmente (exemplos próprios, anotações, instruções específicas). Os blocos `## Aprovado em ...` são gerados automaticamente, mas você pode editar, remover, reordenar ou adicionar conteúdo livremente.\n",
    );
    let h = string_of(&header);
    with_block_chars(existing, h.as_str(), &block)
}

/// The examples file of `category` (current content `existing`) with the
/// approved reply added under a heading with the current date and time.
/// The file is named by `category_examples_file`.
pub fn append_to_category_examples(
    existing: &str,
    category: &str,
    raw_input: &str,
    final_output: &str,
) -> (r: String)
    ensures
        exists|date: Seq<char>|
            is_date_label(date) && r@ == with_block(
                existing@,
                examples_header(crate::deepseek::slug(category@)),
                #[trigger] example_block(date, raw_input@, final_output@),
            ),
{
    let date = now_label();
    with_category_example(existing, category, raw_input, final_output, date.as_str())
}

/// The example block itself is one line that begins with `## Aprovado em`,
/// beside the lines so begun inside the date (after its first character)
/// and inside the two trimmed texts.
proof fn lemma_example_block_count(date: Seq<char>, raw: Seq<char>, fin: Seq<char>)
    ensures
        count_line_starts(example_block(date, raw, fin), "## Aprovado em"@) == 1
            + line_starts_from(date, "## Aprovado em"@, 1) + count_line_starts(
            trim(raw),
            "## Aprovado em"@,
        ) + count_line_starts(trim(fin), "## Aprovado em"@),
{
    let m = "## Aprovado em"@;
    let x0 = "\n\n---\n\n## Aprovado em "@;
    let xa = "\n\n---\n\n"@;
    let xb = "## Aprovado em "@;
    let x2 = "\n\n**Entrada bruta:**\n\n```\n"@;
    let x3 = "\n```\n\n**Devolutiva aprovada:**\n\n"@;
    let nl = "\n"@;
    reveal_strlit("## Aprovado em");
    reveal_strlit("\n\n---\n\n## Aprovado em ");
    reveal_strlit("\n\n---\n\n");
    reveal_strlit("## Aprovado em ");
    reveal_strlit("\n\n**Entrada bruta:**\n\n```\n");
    reveal_strlit("\n```\n\n**Devolutiva aprovada:**\n\n");
    reveal_strlit("\n");
    let r = trim(raw);
    let f = trim(fin);
    assert(forall|j: int| 0 <= j < m.len() ==> m[j] != '\n');
    // the heading, which opens a line, and the date on the same line
    let hd = xb + date;
    assert(hd.subrange(0, 14) =~= m);
    assert(at_line_start(hd, 0, m));
    assert(forall|k: int| 0 <= k < xb.len() ==> xb[k] != '\n');
    lemma_line_starts_inline(xb, date, m, 1);
    assert(count_line_starts(hd, m) == 1 + line_starts_from(date, m, 1));
    lemma_line_starts_none_char(xa, m);
    lemma_line_starts_concat_nl(xa, hd, m);
    assert(x0 + date =~= xa + hd);
    let l1 = x0 + date;
    // the raw input between its fences
    lemma_line_starts_none_char(x2, m);
    lemma_line_starts_concat_nl(x2, r, m);
    lemma_line_starts_concat_sep(l1, x2 + r, m);
    let l3 = l1 + (x2 + r);
    // the approved reply
    lemma_line_starts_none_char(x3, m);
    lemma_line_starts_concat_nl(x3, f, m);
    lemma_line_starts_concat_sep(l3, x3 + f, m);
    let l5 = l3 + (x3 + f);
    // the closing line break
    lemma_line_starts_none_char(nl, m);
    lemma_line_starts_concat_sep(l5, nl, m);
    assert(example_block(date, raw, fin) =~= l5 + nl);
}

/// The header of a new examples file has no line that begins with the block
/// heading: it only quotes it inside its note.
proof fn lemma_examples_header_count(sl: Seq<char>)
    requires
        forall|k: int| 0 <= k < sl.len() ==> sl[k] != '\n',
    ensures
        count_line_starts(examples_header(sl), "## Aprovado em"@) == 0,
{
    let m = "## Aprovado em"@;
    let h1 = "# Exemplos aprovados — "@;
    let h2 = "\n\n> Arquivo auto-curado pelo Artemis. A IA lê este arquivo INTEIRO ao gerar devolutivas desta categoria, incluindo qualquer texto que você adicionar manualmente (exemplos próprios, anotações, instruções específicas). Os blocos `## Aprovado em ...` são gerados automaticamente, mas você pode editar, remover, reordenar ou adicionar conteúdo livremente.\n"@;
    reveal_strlit("## Aprovado em");
    reveal_strlit("# Exemplos aprovados — ");
    reveal_strlit("\n\n> Arquivo auto-curado pelo Artemis. A IA lê este arquivo INTEIRO ao gerar devolutivas desta categoria, incluindo qualquer texto que você adicionar manualmente (exemplos próprios, anotações, instruções específicas). Os blocos `## Aprovado em ...` são gerados automaticamente, mas você pode editar, remover, reordenar ou adicionar conteúdo livremente.\n");
    let h = examples_header(sl);
    assert(h =~= (h1 + sl) + h2);
    assert(forall|k: int| 0 <= k < h1.len() ==> h1[k] != '\n');
    assert(forall|j: int| 0 <= j < h2.len() - 1 && #[trigger] h2[j] == '\n' ==> h2[j + 1] != '#');
    let n = h1.len() + sl.len();
    assert forall|k: int| 0 <= k < h.len() implies !#[trigger] at_line_start(h, k, m) by {
        if at_line_start(h, k, m) {
            assert(h.subrange(k, k + 14)[0] == h[k]);
            assert(h[k] == '#');
            if k == 0 {
                assert(h.subrange(0, 14)[1] == h[1]);
                assert(h[1] == h1[1]);
            } else if k <= h1.len() {
                assert(h[k - 1] == h1[k - 1]);
            } else if k <= n {
                assert(h[k - 1] == sl[k - 1 - h1.len()]);
            } else {
                assert(h[k - 1] == h2[k - 1 - n]);
                assert(h[k] == h2[k - n]);
            }
        }
    }
    lemma_line_starts_none(h, m);
}

/// Adding an approved reply to an examples file adds exactly one example
/// block to its count, beside the lines begun by `## Aprovado em` that the
/// date (after its first character) and the two trimmed texts carry; this
/// holds for a file that is new or blank as for one that holds text.
pub proof fn lemma_example_adds_one_block(
    existing: Seq<char>,
    category: Seq<char>,
    raw: Seq<char>,
    fin: Seq<char>,
    date: Seq<char>,
)
    ensures
        count_line_starts(
            with_block(
                existing,
                examples_header(crate::deepseek::slug(category)),
                example_block(date, raw, fin),
            ),
            "## Aprovado em"@,
        ) == count_line_starts(existing, "## Aprovado em"@) + 1 + line_starts_from(
            date,
            "## Aprovado em"@,
            1,
        ) + count_line_starts(trim(raw), "## Aprovado em"@) + count_line_starts(
            trim(fin),
            "## Aprovado em"@,
        ),
{
    let m = "## Aprovado em"@;
    reveal_strlit("## Aprovado em");
    reveal_strlit("\n\n---\n\n## Aprovado em ");
    let block = example_block(date, raw, fin);
    lemma_example_block_count(date, raw, fin);
    assert(block[0] == '\n');
    assert(forall|j: int| 0 <= j < m.len() ==> m[j] != '\n');
    // the text kept, and the whitespace cut from its end
    let te = trim_end(existing);
    crate::text::lemma_trim_end_take(existing);
    let w = existing.skip(te.len() as int);
    assert(existing =~= te + w);
    assert(forall|k: int| 0 <= k < w.len() ==> is_ws(#[trigger] w[k]));
    lemma_line_starts_none_char(w, m);
    lemma_line_starts_concat_tail(te, w, m);
    if trim(existing).len() == 0 {
        // a blank file: nothing in it counts, and the header counts nothing
        let ts = trim_start(existing);
        crate::text::lemma_trim_start_skip(existing);
        crate::text::lemma_trim_end_take(ts);
        assert forall|k: int| 0 <= k < existing.len() implies existing[k] != '#' by {
            if k >= existing.len() - ts.len() {
                assert(existing[k] == ts[k - (existing.len() - ts.len())]);
            }
        }
        lemma_line_starts_none_char(existing, m);
        let sl = crate::deepseek::slug(category);
        crate::deepseek::lemma_slug_is_well_formed(category);
        assert forall|k: int| 0 <= k < sl.len() implies sl[k] != '\n' by {
            assert(crate::deepseek::is_slug_char(sl[k]));
        }
        lemma_examples_header_count(sl);
        lemma_line_starts_concat_sep(examples_header(sl), block, m);
    } else {
        // the block after the kept text
        lemma_line_starts_concat_sep(te, block, m);
    }
}


/// The state of the loaded vault as the interface shows it.
#[derive(Clone, Debug)]
pub struct VaultStatus {
    pub path: Option<String>,
    pub last_loaded_ts: Option<u64>,
    pub files_present: Vec<String>,
    pub files_total: usize,
    pub total_chars: usize,
    pub error: Option<String>,
}

impl Default for VaultStatus {
    /// The status of a loader without a vault.
    fn default() -> (r: VaultStatus)
        ensures
            r.path is None,
            r.last_loaded_ts is None,
            r.files_present@.len() == 0,
            r.files_total == 0,
            r.total_chars == 0,
            r.error is None,
    {
        VaultStatus::empty()
    }
}

impl VaultStatus {
    /// The status of a loader without a vault.
    pub fn empty() -> (r: VaultStatus)
        ensures
            r.path is None,
            r.last_loaded_ts is None,
            r.files_present@.len() == 0,
            r.files_total == 0,
            r.total_chars == 0,
            r.error is None,
    {
        VaultStatus {
            path: None,
            last_loaded_ts: None,
            files_present: Vec::new(),
            files_total: 0,
            total_chars: 0,
            error: None,
        }
    }
}

/// What reading one rule file gave: the file was not there, its content, or
/// the message of the error that stopped the read.
#[derive(Clone, Debug)]
pub enum RuleFileRead {
    Missing,
    Read(String),
    Failed(String),
}

/// The names of the rule files, in the order of their reads.
pub open spec fn rule_file_name(i: int) -> Seq<char> {
    if i == 0 {
        "estilo.md"@
    } else if i == 1 {
        "evitar.md"@
    } else {
        "campos-padrao.md"@
    }
}

/// The content a read gives to the context: the text read, else nothing.
pub open spec fn read_text(r: RuleFileRead) -> Seq<char> {
    match r {
        RuleFileRead::Read(c) => c@,
        _ => Seq::<char>::empty(),
    }
}

/// The message of the first failed read among the reads from `i` on.
pub open spec fn first_error_from(reads: Seq<RuleFileRead>, i: int) -> Option<Seq<char>>
    decreases reads.len() - i,
{
    if i < 0 || i >= reads.len() {
        None
    } else {
        match reads[i] {
            RuleFileRead::Failed(e) => Some("erro lendo "@ + rule_file_name(i) + ": "@ + e@),
            _ => first_error_from(reads, i + 1),
        }
    }
}

/// The reads fit in memory together: the sum of their byte lengths is a `usize`.
pub open spec fn reads_fit(reads: Seq<RuleFileRead>) -> bool {
    byte_len(read_text(reads[0])) + byte_len(read_text(reads[1])) + byte_len(read_text(reads[2]))
        <= usize::MAX
}

/// `name` is one of the three rule files, whose changes make the vault reload.
pub fn is_rule_file(name: &str) -> (r: bool)
    ensures
        r == (name@ == "estilo.md"@ || name@ == "evitar.md"@ || name@ == "campos-padrao.md"@),
{
    let n = chars_of(name);
    let a = chars_of("estilo.md");
    let b = chars_of("evitar.md");
    let c = chars_of("campos-padrao.md");
    crate::stats::eq_chars(&n, &a) || crate::stats::eq_chars(&n, &b) || crate::stats::eq_chars(
        &n,
        &c,
    )
}

/// The vault that the prompts are built from: its folder, the content of its
/// three rule files and its status.
pub struct VaultLoader {
    path: Option<String>,
    context: VaultContext,
    status: VaultStatus,
}

impl VaultLoader {
    /// The folder of the vault.
    pub closed spec fn spec_path(&self) -> Option<String> {
        self.path
    }

    /// The loaded rule files.
    pub closed spec fn spec_context(&self) -> VaultContext {
        self.context
    }

    /// The status of the last load.
    pub closed spec fn spec_status(&self) -> VaultStatus {
        self.status
    }

    /// A loader without a vault: no folder, empty rule files, empty status.
    pub fn new() -> (r: VaultLoader)
        ensures
            r.spec_path() is None,
            r.spec_context().estilo@.len() == 0,
            r.spec_context().evitar@.len() == 0,
            r.spec_context().campos_padrao@.len() == 0,
            r.spec_status().path is None,
            r.spec_status().last_loaded_ts is None,
            r.spec_status().files_present@.len() == 0,
            r.spec_status().files_total == 0,
            r.spec_status().total_chars == 0,
            r.spec_status().error is None,
    {
        VaultLoader { path: None, context: VaultContext::empty(), status: VaultStatus::empty() }
    }

    /// The loaded rule files.
    pub fn context(&self) -> (r: &VaultContext)
        ensures
            *r == self.spec_context(),
    {
        &self.context
    }

    /// The status of the last load.
    pub fn status(&self) -> (r: &VaultStatus)
        ensures
            *r == self.spec_status(),
    {
        &self.status
    }

    /// The folder of the vault.
    pub fn path(&self) -> (r: Option<String>)
        ensures
            r matches Some(p) ==> self.spec_path() matches Some(q) && p@ == q@,
            r is None <==> self.spec_path() is None,
    {
        match &self.path {
            Some(p) => Some(p.clone()),
            None => None,
        }
    }

    /// Takes in what reading the rule files of the folder gave (`estilo.md`,
    /// `evitar.md`, `campos-padrao.md`, in this order), read at `ts`. Without
    /// a folder, the context and the status are emptied. Otherwise a file that
    /// was read gives its content and any other an empty one; the status
    /// holds the folder, the time, the files whose content is not blank, the
    /// three files expected, their total size in bytes and the message of the
    /// first failed read.
    pub fn reload(&mut self, reads: &Vec<RuleFileRead>, ts: Option<u64>)
        requires
            reads.len() == 3,
            reads_fit(reads@),
        ensures
            final(self).spec_path() == old(self).spec_path(),
            old(self).spec_path() is None ==> {
                &&& final(self).spec_context().estilo@.len() == 0
                &&& final(self).spec_context().evitar@.len() == 0
                &&& final(self).spec_context().campos_padrao@.len() == 0
                &&& final(self).spec_status().path is None
                &&& final(self).spec_status().last_loaded_ts is None
                &&& final(self).spec_status().files_present@.len() == 0
                &&& final(self).spec_status().files_total == 0
                &&& final(self).spec_status().total_chars == 0
                &&& final(self).spec_status().error is None
            },
            old(self).spec_path() matches Some(p) ==> {
                let ctx = final(self).spec_context();
                let st = final(self).spec_status();
                &&& ctx.estilo@ == read_text(reads@[0])
                &&& ctx.evitar@ == read_text(reads@[1])
                &&& ctx.campos_padrao@ == read_text(reads@[2])
                &&& (st.path matches Some(q) && q@ == p@)
                &&& st.last_loaded_ts == ts
                &&& string_views(st.files_present@) == ctx.spec_files_present()
                &&& st.files_total == 3
                &&& st.total_chars == byte_len(ctx.estilo@) + byte_len(ctx.evitar@) + byte_len(
                    ctx.campos_padrao@,
                )
                &&& match first_error_from(reads@, 0) {
                    Some(e) => (st.error matches Some(m) && m@ == e),
                    None => st.error is None,
                }
            },
    {
        let path = match &self.path {
            Some(p) => p.clone(),
            None => {
                self.status = VaultStatus::empty();
                self.context = VaultContext::empty();
                return;
            },
        };
        let mut texts: Vec<String> = Vec::new();
        let mut first_error: Option<String> = None;
        let mut i: usize = 0;
        while i < 3
            invariant
                i <= 3,
                reads.len() == 3,
                texts@.len() == i,
                forall|j: int| 0 <= j < i ==> (#[trigger] texts@[j])@ == read_text(reads@[j]),
                first_error_from(reads@, 0) == match first_error {
                    Some(m) => Some(m@),
                    None => first_error_from(reads@, i as int),
                },
            decreases 3 - i,
        {
            match &reads[i] {
                RuleFileRead::Read(c) => {
                    texts.push(c.clone());
                    assert(first_error is None ==> first_error_from(reads@, i as int)
                        == first_error_from(reads@, i + 1));
                },
                RuleFileRead::Missing => {
                    texts.push(String::new());
                    assert(first_error is None ==> first_error_from(reads@, i as int)
                        == first_error_from(reads@, i + 1));
                },
                RuleFileRead::Failed(e) => {
                    texts.push(String::new());
                    if first_error.is_none() {
                        let name = if i == 0 {
                            "estilo.md"
                        } else if i == 1 {
                            "evitar.md"
                        } else {
                            "campos-padrao.md"
                        };
                        let mut m = chars_of("erro lendo ");
                        crate::text::extend_str(&mut m, name);
                        crate::text::extend_str(&mut m, ": ");
                        crate::text::extend_str(&mut m, e.as_str());
                        first_error = Some(string_of(&m));
                    }
                },
            }
            i += 1;
        }
        let ctx = VaultContext {
            estilo: texts[0].clone(),
            evitar: texts[1].clone(),
            campos_padrao: texts[2].clone(),
        };
        let files_present = ctx.files_present();
        let total_chars = ctx.total_chars();
        self.status = VaultStatus {
            path: Some(path),
            last_loaded_ts: ts,
            files_present,
            files_total: 3,
            total_chars,
            error: first_error,
        };
        self.context = ctx;
    }

    /// Points the loader to the folder `path` and loads what reading its rule
    /// files gave, as `reload` does.
    pub fn set_path(&mut self, path: String, reads: &Vec<RuleFileRead>, ts: Option<u64>)
        requires
            reads.len() == 3,
            reads_fit(reads@),
        ensures
            final(self).spec_path() matches Some(p) && p@ == path@,
            ({
                let ctx = final(self).spec_context();
                let st = final(self).spec_status();
                &&& ctx.estilo@ == read_text(reads@[0])
                &&& ctx.evitar@ == read_text(reads@[1])
                &&& ctx.campos_padrao@ == read_text(reads@[2])
                &&& (st.path matches Some(q) && q@ == path@)
                &&& st.last_loaded_ts == ts
                &&& string_views(st.files_present@) == ctx.spec_files_present()
                &&& st.files_total == 3
                &&& st.total_chars == byte_len(ctx.estilo@) + byte_len(ctx.evitar@) + byte_len(
                    ctx.campos_padrao@,
                )
                &&& match first_error_from(reads@, 0) {
                    Some(e) => (st.error matches Some(m) && m@ == e),
                    None => st.error is None,
                }
            }),
    {
        self.path = Some(path);
        self.reload(reads, ts);
    }
}


/// The prefix of the line that states the current release.
pub open spec fn release_prefix() -> Seq<char> {
    "- **Release atual:**"@
}

/// A line whose trimmed start does not open with the release prefix.
spec fn not_release_line(line: Seq<char>) -> bool {
    !starts_with(trim_start(line), release_prefix())
}

proof fn lemma_release_line_from(ls: Seq<Seq<char>>, i: int)
    requires
        0 <= i <= ls.len(),
    ensures
        i <= release_line_from(ls, i) <= ls.len(),
        forall|j: int| i <= j < release_line_from(ls, i) ==> not_release_line(#[trigger] ls[j]),
        release_line_from(ls, i) < ls.len() ==> !not_release_line(ls[release_line_from(ls, i)]),
    decreases ls.len() - i,
{
    if i < ls.len() && !starts_with(trim_start(ls[i]), "- **Release atual:**"@) {
        lemma_release_line_from(ls, i + 1);
    }
}

proof fn lemma_no_value(line: Seq<char>)
    requires
        not_release_line(line),
    ensures
        release_line_value(line) is None,
{
}

proof fn lemma_strip_cr_not_release(x: Seq<char>)
    requires
        not_release_line(x),
    ensures
        not_release_line(crate::text::strip_cr(x)),
{
    reveal_strlit("- **Release atual:**");
    if x.len() > 0 && x.last() == '\r' {
        let y = x.drop_last();
        assert(x =~= y.push('\r'));
        if starts_with(trim_start(y), release_prefix()) {
            crate::text::lemma_trim_start_push(y, '\r');
            assert(trim_start(x) == trim_start(y).push('\r'));
            assert(trim_start(x).take(release_prefix().len() as int) =~= trim_start(y).take(
                release_prefix().len() as int,
            ));
        }
    }
}

proof fn lemma_release_from_lines_at(ls: Seq<Seq<char>>, i: int, k: int, v: Seq<char>)
    requires
        0 <= i <= k < ls.len(),
        forall|j: int| i <= j < k ==> release_line_value(#[trigger] ls[j]) is None,
        release_line_value(ls[k]) == Some(v),
    ensures
        release_from_lines(ls, i) == Some(v),
    decreases k - i,
{
    if i < k {
        lemma_release_from_lines_at(ls, i + 1, k, v);
    }
}

/// The value of a release line written by `with_release_line`, whatever its
/// indentation, is the release it was given.
#[verifier::spinoff_prover]
proof fn lemma_new_line_value(w: Seq<char>, v: Seq<char>)
    requires
        forall|i: int| 0 <= i < w.len() ==> is_ws(#[trigger] w[i]),
        forall|i: int| 0 <= i < v.len() ==> #[trigger] v[i] != '`',
    ensures
        release_line_value(w + release_line(v)) == Some(v),
{
    reveal_strlit("- **Release atual:** `");
    reveal_strlit("`");
    reveal_strlit("- **Release atual:**");
    let a = "- **Release atual:** `"@;
    let b = "`"@;
    let nl = release_line(v);
    assert(nl =~= a + v + b);
    crate::text::lemma_trim_start_ws_prefix(w, nl);
    assert(nl[0] == '-');
    assert(trim_start(nl) == nl);
    let t = trim_start(w + nl);
    assert(t == nl);
    let p = "- **Release atual:**"@;
    assert(t.take(p.len() as int) =~= p);
    assert(starts_with(t, p));
    let after = t.skip(p.len() as int);
    let body = seq!['`'] + v + b;
    assert(after =~= seq![' '] + body);
    assert(after[0] == ' ');
    assert(after.drop_first() =~= body);
    assert(trim_start(body) == body);
    assert(trim_start(after) == body);
    assert(body.last() == '`');
    assert(trim_end(body) == body);
    let rest = trim(after);
    assert(rest == body);
    let inner = rest.drop_first();
    assert(inner =~= v + b);
    assert forall|k: int| 0 <= k < v.len() implies (v + b)[k] != '`' by {
        assert((v + b)[k] == v[k]);
    }
    crate::text::lemma_find_char(v + b, '`', v.len() as int);
    assert(inner.take(v.len() as int) =~= v);
}

#[verifier::spinoff_prover]
#[verifier::rlimit(40)]
proof fn lemma_reads_back_replaced(content: Seq<char>, v: Seq<char>)
    requires
        forall|i: int| 0 <= i < v.len() ==> #[trigger] v[i] != '`' && v[i] != '\n',
        release_line_from(lines(content), 0) < lines(content).len(),
    ensures
        release_from_lines(lines(with_release_line(content, v)), 0) == Some(v),
{
    reveal_strlit("- **Release atual:** `");
    reveal_strlit("`");
    reveal_strlit("- **Release atual:**");
    let nlc = seq!['\n'];
    assert(nlc[0] == '\n');
    assert(nlc.contains('\n'));
    let ls = lines(content);
    let k = release_line_from(ls, 0);
    let nl = release_line(v);
    lemma_release_line_from(ls, 0);
    crate::text::lemma_lines_no_nl(content);
    assert(nl =~= "- **Release atual:** `"@ + v + "`"@);
    assert(forall|i: int| 0 <= i < nl.len() ==> #[trigger] nl[i] != '\n');
    assert(nl.last() == '`');
    let out = with_release_line(content, v);
    let line = ls[k];
    crate::text::lemma_trim_start_skip(line);
    let w = indent(line);
    assert forall|i: int| 0 <= i < w.len() implies is_ws(#[trigger] w[i]) by {
        assert(w[i] == line[i]);
    }
    let newl = w + nl;
    lemma_new_line_value(w, v);
    assert(newl.last() == '`');
    assert(crate::text::strip_cr(newl) == newl);
    let big_l = ls.update(k, newl);
    assert forall|i: int, j: int| 0 <= i < big_l.len() && 0 <= j < big_l[i].len() implies #[trigger] big_l[i][j] != '\n' by {
        if i == k {
            if j < w.len() {
                assert(big_l[i][j] == line[j]);
                assert(ls[k][j] != '\n');
            } else {
                assert(big_l[i][j] == nl[j - w.len()]);
            }
        } else {
            assert(big_l[i] == ls[i]);
            assert(ls[i][j] != '\n');
        }
    }
    crate::text::lemma_split_join(big_l, '\n');
    let j = join_lines(big_l);
    let res = lines(out);
    let pushed = out == j.push('\n');
    if pushed {
        crate::text::lemma_split_push_delim(j, '\n', nlc);
        assert(split_any(out, nlc) == big_l.push(Seq::<char>::empty()));
        assert(res =~= big_l.map_values(|p: Seq<char>| crate::text::strip_cr(p)));
    } else {
        assert(out == j);
        assert(split_any(out, nlc) == big_l);
    }
    assert forall|i: int| 0 <= i < k implies release_line_value(#[trigger] res[i]) is None by {
        assert(not_release_line(ls[i]));
        lemma_strip_cr_not_release(ls[i]);
        assert(big_l[i] == ls[i]);
        assert(res[i] == crate::text::strip_cr(big_l[i]));
        lemma_no_value(res[i]);
    }
    if !pushed {
        if k < big_l.len() - 1 {
            assert(res[k] == crate::text::strip_cr(big_l[k]));
        } else {
            assert(res[k] == big_l[k]);
        }
    }
    assert(res[k] == newl);
    lemma_release_from_lines_at(res, 0, k, v);
}

#[verifier::spinoff_prover]
#[verifier::rlimit(40)]
proof fn lemma_reads_back_appended(content: Seq<char>, v: Seq<char>)
    requires
        forall|i: int| 0 <= i < v.len() ==> #[trigger] v[i] != '`' && v[i] != '\n',
        release_line_from(lines(content), 0) >= lines(content).len(),
    ensures
        release_from_lines(lines(with_release_line(content, v)), 0) == Some(v),
{
    reveal_strlit("## Versão atual em produção\n");
    reveal_strlit("## Versão atual em produção");
    reveal_strlit("- **Release atual:** `");
    reveal_strlit("`");
    reveal_strlit("- **Release atual:**");
    let nlc = seq!['\n'];
    assert(nlc[0] == '\n');
    assert(nlc.contains('\n'));
    let ls = lines(content);
    let k = release_line_from(ls, 0);
    let nl = release_line(v);
    lemma_release_line_from(ls, 0);
    crate::text::lemma_lines_no_nl(content);
    assert(nl =~= "- **Release atual:** `"@ + v + "`"@);
    assert(forall|i: int| 0 <= i < nl.len() ==> #[trigger] nl[i] != '\n');
    assert(nl.last() == '`');
    let out = with_release_line(content, v);
    let j = join_lines(ls);
    let s0 = split_any(j, nlc);
    assert forall|i: int| 0 <= i < s0.len() implies not_release_line(#[trigger] s0[i]) by {
        if ls.len() > 0 {
            crate::text::lemma_split_join(ls, '\n');
            assert(s0[i] == ls[i]);
        } else {
            assert(j =~= Seq::<char>::empty());
            assert(s0[i] =~= Seq::<char>::empty());
            assert(trim_start(s0[i]) =~= Seq::<char>::empty());
        }
    }
    let j0 = if content.len() > 0 && content.last() == '\n' && !(j.len() > 0 && j.last()
        == '\n') {
        j.push('\n')
    } else {
        j
    };
    let j1 = if j0.len() > 0 && j0.last() != '\n' {
        j0.push('\n')
    } else {
        j0
    };
    let j2 = if !crate::text::ends_with(j1, seq!['\n', '\n']) && j1.len() > 0 {
        j1.push('\n')
    } else {
        j1
    };
    let empty = Seq::<char>::empty();
    assert(trim_start(empty) =~= empty);
    assert(not_release_line(empty));
    let s1 = split_any(j0, nlc);
    if j0 != j {
        crate::text::lemma_split_push_delim(j, '\n', nlc);
    }
    assert forall|i: int| 0 <= i < s1.len() implies not_release_line(#[trigger] s1[i]) by {
        if j0 != j && i == s0.len() {
            assert(s1[i] == empty);
        } else {
            assert(s1[i] == s0[i]);
        }
    }
    let s2 = split_any(j1, nlc);
    if j1 != j0 {
        crate::text::lemma_split_push_delim(j0, '\n', nlc);
    }
    assert forall|i: int| 0 <= i < s2.len() implies not_release_line(#[trigger] s2[i]) by {
        if j1 != j0 && i == s1.len() {
            assert(s2[i] == empty);
        } else {
            assert(s2[i] == s1[i]);
        }
    }
    let s3 = split_any(j2, nlc);
    if j2 != j1 {
        crate::text::lemma_split_push_delim(j1, '\n', nlc);
    }
    assert forall|i: int| 0 <= i < s3.len() implies not_release_line(#[trigger] s3[i]) by {
        if j2 != j1 && i == s2.len() {
            assert(s3[i] == empty);
        } else {
            assert(s3[i] == s2[i]);
        }
    }
    crate::text::lemma_split_any_len(j2, nlc);
    assert(s3.last() == empty) by {
        if j2.len() == 0 {
            assert(j2 =~= empty);
        } else {
            assert(j2.last() == '\n');
            assert(j2 =~= j2.drop_last().push('\n'));
            crate::text::lemma_split_push_delim(j2.drop_last(), '\n', nlc);
        }
    }
    let hh = "## Versão atual em produção"@;
    assert("## Versão atual em produção\n"@ =~= hh.push('\n'));
    assert(out =~= ((j2 + hh).push('\n') + nl).push('\n'));
    assert forall|i: int| 0 <= i < hh.len() implies !nlc.contains(#[trigger] hh[i]) by {}
    crate::text::lemma_split_extend(j2, hh, nlc);
    let sa = s3.update(s3.len() - 1, s3.last() + hh);
    assert(s3.last() + hh =~= hh);
    assert(split_any(j2 + hh, nlc) == sa);
    crate::text::lemma_split_push_delim(j2 + hh, '\n', nlc);
    assert forall|i: int| 0 <= i < nl.len() implies !nlc.contains(#[trigger] nl[i]) by {}
    crate::text::lemma_split_extend((j2 + hh).push('\n'), nl, nlc);
    assert(empty + nl =~= nl);
    let sb = sa.push(empty).update(sa.len() as int, empty + nl);
    assert(sb =~= sa.push(nl));
    crate::text::lemma_split_push_delim((j2 + hh).push('\n') + nl, '\n', nlc);
    assert(split_any(out, nlc) == sb.push(empty));
    let res = lines(out);
    let m = s3.len() as int;
    assert(res.len() == sb.len());
    assert forall|i: int| 0 <= i < m implies release_line_value(#[trigger] res[i]) is None by {
        assert(res[i] == crate::text::strip_cr(sb[i]));
        if i < m - 1 {
            assert(sb[i] == s3[i]);
            lemma_strip_cr_not_release(s3[i]);
        } else {
            assert(sb[i] == hh);
            assert(hh.last() == 'o');
            assert(crate::text::strip_cr(hh) == hh);
            assert(hh[0] == '#');
            assert(trim_start(hh) == hh);
            assert(hh.take(release_prefix().len() as int)[0] == '#');
        }
        lemma_no_value(res[i]);
    }
    assert(res[m] == crate::text::strip_cr(nl));
    assert(crate::text::strip_cr(nl) == nl);
    lemma_new_line_value(empty, v);
    assert(empty + nl =~= nl);
    lemma_release_from_lines_at(res, 0, m, v);
}

/// After `campos-padrao.md` is pointed to a release, the current release
/// read from the file is that release (for a release written without
/// backticks and line feeds, as the line holds it between backticks).
pub proof fn lemma_release_line_reads_back(content: Seq<char>, v: Seq<char>)
    requires
        forall|i: int| 0 <= i < v.len() ==> #[trigger] v[i] != '`' && v[i] != '\n',
    ensures
        release_from_lines(lines(with_release_line(content, v)), 0) == Some(v),
{
    lemma_release_line_from(lines(content), 0);
    if release_line_from(lines(content), 0) < lines(content).len() {
        lemma_reads_back_replaced(content, v);
    } else {
        lemma_reads_back_appended(content, v);
    }
}

} // verus!
