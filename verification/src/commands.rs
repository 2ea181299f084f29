//! The decisions of the application's commands: the learning statistics of
//! the history, the analysis of `campos-padrao.md`, the gates that ask for
//! enough history before a request to the model, and the answers the
//! interface receives. The commands themselves (windows, files, database,
//! network) run in the application.

use vstd::prelude::*;
use chrono::Datelike;
use crate::deepseek::{EvitarSuggestion, PhraseTemplate};
use crate::stats::{
    eq_chars, extract_paths, extract_release, first_release, is_ranking, latest_index, lex_le,
    lex_le_chars, lemma_lex_total, lemma_lex_trans, normalize_path, normalized, paths_in,
    pick_latest_release, rank_paths, release_versions, string_views, suggestion_views,
    CamposSuggestions, PathSuggestion, Release, ReleaseSuggestion, ReleaseView,
};
use crate::vault::{
    current_release_in_text, existing_paths_in_text, normalized_paths, pair_views,
    release_from_lines, FileEdit,
};
use crate::text::{
    chars_of, copy_range, dec, dec_chars, dec_padded, extend, lines, opt_view, pad_zeros, string_of,
};

verus! {

/// What the statistics read of one history entry: its creation time (Unix
/// seconds), whether it was approved, whether it was edited, its category.
pub type StatsMeta = (i64, bool, bool, Option<String>);

/// What `chrono::DateTime::from_timestamp(secs, 0)` and then `iso_week()`
/// give: the ISO year and week of the UTC instant `secs` seconds after the
/// Unix epoch, or `None` outside the range of chrono's dates.
pub uninterp spec fn iso_week_of(secs: i64) -> Option<(i32, u32)>;

/// Calls `chrono::DateTime::from_timestamp(secs, 0)` and reads the ISO year
/// and week of the instant. Its result is named `iso_week_of(secs)`; the
/// week lies between 1 and 53, as chrono documents.
#[verifier::external_body]
fn iso_week(secs: i64) -> (r: Option<(i32, u32)>)
    ensures
        r == iso_week_of(secs),
        r matches Some(p) ==> 1 <= p.1 <= 53,
{
    match chrono::DateTime::from_timestamp(secs, 0) {
        Some(dt) => Some((dt.iso_week().year(), dt.iso_week().week())),
        None => None,
    }
}

/// An integer in decimal, with a minus sign when negative (`{}`).
pub open spec fn int_text(y: i32) -> Seq<char> {
    if y < 0 {
        seq!['-'] + dec((-(y as int)) as nat)
    } else {
        dec(y as nat)
    }
}

/// The key of an ISO week, `AAAA-Www` (`format!("{}-W{:02}", year, week)`).
pub open spec fn week_key(y: i32, w: u32) -> Seq<char> {
    int_text(y) + "-W"@ + pad_zeros(dec(w as nat), 2)
}

fn week_key_chars(y: i32, w: u32) -> (r: Vec<char>)
    ensures
        r@ == week_key(y, w),
{
    let mut out: Vec<char> = if y < 0 {
        let mut m: Vec<char> = Vec::new();
        m.push('-');
        let n = dec_chars((-(y as i64)) as u64);
        extend(&mut m, &n);
        assert(m@ =~= seq!['-'] + dec((-(y as int)) as nat));
        m
    } else {
        dec_chars(y as u64)
    };
    crate::text::extend_str(&mut out, "-W");
    let d = dec_padded(w as u64, 2);
    extend(&mut out, &d);
    out
}

/// The week an entry counts in: approved entries only, by the ISO week of
/// their creation.
pub open spec fn week_of(m: StatsMeta) -> Option<Seq<char>> {
    if m.1 {
        match iso_week_of(m.0) {
            Some(p) => Some(week_key(p.0, p.1)),
            None => None,
        }
    } else {
        None
    }
}

/// The category an entry counts in: approved entries only, `sem-categoria`
/// when it has none.
pub open spec fn category_of(m: StatsMeta) -> Option<Seq<char>> {
    if m.1 {
        Some(
            match m.3 {
                Some(c) => c@,
                None => "sem-categoria"@,
            },
        )
    } else {
        None
    }
}

/// The week of each entry.
pub open spec fn week_keys(meta: Seq<StatsMeta>) -> Seq<Option<Seq<char>>> {
    meta.map_values(|m: StatsMeta| week_of(m))
}

/// The category of each entry.
pub open spec fn category_keys(meta: Seq<StatsMeta>) -> Seq<Option<Seq<char>>> {
    meta.map_values(|m: StatsMeta| category_of(m))
}

/// Whether each entry was edited.
pub open spec fn edited_flags(meta: Seq<StatsMeta>) -> Seq<bool> {
    meta.map_values(|m: StatsMeta| m.2)
}

/// How many entries have the key `k`.
pub open spec fn key_count(ks: Seq<Option<Seq<char>>>, k: Seq<char>) -> nat
    decreases ks.len(),
{
    if ks.len() == 0 {
        0
    } else {
        key_count(ks.drop_last(), k) + if ks.last() == Some(k) {
            1nat
        } else {
            0nat
        }
    }
}

/// How many entries have the key `k` and were edited (`fl` flags each entry).
pub open spec fn key_edited_count(ks: Seq<Option<Seq<char>>>, fl: Seq<bool>, k: Seq<char>) -> nat
    decreases ks.len(),
{
    if ks.len() == 0 {
        0
    } else {
        key_edited_count(ks.drop_last(), fl, k) + if ks.last() == Some(k) && fl[ks.len() - 1] {
            1nat
        } else {
            0nat
        }
    }
}

/// How many entries were approved.
pub open spec fn approved_count(meta: Seq<StatsMeta>) -> nat
    decreases meta.len(),
{
    if meta.len() == 0 {
        0
    } else {
        approved_count(meta.drop_last()) + if meta.last().1 {
            1nat
        } else {
            0nat
        }
    }
}

/// How many entries were approved after being edited.
pub open spec fn edited_approved_count(meta: Seq<StatsMeta>) -> nat
    decreases meta.len(),
{
    if meta.len() == 0 {
        0
    } else {
        edited_approved_count(meta.drop_last()) + if meta.last().1 && meta.last().2 {
            1nat
        } else {
            0nat
        }
    }
}

/// `a` comes strictly before `b` in the order of `String`.
pub open spec fn lex_lt(a: Seq<char>, b: Seq<char>) -> bool {
    lex_le(a, b) && a != b
}

/// The approved entries of one ISO week, and how many were edited.
#[derive(Clone, Debug)]
pub struct WeekStat {
    pub week: String,
    pub total: usize,
    pub edited: usize,
}

/// The approved entries of one category, and how many were edited.
#[derive(Debug)]
pub struct CategoryStat {
    pub category: String,
    pub total: usize,
    pub edited: usize,
}

/// How the history evolves towards replies approved without edits.
#[derive(Debug)]
pub struct LearningStats {
    pub total: usize,
    pub approved: usize,
    pub discarded: usize,
    pub edited_approved: usize,
    /// The last twelve ISO weeks with approved entries, oldest first.
    pub weeks: Vec<WeekStat>,
    /// The approved entries by category, the most frequent first.
    pub categories: Vec<CategoryStat>,
}

/// The number of weeks the statistics show.
pub const STATS_WEEKS: usize = 12;

struct Bucket {
    key: Vec<char>,
    total: usize,
    edited: usize,
}

/// The bucket counts the entries of its key and is the key of one.
spec fn bucket_ok(ks: Seq<Option<Seq<char>>>, fl: Seq<bool>, b: Bucket) -> bool {
    &&& b.total == key_count(ks, b.key@)
    &&& b.edited == key_edited_count(ks, fl, b.key@)
    &&& ks.contains(Some(b.key@))
}

/// `a` may stand before `b`: by key, or by total (largest first) and then
/// by key.
spec fn bucket_before(a: Bucket, b: Bucket, by_total: bool) -> bool {
    if by_total {
        a.total > b.total || (a.total == b.total && lex_le(a.key@, b.key@))
    } else {
        lex_le(a.key@, b.key@)
    }
}

spec fn buckets_ok(ks: Seq<Option<Seq<char>>>, fl: Seq<bool>, v: Seq<Bucket>, by_total: bool) -> bool {
    &&& forall|t: int| 0 <= t < v.len() ==> bucket_ok(ks, fl, #[trigger] v[t])
    &&& forall|a: int, b: int| 0 <= a < b < v.len() ==> (#[trigger] v[a]).key@ != (#[trigger] v[b]).key@
    &&& forall|a: int, b: int|
        0 <= a < b < v.len() ==> bucket_before(#[trigger] v[a], #[trigger] v[b], by_total)
}

spec fn opt_views(ks: Seq<Option<Vec<char>>>) -> Seq<Option<Seq<char>>> {
    ks.map_values(
        |o: Option<Vec<char>>|
            match o {
                Some(v) => Some(v@),
                None => None,
            },
    )
}

proof fn lemma_key_counts_step(ks: Seq<Option<Seq<char>>>, fl: Seq<bool>, k: Seq<char>, j: int)
    requires
        0 <= j < ks.len(),
    ensures
        key_count(ks.take(j + 1), k) == key_count(ks.take(j), k) + if ks[j] == Some(k) {
            1nat
        } else {
            0nat
        },
        key_edited_count(ks.take(j + 1), fl, k) == key_edited_count(ks.take(j), fl, k) + if ks[j]
            == Some(k) && fl[j] {
            1nat
        } else {
            0nat
        },
{
    assert(ks.take(j + 1).drop_last() =~= ks.take(j));
}

fn count_key(ks: &Vec<Option<Vec<char>>>, fl: &Vec<bool>, k: &Vec<char>) -> (r: (usize, usize))
    requires
        ks.len() == fl.len(),
    ensures
        r.0 == key_count(opt_views(ks@), k@),
        r.1 == key_edited_count(opt_views(ks@), fl@, k@),
{
    let ghost kv = opt_views(ks@);
    let mut total: usize = 0;
    let mut edited: usize = 0;
    let mut j: usize = 0;
    assert(kv.take(0) =~= Seq::<Option<Seq<char>>>::empty());
    while j < ks.len()
        invariant
            kv == opt_views(ks@),
            ks.len() == fl.len(),
            j <= ks.len(),
            total <= j,
            edited <= j,
            total == key_count(kv.take(j as int), k@),
            edited == key_edited_count(kv.take(j as int), fl@, k@),
        decreases ks.len() - j,
    {
        proof {
            lemma_key_counts_step(kv, fl@, k@, j as int);
        }
        match &ks[j] {
            Some(x) => {
                if eq_chars(x, k) {
                    total += 1;
                    if fl[j] {
                        edited += 1;
                    }
                }
            },
            None => {},
        }
        j += 1;
    }
    assert(kv.take(ks.len() as int) =~= kv);
    (total, edited)
}

fn bucket_before_exec(a: &Bucket, b: &Bucket, by_total: bool) -> (r: bool)
    ensures
        r == bucket_before(*a, *b, by_total),
{
    if by_total {
        a.total > b.total || (a.total == b.total && lex_le_chars(&a.key, &b.key))
    } else {
        lex_le_chars(&a.key, &b.key)
    }
}

proof fn lemma_before_total(a: Bucket, b: Bucket, by_total: bool)
    ensures
        bucket_before(a, b, by_total) || bucket_before(b, a, by_total),
{
    lemma_lex_total(a.key@, b.key@);
}

proof fn lemma_before_trans(a: Bucket, b: Bucket, c: Bucket, by_total: bool)
    requires
        bucket_before(a, b, by_total),
        bucket_before(b, c, by_total),
    ensures
        bucket_before(a, c, by_total),
{
    if !by_total || (a.total == b.total && b.total == c.total) {
        lemma_lex_trans(a.key@, b.key@, c.key@);
    }
}

/// Inserts a bucket of a new key at its place.
#[verifier::spinoff_prover]
fn insert_bucket(v: &mut Vec<Bucket>, item: Bucket, by_total: bool, Ghost(ks): Ghost<Seq<Option<Seq<char>>>>, Ghost(fl): Ghost<Seq<bool>>)
    requires
        buckets_ok(ks, fl, old(v)@, by_total),
        bucket_ok(ks, fl, item),
        forall|t: int| 0 <= t < old(v)@.len() ==> (#[trigger] old(v)@[t]).key@ != item.key@,
    ensures
        buckets_ok(ks, fl, final(v)@, by_total),
        final(v)@.len() == old(v)@.len() + 1,
        exists|p: int| 0 <= p < final(v)@.len() && (#[trigger] final(v)@[p]).key@ == item.key@,
        forall|t: int| 0 <= t < old(v)@.len() ==> exists|u: int| 0 <= u < final(v)@.len() && (#[trigger] final(v)@[u]).key@ == (#[trigger] old(v)@[t]).key@,
{
    let mut p: usize = 0;
    while p < v.len() && bucket_before_exec(&v[p], &item, by_total)
        invariant
            p <= v.len(),
            buckets_ok(ks, fl, v@, by_total),
            forall|q: int| 0 <= q < p ==> bucket_before(#[trigger] v@[q], item, by_total),
        decreases v.len() - p,
    {
        p += 1;
    }
    let ghost old_v = v@;
    proof {
        if p < old_v.len() {
            lemma_before_total(old_v[p as int], item, by_total);
            assert forall|q: int| p <= q < old_v.len() implies bucket_before(
                item,
                #[trigger] old_v[q],
                by_total,
            ) by {
                if q > p {
                    lemma_before_trans(item, old_v[p as int], old_v[q], by_total);
                }
            }
        }
    }
    let ghost it = item;
    v.insert(p, item);
    assert forall|t: int| 0 <= t < v.len() implies bucket_ok(ks, fl, #[trigger] v@[t]) by {
        if t < p {
            assert(v@[t] == old_v[t]);
        } else if t > p {
            assert(v@[t] == old_v[t - 1]);
        }
    }
    assert forall|a: int, b: int| 0 <= a < b < v.len() implies (#[trigger] v@[a]).key@ != (
    #[trigger] v@[b]).key@ && bucket_before(v@[a], v@[b], by_total) by {
        let oa = if a < p {
            a
        } else {
            a - 1
        };
        let ob = if b < p {
            b
        } else {
            b - 1
        };
        if a != p {
            assert(v@[a] == old_v[oa]);
        }
        if b != p {
            assert(v@[b] == old_v[ob]);
        }
    }
    assert(v@[p as int] == it);
    assert forall|t: int| 0 <= t < old_v.len() implies exists|u: int| 0 <= u < v@.len() && (#[trigger] v@[u]).key@ == (#[trigger] old_v[t]).key@ by {
        if t < p {
            assert(v@[t] == old_v[t]);
        } else {
            assert(v@[t + 1] == old_v[t]);
        }
    }
}

/// One bucket per distinct key, each counting its entries, in the order
/// `bucket_before`.
#[verifier::spinoff_prover]
fn collect_buckets(ks: &Vec<Option<Vec<char>>>, fl: &Vec<bool>, by_total: bool) -> (r: Vec<Bucket>)
    requires
        ks.len() == fl.len(),
    ensures
        buckets_ok(opt_views(ks@), fl@, r@, by_total),
        forall|k: Seq<char>| opt_views(ks@).contains(Some(k)) ==> exists|t: int| 0 <= t < r@.len() && (#[trigger] r@[t]).key@ == k,
{
    let ghost kv = opt_views(ks@);
    let mut out: Vec<Bucket> = Vec::new();
    let mut i: usize = 0;
    while i < ks.len()
        invariant
            kv == opt_views(ks@),
            ks.len() == fl.len(),
            i <= ks.len(),
            buckets_ok(kv, fl@, out@, by_total),
            forall|j: int| 0 <= j < i ==> (#[trigger] kv[j] matches Some(k) ==> exists|t: int| 0 <= t < out@.len() && (#[trigger] out@[t]).key@ == k),
        decreases ks.len() - i,
    {
        match &ks[i] {
            Some(k) => {
                let mut found = false;
                let mut t: usize = 0;
                while t < out.len() && !found
                    invariant
                        t <= out.len(),
                        !found ==> forall|q: int| 0 <= q < t ==> (#[trigger] out@[q]).key@ != k@,
                        found ==> t < out.len() && out@[t as int].key@ == k@,
                    decreases out.len() - t, (if found { 0int } else { 1int }),
                {
                    if eq_chars(&out[t].key, k) {
                        found = true;
                    } else {
                        t += 1;
                    }
                }
                if !found {
                    let (total, edited) = count_key(ks, fl, k);
                    let key = copy_range(k, 0, k.len());
                    assert(key@ =~= k@);
                    assert(kv[i as int] == Some(k@));
                    let ghost prev = out@;
                    insert_bucket(&mut out, Bucket { key, total, edited }, by_total, Ghost(kv), Ghost(fl@));
                    assert forall|j: int| 0 <= j <= i implies (#[trigger] kv[j] matches Some(kk) ==> exists|t: int| 0 <= t < out@.len() && (#[trigger] out@[t]).key@ == kk) by {
                        if j < i {
                            if let Some(kk) = kv[j] {
                                let t0 = choose|t0: int| 0 <= t0 < prev.len() && (#[trigger] prev[t0]).key@ == kk;
                                assert(prev[t0].key@ == kk);
                            }
                        }
                    }
                }
            },
            None => {},
        }
        i += 1;
    }
    assert forall|k: Seq<char>| kv.contains(Some(k)) implies exists|t: int| 0 <= t < out@.len() && (#[trigger] out@[t]).key@ == k by {
        let j = choose|j: int| 0 <= j < kv.len() && kv[j] == Some(k);
        assert(kv[j] matches Some(kk) && kk == k);
    }
    out
}


/// The weeks of the statistics: at most twelve, in increasing order of
/// their keys, each counting its approved entries and those edited; every
/// week with approved entries is among them unless twelve later weeks are.
pub open spec fn weeks_ok(meta: Seq<StatsMeta>, ws: Seq<WeekStat>) -> bool {
    let ks = week_keys(meta);
    let fl = edited_flags(meta);
    &&& ws.len() <= STATS_WEEKS
    &&& forall|i: int|
        0 <= i < ws.len() ==> (#[trigger] ws[i]).total == key_count(ks, ws[i].week@)
            && ws[i].edited == key_edited_count(ks, fl, ws[i].week@) && ks.contains(
            Some(ws[i].week@),
        )
    &&& forall|a: int, b: int|
        0 <= a < b < ws.len() ==> lex_lt((#[trigger] ws[a]).week@, (#[trigger] ws[b]).week@)
    &&& forall|k: Seq<char>|
        ks.contains(Some(k)) ==> (exists|i: int| 0 <= i < ws.len() && (#[trigger] ws[i]).week@ == k)
            || (ws.len() == STATS_WEEKS && forall|i: int|
            0 <= i < ws.len() ==> lex_lt(k, (#[trigger] ws[i]).week@))
}

/// The categories of the statistics: one per category of approved entries,
/// each counting them and those edited, the largest first and then in the
/// order of their names.
pub open spec fn categories_ok(meta: Seq<StatsMeta>, cs: Seq<CategoryStat>) -> bool {
    let ks = category_keys(meta);
    let fl = edited_flags(meta);
    &&& forall|i: int|
        0 <= i < cs.len() ==> (#[trigger] cs[i]).total == key_count(ks, cs[i].category@)
            && cs[i].edited == key_edited_count(ks, fl, cs[i].category@) && ks.contains(
            Some(cs[i].category@),
        )
    &&& forall|a: int, b: int|
        0 <= a < b < cs.len() ==> (#[trigger] cs[a]).category@ != (#[trigger] cs[b]).category@ && (
        cs[a].total > cs[b].total || (cs[a].total == cs[b].total && lex_le(
            cs[a].category@,
            cs[b].category@,
        )))
    &&& forall|k: Seq<char>|
        ks.contains(Some(k)) ==> exists|i: int|
            0 <= i < cs.len() && (#[trigger] cs[i]).category@ == k
}

/// Aggregates the history into the measures of its evolution: the counts
/// of entries, approved, discarded and approved after edits; the approved
/// entries of the last twelve ISO weeks that have some, oldest first; and
/// the approved entries by category, the largest first, ties by name.
/// Discarded entries count only in the totals.
#[verifier::spinoff_prover]
pub fn learning_stats(meta: &[StatsMeta]) -> (r: LearningStats)
    ensures
        r.total == meta.len(),
        r.approved == approved_count(meta@),
        r.discarded == meta.len() - approved_count(meta@),
        r.edited_approved == edited_approved_count(meta@),
        weeks_ok(meta@, r.weeks@),
        categories_ok(meta@, r.categories@),
{
    let mut approved: usize = 0;
    let mut edited_approved: usize = 0;
    let mut wk: Vec<Option<Vec<char>>> = Vec::new();
    let mut ck: Vec<Option<Vec<char>>> = Vec::new();
    let mut fl: Vec<bool> = Vec::new();
    let mut i: usize = 0;
    assert(meta@.take(0) =~= Seq::<StatsMeta>::empty());
    while i < meta.len()
        invariant
            i <= meta.len(),
            approved <= i,
            edited_approved <= i,
            approved == approved_count(meta@.take(i as int)),
            edited_approved == edited_approved_count(meta@.take(i as int)),
            opt_views(wk@) =~= week_keys(meta@).take(i as int),
            opt_views(ck@) =~= category_keys(meta@).take(i as int),
            fl@ =~= edited_flags(meta@).take(i as int),
        decreases meta.len() - i,
    {
        assert(meta@.take(i + 1).drop_last() =~= meta@.take(i as int));
        let m = &meta[i];
        if m.1 {
            approved += 1;
            if m.2 {
                edited_approved += 1;
            }
            let w = match iso_week(m.0) {
                Some(p) => Some(week_key_chars(p.0, p.1)),
                None => None,
            };
            let ghost wv: Option<Seq<char>> = opt_views(seq![w])[0];
            assert(wv == week_of(meta@[i as int]));
            let ghost before = wk@;
            wk.push(w);
            assert(opt_views(wk@) =~= opt_views(before).push(wv));
            let c = match &m.3 {
                Some(c) => chars_of(c.as_str()),
                None => chars_of("sem-categoria"),
            };
            assert(Some(c@) == category_of(meta@[i as int]));
            let ghost cbefore = ck@;
            ck.push(Some(c));
            assert(opt_views(ck@) =~= opt_views(cbefore).push(category_of(meta@[i as int])));
        } else {
            let ghost before = wk@;
            wk.push(None);
            assert(opt_views(wk@) =~= opt_views(before).push(None));
            let ghost cbefore = ck@;
            ck.push(None);
            assert(opt_views(ck@) =~= opt_views(cbefore).push(None));
        }
        fl.push(m.2);
        assert(week_keys(meta@).take(i + 1) =~= week_keys(meta@).take(i as int).push(
            week_of(meta@[i as int]),
        ));
        assert(category_keys(meta@).take(i + 1) =~= category_keys(meta@).take(i as int).push(
            category_of(meta@[i as int]),
        ));
        i += 1;
    }
    assert(meta@.take(meta.len() as int) =~= meta@);
    let ghost wks = week_keys(meta@);
    let ghost cks = category_keys(meta@);
    let ghost fls = edited_flags(meta@);
    assert(opt_views(wk@) == wks);
    assert(opt_views(ck@) == cks);
    assert(fl@ == fls);
    let mut all_weeks = collect_buckets(&wk, &fl, false);
    let n = all_weeks.len();
    let ghost full = all_weeks@;
    let last = if n > STATS_WEEKS {
        all_weeks.split_off(n - STATS_WEEKS)
    } else {
        all_weeks
    };
    let ghost off: int = if n > STATS_WEEKS { n - STATS_WEEKS } else { 0 };
    assert(last@ =~= full.subrange(off, n as int));
    let mut weeks: Vec<WeekStat> = Vec::new();
    let mut j: usize = 0;
    while j < last.len()
        invariant
            j <= last.len(),
            weeks@.len() == j,
            forall|t: int|
                0 <= t < j ==> (#[trigger] weeks@[t]).week@ == last@[t].key@ && weeks@[t].total
                    == last@[t].total && weeks@[t].edited == last@[t].edited,
        decreases last.len() - j,
    {
        weeks.push(
            WeekStat { week: string_of(&last[j].key), total: last[j].total, edited: last[j].edited },
        );
        j += 1;
    }
    proof {
        assert forall|a: int, b: int| 0 <= a < b < weeks@.len() implies lex_lt(
            (#[trigger] weeks@[a]).week@,
            (#[trigger] weeks@[b]).week@,
        ) by {
            assert(last@[a] == full[a + off]);
            assert(last@[b] == full[b + off]);
        }
        assert forall|t: int| 0 <= t < weeks@.len() implies (#[trigger] weeks@[t]).total
            == key_count(wks, weeks@[t].week@) && weeks@[t].edited == key_edited_count(
            wks,
            fls,
            weeks@[t].week@,
        ) && wks.contains(Some(weeks@[t].week@)) by {
            assert(last@[t] == full[t + off]);
        }
        assert forall|k: Seq<char>| wks.contains(Some(k)) implies (exists|i: int|
            0 <= i < weeks@.len() && (#[trigger] weeks@[i]).week@ == k) || (weeks@.len()
            == STATS_WEEKS && forall|i: int|
            0 <= i < weeks@.len() ==> lex_lt(k, (#[trigger] weeks@[i]).week@)) by {
            let t = choose|t: int| 0 <= t < full.len() && (#[trigger] full[t]).key@ == k;
            if t >= off {
                assert(last@[t - off] == full[t]);
                assert(weeks@[t - off].week@ == k);
            } else {
                assert forall|i: int| 0 <= i < weeks@.len() implies lex_lt(
                    k,
                    (#[trigger] weeks@[i]).week@,
                ) by {
                    assert(last@[i] == full[i + off]);
                }
            }
        }
    }
    let cats = collect_buckets(&ck, &fl, true);
    let mut categories: Vec<CategoryStat> = Vec::new();
    let mut j: usize = 0;
    while j < cats.len()
        invariant
            j <= cats.len(),
            categories@.len() == j,
            forall|t: int|
                0 <= t < j ==> (#[trigger] categories@[t]).category@ == cats@[t].key@
                    && categories@[t].total == cats@[t].total && categories@[t].edited
                    == cats@[t].edited,
        decreases cats.len() - j,
    {
        categories.push(
            CategoryStat {
                category: string_of(&cats[j].key),
                total: cats[j].total,
                edited: cats[j].edited,
            },
        );
        j += 1;
    }
    proof {
        assert forall|k: Seq<char>| cks.contains(Some(k)) implies exists|i: int|
            0 <= i < categories@.len() && (#[trigger] categories@[i]).category@ == k by {
            let t = choose|t: int| 0 <= t < cats@.len() && (#[trigger] cats@[t]).key@ == k;
            assert(categories@[t].category@ == k);
        }
    }
    LearningStats {
        total: meta.len(),
        approved,
        discarded: meta.len() - approved,
        edited_approved,
        weeks,
        categories,
    }
}

/// How many approved replies the analysis of `campos-padrao.md` reads.
pub const ANALYZE_CAMPOS_LIMIT: usize = 100;
/// How many approved replies the analysis of `campos-padrao.md` needs.
pub const ANALYZE_CAMPOS_MIN: usize = 5;
/// How many times a path must be written to be proposed.
pub const PATHS_MIN_OCCURRENCES: u32 = 2;
/// How many paths are proposed at most.
pub const PATHS_TOP_N: usize = 10;
/// How many edited replies the analysis of edits reads.
pub const ANALYZE_EDITS_LIMIT: usize = 20;
/// How many edited replies the analysis of edits needs.
pub const ANALYZE_EDITS_MIN: usize = 2;
/// How many approved replies the search for phrase templates reads.
pub const ANALYZE_PHRASES_LIMIT: usize = 80;
/// How many approved replies the search for phrase templates needs.
pub const ANALYZE_PHRASES_MIN: usize = 5;
/// How many replies approved without edits the style synthesis reads.
pub const SYNTHESIZE_STYLE_LIMIT: usize = 50;
/// How many replies approved without edits the style synthesis needs.
pub const SYNTHESIZE_STYLE_MIN: usize = 5;

/// Why a command refused to go on.
#[derive(Clone, Copy, Debug, PartialEq, Eq, Structural)]
pub enum CommandError {
    /// Fewer approved replies than the analysis needs.
    TooFewApproved { have: usize, need: usize },
    /// Fewer edited approved replies than the analysis of edits needs.
    TooFewEdited { have: usize },
    /// Fewer replies approved without edits than the synthesis needs.
    TooFewUnedited { have: usize, need: usize },
    /// No suggestion was selected.
    NoSuggestionSelected,
    /// No phrase template was selected.
    NoTemplateSelected,
}

/// The message shown for a refusal.
pub open spec fn command_error_text(e: CommandError) -> Seq<char> {
    match e {
        CommandError::TooFewApproved { have, need } => "Apenas "@ + dec(have as nat)
            + " aprovada(s) disponível(eis). Aprove ao menos "@ + dec(need as nat)
            + " devolutivas para gerar sugestões."@,
        CommandError::TooFewEdited { have } => "Apenas "@ + dec(have as nat)
            + " edição(ões) aprovada(s) disponível(eis). Edite e aprove mais devolutivas para gerar sugestões úteis."@,
        CommandError::TooFewUnedited { have, need } => "Apenas "@ + dec(have as nat)
            + " aprovada(s) sem edição disponível(eis). Aprove ao menos "@ + dec(need as nat)
            + " devolutivas SEM editar para sintetizar."@,
        CommandError::NoSuggestionSelected => "Nenhuma sugestão selecionada."@,
        CommandError::NoTemplateSelected => "Nenhuma frase-modelo selecionada."@,
    }
}

impl CommandError {
    /// The message shown for the refusal.
    pub fn message(&self) -> (r: String)
        ensures
            r@ == command_error_text(*self),
    {
        match *self {
            CommandError::TooFewApproved { have, need } => {
                let mut m = chars_of("Apenas ");
                extend(&mut m, &dec_chars(have as u64));
                crate::text::extend_str(&mut m, " aprovada(s) disponível(eis). Aprove ao menos ");
                extend(&mut m, &dec_chars(need as u64));
                crate::text::extend_str(&mut m, " devolutivas para gerar sugestões.");
                string_of(&m)
            },
            CommandError::TooFewEdited { have } => {
                let mut m = chars_of("Apenas ");
                extend(&mut m, &dec_chars(have as u64));
                crate::text::extend_str(
                    &mut m,
                    " edição(ões) aprovada(s) disponível(eis). Edite e aprove mais devolutivas para gerar sugestões úteis.",
                );
                string_of(&m)
            },
            CommandError::TooFewUnedited { have, need } => {
                let mut m = chars_of("Apenas ");
                extend(&mut m, &dec_chars(have as u64));
                crate::text::extend_str(&mut m, " aprovada(s) sem edição disponível(eis). Aprove ao menos ");
                extend(&mut m, &dec_chars(need as u64));
                crate::text::extend_str(&mut m, " devolutivas SEM editar para sintetizar.");
                string_of(&m)
            },
            CommandError::NoSuggestionSelected => String::from_str("Nenhuma sugestão selecionada."),
            CommandError::NoTemplateSelected => String::from_str("Nenhuma frase-modelo selecionada."),
        }
    }
}

/// The releases written in the replies, the first of each reply that has
/// one, in order.
pub open spec fn releases_in(raws: Seq<Seq<char>>) -> Seq<ReleaseView>
    decreases raws.len(),
{
    if raws.len() == 0 {
        Seq::<ReleaseView>::empty()
    } else {
        releases_in(raws.drop_last()) + match first_release(raws.last()) {
            Some(r) => seq![r],
            None => Seq::<ReleaseView>::empty(),
        }
    }
}

/// The text of the release with the highest version (the last of equals).
pub open spec fn latest_release(rs: Seq<ReleaseView>) -> Option<Seq<char>> {
    if rs.len() == 0 {
        None
    } else {
        Some(rs[latest_index(rs.map_values(|r: ReleaseView| r.1))].0)
    }
}

/// Every path written in the replies, in order.
pub open spec fn all_paths(raws: Seq<Seq<char>>) -> Seq<Seq<char>>
    decreases raws.len(),
{
    if raws.len() == 0 {
        Seq::<Seq<char>>::empty()
    } else {
        all_paths(raws.drop_last()) + paths_in(raws.last())
    }
}

/// The ranked paths whose normalized form is not in `existing`, in order.
pub open spec fn new_paths(r: Seq<(Seq<char>, u32)>, existing: Set<Seq<char>>) -> Seq<
    (Seq<char>, u32),
>
    decreases r.len(),
{
    if r.len() == 0 {
        r
    } else if existing.contains(normalized(r.last().0)) {
        new_paths(r.drop_last(), existing)
    } else {
        new_paths(r.drop_last(), existing).push(r.last())
    }
}

/// The first `n` items (all of them when there are fewer).
pub open spec fn first_n<A>(s: Seq<A>, n: nat) -> Seq<A> {
    if s.len() <= n {
        s
    } else {
        s.take(n as int)
    }
}

/// The release proposed for a file that states `current`, from the latest
/// release of the replies: none when there is none or when it is the
/// current one.
pub open spec fn proposed_release(latest: Option<Seq<char>>, current: Option<Seq<char>>) -> Option<
    (Seq<char>, Option<Seq<char>>),
> {
    match latest {
        None => None,
        Some(p) => if current == Some(p) {
            None
        } else {
            Some((p, current))
        },
    }
}

/// Once `campos-padrao.md` states a release (written without backticks and
/// line feeds), the analysis no longer proposes that same release.
pub proof fn lemma_applied_release_not_proposed_again(content: Seq<char>, v: Seq<char>)
    requires
        forall|i: int| 0 <= i < v.len() ==> #[trigger] v[i] != '`' && v[i] != '\n',
    ensures
        proposed_release(
            Some(v),
            release_from_lines(lines(crate::vault::with_release_line(content, v)), 0),
        ) is None,
{
    crate::vault::lemma_release_line_reads_back(content, v);
}

/// A release suggestion as texts.
pub open spec fn release_suggestion_view(o: Option<ReleaseSuggestion>) -> Option<
    (Seq<char>, Option<Seq<char>>),
> {
    match o {
        Some(s) => Some(
            (
                s.proposed@,
                match s.current_in_file {
                    Some(c) => Some(c@),
                    None => None,
                },
            ),
        ),
        None => None,
    }
}

spec fn release_views(rs: Seq<Release>) -> Seq<ReleaseView> {
    rs.map_values(|r: Release| (r.0@, r.1, r.2))
}

/// Reads the approved replies `raw_inputs` (the most recent first) and the
/// current `campos-padrao.md`, without any model: proposes the latest
/// release written in the replies unless the file states it already, and
/// the ten most written paths (twice or more) that the file does not hold
/// yet. Refused below five replies.
#[verifier::spinoff_prover]
pub fn analyze_campos(raw_inputs: &[String], campos_text: &str) -> (r: Result<
    CamposSuggestions,
    CommandError,
>)
    requires
        all_paths(string_views(raw_inputs@)).len() <= u32::MAX,
    ensures
        r is Err <==> raw_inputs.len() < ANALYZE_CAMPOS_MIN,
        r matches Err(e) ==> e == (CommandError::TooFewApproved {
            have: raw_inputs.len(),
            need: ANALYZE_CAMPOS_MIN,
        }),
        r matches Ok(s) ==> {
            let raws = string_views(raw_inputs@);
            let current = release_from_lines(lines(campos_text@), 0);
            &&& s.analyzed_count == raw_inputs.len()
            &&& release_suggestion_view(s.release) == proposed_release(
                latest_release(releases_in(raws)),
                current,
            )
            &&& exists|ranked: Seq<(Seq<char>, u32)>|
                is_ranking(all_paths(raws), PATHS_MIN_OCCURRENCES, ranked) && suggestion_views(
                    s.paths@,
                ) == first_n(
                    #[trigger] new_paths(
                        ranked,
                        normalized_paths(paths_in(campos_text@)).to_set(),
                    ),
                    PATHS_TOP_N as nat,
                )
        },
{
    if raw_inputs.len() < ANALYZE_CAMPOS_MIN {
        return Err(CommandError::TooFewApproved { have: raw_inputs.len(), need: ANALYZE_CAMPOS_MIN });
    }
    let ghost raws = string_views(raw_inputs@);
    let current = current_release_in_text(campos_text);
    let existing = existing_paths_in_text(campos_text);
    let mut releases: Vec<Release> = Vec::new();
    let mut paths: Vec<String> = Vec::new();
    let mut i: usize = 0;
    assert(raws.take(0) =~= Seq::<Seq<char>>::empty());
    while i < raw_inputs.len()
        invariant
            i <= raw_inputs.len(),
            raws == string_views(raw_inputs@),
            release_views(releases@) == releases_in(raws.take(i as int)),
            string_views(paths@) == all_paths(raws.take(i as int)),
        decreases raw_inputs.len() - i,
    {
        assert(raws.take(i + 1).drop_last() =~= raws.take(i as int));
        let text = raw_inputs[i].as_str();
        let ghost rb = releases@;
        match extract_release(text) {
            Some(rel) => {
                let ghost rv: ReleaseView = (rel.0@, rel.1, rel.2);
                releases.push(rel);
                assert(release_views(releases@) =~= release_views(rb) + seq![rv]);
            },
            None => {
                assert(release_views(releases@) =~= release_views(rb) + Seq::<ReleaseView>::empty());
            },
        }
        let mut found = extract_paths(text);
        let ghost pb = paths@;
        let ghost fv = found@;
        paths.append(&mut found);
        assert(string_views(paths@) =~= string_views(pb) + string_views(fv));
        i += 1;
    }
    assert(raws.take(raw_inputs.len() as int) =~= raws);
    let latest = pick_latest_release(releases.as_slice());
    proof {
        assert(release_versions(releases@) =~= releases_in(raws).map_values(|r: ReleaseView| r.1));
    }
    let release = match latest {
        None => None,
        Some(p) => {
            let same = match &current {
                Some(c) => eq_chars(&chars_of(c.as_str()), &chars_of(p.as_str())),
                None => false,
            };
            if same {
                None
            } else {
                let cur = match &current {
                    Some(c) => Some(c.clone()),
                    None => None,
                };
                Some(ReleaseSuggestion { proposed: p, current_in_file: cur })
            }
        },
    };
    let ranked = rank_paths(paths.as_slice(), PATHS_MIN_OCCURRENCES);
    let ghost rv = suggestion_views(ranked@);
    let ghost ex = normalized_paths(paths_in(campos_text@)).to_set();
    let mut out: Vec<PathSuggestion> = Vec::new();
    let mut j: usize = 0;
    assert(rv.take(0) =~= Seq::<(Seq<char>, u32)>::empty());
    while j < ranked.len()
        invariant
            j <= ranked.len(),
            rv == suggestion_views(ranked@),
            existing.view() == ex,
            out@.len() <= PATHS_TOP_N,
            suggestion_views(out@) =~= first_n(new_paths(rv.take(j as int), ex), PATHS_TOP_N as nat),
        decreases ranked.len() - j,
    {
        assert(rv.take(j + 1).drop_last() =~= rv.take(j as int));
        let np = normalize_path(ranked[j].path.as_str());
        if !existing.contains(np.as_str()) {
            if out.len() < PATHS_TOP_N {
                let ghost ob = out@;
                out.push(
                    PathSuggestion {
                        path: ranked[j].path.clone(),
                        occurrences: ranked[j].occurrences,
                    },
                );
                assert(suggestion_views(out@) =~= suggestion_views(ob).push(rv[j as int]));
            }
        }
        j += 1;
    }
    assert(rv.take(ranked.len() as int) =~= rv);
    assert(string_views(paths@) == all_paths(raws));
    assert(is_ranking(all_paths(raws), PATHS_MIN_OCCURRENCES, rv));
    assert(suggestion_views(out@) == first_n(new_paths(rv, ex), PATHS_TOP_N as nat));
    proof {
        let rs = releases_in(raws);
        if releases@.len() > 0 {
            let k = latest_index(release_versions(releases@));
            crate::stats::lemma_latest_index(release_versions(releases@));
            assert(latest_release(rs) == Some(rs[k].0));
            assert(rs[k].0 == releases@[k].0@);
            assert(latest matches Some(t) && t@ == rs[k].0);
        } else {
            assert(latest is None);
            assert(latest_release(rs) is None);
        }
    }
    assert(release_suggestion_view(release) == proposed_release(
        latest_release(releases_in(raws)),
        release_from_lines(lines(campos_text@), 0),
    ));
    Ok(CamposSuggestions { release, paths: out, analyzed_count: raw_inputs.len() })
}

/// The prompt of the analysis of edits, from the pairs `(generated reply,
/// approved reply)` of the edited approved replies; refused below two.
pub fn edits_analysis_prompt(pairs: &[(String, String)]) -> (r: Result<String, CommandError>)
    ensures
        r is Err <==> pairs.len() < ANALYZE_EDITS_MIN,
        r matches Err(e) ==> e == (CommandError::TooFewEdited { have: pairs.len() }),
        r matches Ok(p) ==> p@ == crate::deepseek::analyze_edits_prompt_text(pair_views(pairs@)),
{
    if pairs.len() < ANALYZE_EDITS_MIN {
        return Err(CommandError::TooFewEdited { have: pairs.len() });
    }
    match crate::deepseek::analyze_edits_prompt(pairs) {
        Some(p) => Ok(p),
        None => Err(CommandError::TooFewEdited { have: pairs.len() }),
    }
}

/// The prompt of the search for phrase templates, from the approved replies
/// and the current `campos-padrao.md`; refused below five replies.
pub fn phrase_analysis_prompt(samples: &[String], current_campos_md: &str) -> (r: Result<
    String,
    CommandError,
>)
    ensures
        r is Err <==> samples.len() < ANALYZE_PHRASES_MIN,
        r matches Err(e) ==> e == (CommandError::TooFewApproved {
            have: samples.len(),
            need: ANALYZE_PHRASES_MIN,
        }),
        r matches Ok(p) ==> p@ == crate::deepseek::phrase_templates_prompt_text(
            string_views(samples@),
            current_campos_md@,
        ),
{
    if samples.len() < ANALYZE_PHRASES_MIN {
        return Err(CommandError::TooFewApproved { have: samples.len(), need: ANALYZE_PHRASES_MIN });
    }
    match crate::deepseek::phrase_templates_prompt(samples, current_campos_md) {
        Some(p) => Ok(p),
        None => Err(CommandError::TooFewApproved { have: samples.len(), need: ANALYZE_PHRASES_MIN }),
    }
}

/// The prompt of the style synthesis, from the current `estilo.md` and the
/// pairs `(raw input, reply approved without edits)`; refused below five.
pub fn style_synthesis_prompt(current_style: &str, samples: &[(String, String)]) -> (r: Result<
    String,
    CommandError,
>)
    ensures
        r is Err <==> samples.len() < SYNTHESIZE_STYLE_MIN,
        r matches Err(e) ==> e == (CommandError::TooFewUnedited {
            have: samples.len(),
            need: SYNTHESIZE_STYLE_MIN,
        }),
        r matches Ok(p) ==> p@ == crate::deepseek::style_prompt_text(
            current_style@,
            pair_views(samples@),
        ),
{
    if samples.len() < SYNTHESIZE_STYLE_MIN {
        return Err(CommandError::TooFewUnedited { have: samples.len(), need: SYNTHESIZE_STYLE_MIN });
    }
    match crate::deepseek::style_prompt(current_style, samples) {
        Ok(p) => Ok(p),
        Err(_) => Err(CommandError::TooFewUnedited { have: samples.len(), need: SYNTHESIZE_STYLE_MIN }),
    }
}

/// The pairs `(expression, reason)` of the accepted suggestions.
pub open spec fn evitar_pairs(s: Seq<EvitarSuggestion>) -> Seq<(Seq<char>, Seq<char>)> {
    s.map_values(|x: EvitarSuggestion| (x.expression@, x.reason@))
}

/// The pairs `(situation, template)` of the accepted templates.
pub open spec fn template_pairs(s: Seq<PhraseTemplate>) -> Seq<(Seq<char>, Seq<char>)> {
    s.map_values(|x: PhraseTemplate| (x.situation@, x.template@))
}

/// `evitar.md` (current content `existing`) with the accepted suggestions
/// added under a dated marker; refused when none was selected.
pub fn apply_evitar_suggestions(existing: &str, suggestions: &[EvitarSuggestion]) -> (r: Result<
    String,
    CommandError,
>)
    ensures
        r is Err <==> suggestions.len() == 0,
        r matches Err(e) ==> e == CommandError::NoSuggestionSelected,
        r matches Ok(c) ==> exists|date: Seq<char>|
            crate::vault::is_date_label(date) && c@ == crate::vault::with_block(
                existing@,
                crate::vault::evitar_header(),
                #[trigger] crate::vault::evitar_block(evitar_pairs(suggestions@), date),
            ),
{
    if suggestions.len() == 0 {
        return Err(CommandError::NoSuggestionSelected);
    }
    let mut pairs: Vec<(String, String)> = Vec::new();
    let mut i: usize = 0;
    while i < suggestions.len()
        invariant
            i <= suggestions.len(),
            pair_views(pairs@) =~= evitar_pairs(suggestions@).take(i as int),
        decreases suggestions.len() - i,
    {
        let ghost prev = pairs@;
        let e = suggestions[i].expression.clone();
        let why = suggestions[i].reason.clone();
        pairs.push((e, why));
        assert(pair_views(pairs@) =~= pair_views(prev).push(evitar_pairs(suggestions@)[i as int]));
        i += 1;
    }
    assert(evitar_pairs(suggestions@).take(suggestions.len() as int) =~= evitar_pairs(
        suggestions@,
    ));
    Ok(crate::vault::append_to_evitar(existing, &pairs))
}

/// `campos-padrao.md` (current content `original`) with the accepted phrase
/// templates added, and its backup; refused when none was selected.
pub fn apply_phrase_templates(original: &str, templates: &[PhraseTemplate]) -> (r: Result<
    FileEdit,
    CommandError,
>)
    ensures
        r is Err <==> templates.len() == 0,
        r matches Err(e) ==> e == CommandError::NoTemplateSelected,
        r matches Ok(edit) ==> {
            &&& (original@.len() > 0 ==> (edit.backup matches Some(b) && b@ == original@))
            &&& (original@.len() == 0 ==> edit.backup is None)
            &&& exists|date: Seq<char>|
                crate::vault::is_date_label(date) && edit.content@ == crate::vault::with_phrases(
                    original@,
                    #[trigger] crate::vault::phrases_block(template_pairs(templates@), date),
                )
        },
{
    if templates.len() == 0 {
        return Err(CommandError::NoTemplateSelected);
    }
    let mut pairs: Vec<(String, String)> = Vec::new();
    let mut i: usize = 0;
    while i < templates.len()
        invariant
            i <= templates.len(),
            pair_views(pairs@) =~= template_pairs(templates@).take(i as int),
        decreases templates.len() - i,
    {
        let ghost prev = pairs@;
        let a = templates[i].situation.clone();
        let b = templates[i].template.clone();
        pairs.push((a, b));
        assert(pair_views(pairs@) =~= pair_views(prev).push(template_pairs(templates@)[i as int]));
        i += 1;
    }
    assert(template_pairs(templates@).take(templates.len() as int) =~= template_pairs(templates@));
    match crate::vault::append_phrase_templates(original, &pairs) {
        Ok(edit) => Ok(edit),
        Err(_) => Err(CommandError::NoTemplateSelected),
    }
}

/// `campos-padrao.md` (current content `original`) with the accepted release
/// and paths, and its backup; refused when nothing was selected.
pub fn apply_campos_suggestions(
    original: &str,
    release_accepted: Option<&str>,
    paths_accepted: &Vec<String>,
) -> (r: Result<FileEdit, CommandError>)
    ensures
        r is Err <==> (release_accepted is None && paths_accepted.len() == 0),
        r matches Err(e) ==> e == CommandError::NoSuggestionSelected,
        r matches Ok(edit) ==> {
            &&& (original@.len() > 0 ==> (edit.backup matches Some(b) && b@ == original@))
            &&& (original@.len() == 0 ==> edit.backup is None)
            &&& exists|date: Seq<char>|
                (paths_accepted@.len() > 0 ==> crate::vault::is_date_label(date))
                    && edit.content@ == #[trigger] crate::vault::campos_with_changes(
                    original@,
                    opt_view(release_accepted),
                    string_views(paths_accepted@),
                    date,
                )
        },
{
    if release_accepted.is_none() && paths_accepted.len() == 0 {
        return Err(CommandError::NoSuggestionSelected);
    }
    match crate::vault::apply_campos_changes(original, release_accepted, paths_accepted) {
        Ok(edit) => Ok(edit),
        Err(_) => Err(CommandError::NoSuggestionSelected),
    }
}

/// What the interface learns of an approval: the entry's id, its category
/// and the examples file it was added to, if any.
#[derive(Clone, Debug)]
pub struct ApprovalResult {
    pub id: i64,
    pub category: String,
    pub examples_file: Option<String>,
}

/// What a check for updates found.
#[derive(Clone, Debug)]
pub struct UpdateInfo {
    pub available: bool,
    pub current_version: String,
    pub new_version: Option<String>,
    pub release_notes: Option<String>,
}

impl UpdateInfo {
    /// The answer to a check for updates: `update` is the version and notes
    /// of the update found, if any.
    pub fn from_check(current_version: String, update: Option<(String, Option<String>)>) -> (r:
        UpdateInfo)
        ensures
            r.current_version == current_version,
            r.available == update is Some,
            match update {
                Some(u) => r.new_version == Some(u.0) && r.release_notes == u.1,
                None => r.new_version is None && r.release_notes is None,
            },
    {
        match update {
            Some(u) => UpdateInfo {
                available: true,
                current_version,
                new_version: Some(u.0),
                release_notes: u.1,
            },
            None => UpdateInfo {
                available: false,
                current_version,
                new_version: None,
                release_notes: None,
            },
        }
    }
}

/// An image attached to a booklet: its bytes, its extension and its caption.
#[derive(Clone, Debug)]
pub struct CartilhaImageDto {
    pub bytes: Vec<u8>,
    pub extension: String,
    pub caption: String,
}
} // verus!
