//! Top-N selection per category, and the report's shape.

use vstd::prelude::*;
use crate::dedup::{opt_view, unique_views, UniqueSample, UniqueView};
use crate::taxonomy::{lemma_is_sorted_set, sorted_set};
use crate::text::{
    chars_less, chars_of, copy_opt_string, copy_string, copy_strings, is_sorted_set_of,
    lemma_str_less_total, lemma_str_less_trans, lowercase, lowercase_of, sort_dedup_strings,
    str_less, strictly_sorted, string_eq, views,
};

verus! {

/// Which count ranks first.
#[derive(Debug, Clone, Copy, PartialEq, Eq, Structural)]
pub enum Tiebreaker {
    /// Project count, then clip count (the default).
    ProjectThenClip,
    /// Clip count, then project count.
    ClipThenProject,
}

impl Default for Tiebreaker {
    fn default() -> (r: Self)
        ensures
            r == Tiebreaker::ProjectThenClip,
    {
        Tiebreaker::ProjectThenClip
    }
}

/// One category of the report.
#[derive(Debug)]
pub struct CategoryReport {
    pub path: String,
    pub display_name: String,
    pub components: Vec<String>,
    /// The top samples, best first.
    pub samples: Vec<UniqueSample>,
    /// Clip-level occurrences over all the category's samples.
    pub total_occurrences: u64,
    /// Distinct projects the category's samples come from.
    pub project_count: u32,
}

/// A project that could not be read, and why.
#[derive(Debug, Clone)]
pub struct ParseErrorEntry {
    pub project_path: String,
    pub message: String,
}

/// The result of a scan.
#[derive(Debug)]
pub struct AnalysisReport {
    pub categories: Vec<CategoryReport>,
    /// Projects that could not be read.
    pub parse_errors: Vec<ParseErrorEntry>,
    /// Output folder.
    pub output_root: String,
    /// Projects read.
    pub projects_scanned: u32,
    /// Samples kept over all categories.
    pub unique_samples: u32,
    /// Clip-level occurrences over all categories.
    pub total_occurrences: u64,
    /// Version of the application that made the report.
    pub app_version: String,
    /// ISO-8601 time of the run.
    pub run_timestamp: String,
}

// ---------------------------------------------------------------------------
// Ranking order
// ---------------------------------------------------------------------------

/// The ranking key: counts in the tiebreaker's order (larger first), then
/// the lower-cased file name (ascending).
pub open spec fn rank_key(u: UniqueView, tb: Tiebreaker) -> (int, int, Seq<char>) {
    match tb {
        Tiebreaker::ProjectThenClip => (u.project_count as int, u.clip_count as int, lowercase_of(u.filename)),
        Tiebreaker::ClipThenProject => (u.clip_count as int, u.project_count as int, lowercase_of(u.filename)),
    }
}

/// `a` ranks strictly above `b`.
pub open spec fn ranks_before(a: UniqueView, b: UniqueView, tb: Tiebreaker) -> bool {
    let ka = rank_key(a, tb);
    let kb = rank_key(b, tb);
    ka.0 > kb.0 || (ka.0 == kb.0 && (ka.1 > kb.1 || (ka.1 == kb.1 && str_less(ka.2, kb.2))))
}

proof fn lemma_ranks_before_order(a: UniqueView, b: UniqueView, c: UniqueView, tb: Tiebreaker)
    ensures
        !ranks_before(a, a, tb),
        ranks_before(a, b, tb) ==> !ranks_before(b, a, tb),
        ranks_before(a, b, tb) && ranks_before(b, c, tb) ==> ranks_before(a, c, tb),
        !ranks_before(a, b, tb) && !ranks_before(b, a, tb) ==> rank_key(a, tb) == rank_key(b, tb),
{
    let ka = rank_key(a, tb);
    let kb = rank_key(b, tb);
    let kc = rank_key(c, tb);
    lemma_str_less_total(ka.2, kb.2);
    lemma_str_less_total(ka.2, ka.2);
    if str_less(ka.2, kb.2) && str_less(kb.2, kc.2) {
        lemma_str_less_trans(ka.2, kb.2, kc.2);
    }
}

/// `r` is `s` sorted best first, samples of equal rank kept in their order
/// in `s` (what the standard library's stable sort gives).
pub open spec fn is_rank_order(r: Seq<UniqueView>, s: Seq<UniqueView>, tb: Tiebreaker) -> bool {
    exists|perm: Seq<int>| is_rank_permutation(r, s, tb, perm)
}

/// `perm` maps each position of `r` to the position in `s` it came from;
/// `r` is best first and equal ranks keep their order.
pub open spec fn is_rank_permutation(r: Seq<UniqueView>, s: Seq<UniqueView>, tb: Tiebreaker, perm: Seq<int>) -> bool {
    &&& r.len() == s.len()
    &&& perm.len() == s.len()
    &&& forall|i: int| 0 <= i < r.len() ==> 0 <= #[trigger] perm[i] < s.len() && r[i] == s[perm[i]]
    &&& forall|i: int, j: int| 0 <= i < j < r.len() ==> #[trigger] perm[i] != #[trigger] perm[j]
    &&& forall|i: int, j: int| 0 <= i < j < r.len() ==> !ranks_before(#[trigger] r[j], #[trigger] r[i], tb)
    &&& forall|i: int, j: int|
        0 <= i < j < r.len() && rank_key(#[trigger] r[i], tb) == rank_key(#[trigger] r[j], tb) ==> perm[i] < perm[j]
}

/// What a rank order holds of any two samples, in terms of their counts:
/// under project-then-clip, an earlier sample has more projects, or as many
/// and at least as many clips; under clip-then-project, more clips, or as
/// many and at least as many projects. So of two samples with as many
/// projects (clips), the one with more clips (projects) comes first.
pub proof fn lemma_rank_order_counts(r: Seq<UniqueView>, s: Seq<UniqueView>, tb: Tiebreaker, i: int, j: int)
    requires
        is_rank_order(r, s, tb),
        0 <= i < j < r.len(),
    ensures
        tb == Tiebreaker::ProjectThenClip ==> r[i].project_count > r[j].project_count || (r[i].project_count
            == r[j].project_count && r[i].clip_count >= r[j].clip_count),
        tb == Tiebreaker::ClipThenProject ==> r[i].clip_count > r[j].clip_count || (r[i].clip_count
            == r[j].clip_count && r[i].project_count >= r[j].project_count),
        r[i].project_count == r[j].project_count && r[i].clip_count == r[j].clip_count ==> !str_less(
            lowercase_of(r[j].filename),
            lowercase_of(r[i].filename),
        ),
{
    let perm = choose|perm: Seq<int>| is_rank_permutation(r, s, tb, perm);
    assert(!ranks_before(r[j], r[i], tb));
}

struct Keyed {
    sample: UniqueSample,
    low: Vec<char>,
}

fn ranks_before_exec(a: &Keyed, b: &Keyed, tb: Tiebreaker) -> (r: bool)
    requires
        a.low@ == lowercase_of(a.sample.filename@),
        b.low@ == lowercase_of(b.sample.filename@),
    ensures
        r == ranks_before(a.sample@, b.sample@, tb),
{
    let (a0, a1, b0, b1) = match tb {
        Tiebreaker::ProjectThenClip => (
            a.sample.project_count,
            a.sample.clip_count,
            b.sample.project_count,
            b.sample.clip_count,
        ),
        Tiebreaker::ClipThenProject => (
            a.sample.clip_count,
            a.sample.project_count,
            b.sample.clip_count,
            b.sample.project_count,
        ),
    };
    a0 > b0 || (a0 == b0 && (a1 > b1 || (a1 == b1 && chars_less(&a.low, &b.low))))
}

/// Sorts samples best first; samples of equal rank keep their order.
pub fn sort_samples(samples: Vec<UniqueSample>, tb: Tiebreaker) -> (r: Vec<UniqueSample>)
    ensures
        is_rank_order(unique_views(r@), unique_views(samples@), tb),
{
    let ghost s = unique_views(samples@);
    let mut rest = samples;
    // Pop from the back into `items`, which then holds the samples in
    // reverse order with their sort keys.
    let mut items: Vec<Keyed> = Vec::new();
    while rest.len() > 0
        invariant
            rest@.len() + items@.len() == s.len(),
            unique_views(rest@) == s.take(rest@.len() as int),
            forall|i: int| 0 <= i < items@.len() ==> (#[trigger] items@[i]).sample@ == s[s.len() - 1 - i]
                && items@[i].low@ == lowercase_of(items@[i].sample.filename@),
        decreases rest@.len(),
    {
        let ghost r0 = rest@;
        let u = rest.pop().unwrap();
        let low = chars_of(lowercase(u.filename.as_str()).as_str());
        proof {
            assert(r0 =~= rest@.push(u));
            assert(unique_views(r0)[r0.len() - 1] == u@);
            assert(unique_views(rest@) =~= s.take(rest@.len() as int));
        }
        items.push(Keyed { sample: u, low });
    }
    let mut out: Vec<Keyed> = Vec::new();
    let ghost mut perm: Seq<int> = Seq::empty();
    let ghost n = s.len();
    while items.len() > 0
        invariant
            n == s.len(),
            items@.len() <= n,
            forall|i: int| 0 <= i < items@.len() ==> (#[trigger] items@[i]).sample@ == s[n - 1 - i]
                && items@[i].low@ == lowercase_of(items@[i].sample.filename@),
            forall|i: int| 0 <= i < out@.len() ==> (#[trigger] out@[i]).low@ == lowercase_of(out@[i].sample.filename@),
            is_rank_permutation(
                out@.map_values(|k: Keyed| k.sample@),
                s.take(n - items@.len()),
                tb,
                perm,
            ),
        decreases items@.len(),
    {
        let ghost k = n - items@.len();
        let x = items.pop().unwrap();
        assert(x.sample@ == s[k]);
        let ghost ov = out@.map_values(|e: Keyed| e.sample@);
        // First position holding a sample that x ranks strictly above.
        let mut p: usize = 0;
        while p < out.len() && !ranks_before_exec(&x, &out[p], tb)
            invariant
                p <= out@.len(),
                ov == out@.map_values(|e: Keyed| e.sample@),
                x.low@ == lowercase_of(x.sample.filename@),
                forall|i: int| 0 <= i < out@.len() ==> (#[trigger] out@[i]).low@ == lowercase_of(out@[i].sample.filename@),
                forall|i: int| 0 <= i < p ==> !ranks_before(x.sample@, #[trigger] ov[i], tb),
            decreases out@.len() - p,
        {
            p = p + 1;
        }
        let ghost old_perm = perm;
        let ghost xs = x.sample@;
        out.insert(p, x);
        proof {
            let nv = out@.map_values(|e: Keyed| e.sample@);
            assert(nv =~= ov.take(p as int).push(xs) + ov.skip(p as int));
            perm = old_perm.take(p as int).push(k) + old_perm.skip(p as int);
            let sk = s.take(k + 1);
            assert(sk[k] == xs);
            assert forall|i: int| 0 <= i < nv.len() implies 0 <= #[trigger] perm[i] < sk.len() && nv[i] == sk[perm[i]] by {
                if i < p {
                    assert(nv[i] == ov[i]);
                    assert(perm[i] == old_perm[i]);
                } else if i > p {
                    assert(nv[i] == ov[i - 1]);
                    assert(perm[i] == old_perm[i - 1]);
                }
            }
            assert forall|i: int, j: int| 0 <= i < j < nv.len() implies #[trigger] perm[i] != #[trigger] perm[j] by {
                if i != p && j != p {
                    let oi = if i < p { i } else { i - 1 };
                    let oj = if j < p { j } else { j - 1 };
                    assert(perm[i] == old_perm[oi]);
                    assert(perm[j] == old_perm[oj]);
                } else if i == p {
                    let oj = j - 1;
                    assert(perm[j] == old_perm[oj]);
                } else {
                    assert(perm[i] == old_perm[i]);
                }
            }
            assert forall|i: int, j: int| 0 <= i < j < nv.len() implies !ranks_before(#[trigger] nv[j], #[trigger] nv[i], tb) by {
                if i != p && j != p {
                    let oi = if i < p { i } else { i - 1 };
                    let oj = if j < p { j } else { j - 1 };
                    assert(nv[i] == ov[oi]);
                    assert(nv[j] == ov[oj]);
                } else if i == p {
                    // x ranks strictly above ov[p], which is not below ov[j - 1].
                    assert(nv[j] == ov[j - 1]);
                    assert(ranks_before(xs, ov[p as int], tb));
                    lemma_ranks_before_order(xs, ov[p as int], ov[j - 1], tb);
                    lemma_ranks_before_order(ov[j - 1], xs, ov[p as int], tb);
                    lemma_ranks_before_order(xs, ov[j - 1], ov[j - 1], tb);
                } else {
                    assert(nv[i] == ov[i]);
                }
            }
            assert forall|i: int, j: int|
                0 <= i < j < nv.len() && rank_key(#[trigger] nv[i], tb) == rank_key(#[trigger] nv[j], tb) implies perm[i] < perm[j] by {
                if i != p && j != p {
                    let oi = if i < p { i } else { i - 1 };
                    let oj = if j < p { j } else { j - 1 };
                    assert(nv[i] == ov[oi]);
                    assert(nv[j] == ov[oj]);
                    assert(perm[i] == old_perm[oi]);
                    assert(perm[j] == old_perm[oj]);
                } else if i == p {
                    assert(nv[j] == ov[j - 1]);
                    assert(ranks_before(xs, ov[p as int], tb));
                    if j - 1 > p {
                        lemma_ranks_before_order(xs, ov[p as int], ov[j - 1], tb);
                        lemma_ranks_before_order(ov[j - 1], ov[p as int], ov[j - 1], tb);
                    }
                    lemma_ranks_before_order(xs, ov[j - 1], xs, tb);
                } else {
                    assert(perm[i] == old_perm[i]);
                    assert(perm[i] < k);
                }
            }
            assert forall|i: int| 0 <= i < out@.len() implies (#[trigger] out@[i]).low@ == lowercase_of(out@[i].sample.filename@) by {
                if i < p {
                } else if i > p {
                }
            }
        }
    }
    // Strip the keys.
    let mut res: Vec<UniqueSample> = Vec::new();
    let ghost ov = out@.map_values(|e: Keyed| e.sample@);
    let ghost total = out@.len();
    let mut stack: Vec<UniqueSample> = Vec::new();
    while out.len() > 0
        invariant
            out@.len() + stack@.len() == total,
            ov.len() == total,
            forall|i: int| 0 <= i < out@.len() ==> (#[trigger] out@[i]).sample@ == ov[i],
            forall|i: int| 0 <= i < stack@.len() ==> (#[trigger] stack@[i])@ == ov[total - 1 - i],
        decreases out@.len(),
    {
        let e = out.pop().unwrap();
        stack.push(e.sample);
    }
    while stack.len() > 0
        invariant
            res@.len() + stack@.len() == total,
            ov.len() == total,
            forall|i: int| 0 <= i < stack@.len() ==> (#[trigger] stack@[i])@ == ov[total - 1 - i],
            forall|i: int| 0 <= i < res@.len() ==> (#[trigger] res@[i])@ == ov[i],
        decreases stack@.len(),
    {
        let u = stack.pop().unwrap();
        res.push(u);
    }
    proof {
        assert(s.take(n as int) =~= s);
        assert(unique_views(res@) =~= ov);
    }
    res
}

} // verus!

verus! {

// ---------------------------------------------------------------------------
// Per-category report
// ---------------------------------------------------------------------------

/// Sum of the clip counts.
pub open spec fn clip_sum(s: Seq<UniqueView>) -> int
    decreases s.len(),
{
    if s.len() == 0 {
        0
    } else {
        clip_sum(s.drop_last()) + s.last().clip_count
    }
}

/// All project names of the samples, in order.
pub open spec fn all_projects(s: Seq<UniqueView>) -> Seq<Seq<char>>
    decreases s.len(),
{
    if s.len() == 0 {
        Seq::empty()
    } else {
        all_projects(s.drop_last()) + s.last().projects
    }
}

/// The sample's category is one of the selected paths.
pub open spec fn in_selection(u: UniqueView, selected: Seq<Seq<char>>) -> bool {
    match u.category {
        Some(c) => selected.contains(c),
        None => false,
    }
}

/// The categories that appear in the report, ascending.
pub open spec fn report_keys(us: Seq<UniqueView>, selected: Seq<Seq<char>>) -> Seq<Seq<char>> {
    sorted_set(
        us.filter(|u: UniqueView| in_selection(u, selected)).map_values(|u: UniqueView| u.category.unwrap()),
    )
}

/// The samples of category `key`, in input order.
pub open spec fn members(us: Seq<UniqueView>, key: Seq<char>) -> Seq<UniqueView> {
    us.filter(|u: UniqueView| u.category == Some(key))
}

/// Display name and components of category `key`: from the index when it
/// lists the path (first entry wins), else the path itself.
pub open spec fn display_of(index: Seq<(String, (String, Vec<String>))>, key: Seq<char>) -> (Seq<char>, Seq<Seq<char>>)
    decreases index.len(),
{
    if index.len() == 0 {
        (key, seq![key])
    } else if index[0].0@ == key {
        (index[0].1.0@, views(index[0].1.1@))
    } else {
        display_of(index.drop_first(), key)
    }
}

/// What the report says of one category.
pub open spec fn category_report_ok(
    r: CategoryReport,
    us: Seq<UniqueView>,
    key: Seq<char>,
    n: nat,
    tb: Tiebreaker,
    index: Seq<(String, (String, Vec<String>))>,
) -> bool {
    let m = members(us, key);
    &&& r.path@ == key
    &&& r.display_name@ == display_of(index, key).0
    &&& views(r.components@) == display_of(index, key).1
    &&& r.total_occurrences == clip_sum(m)
    &&& r.project_count == (all_projects(m).to_set().len() as u32)
    &&& exists|full: Seq<UniqueView>| is_rank_order(full, m, tb) && unique_views(r.samples@) == full.take(
        if n < full.len() { n as int } else { full.len() as int },
    )
}

fn copy_sample(u: &UniqueSample) -> (r: UniqueSample)
    ensures
        r@ == u@,
{
    UniqueSample {
        canonical_path: copy_string(&u.canonical_path),
        filename: copy_string(&u.filename),
        file_size: u.file_size,
        content_hash: copy_opt_string(&u.content_hash),
        original_path: copy_opt_string(&u.original_path),
        track_name: copy_opt_string(&u.track_name),
        category: copy_opt_string(&u.category),
        project_count: u.project_count,
        clip_count: u.clip_count,
        projects: copy_strings(&u.projects),
        missing: u.missing,
        factory: u.factory,
    }
}

proof fn lemma_clip_sum_filter(s: Seq<UniqueView>, p: spec_fn(UniqueView) -> bool)
    ensures
        0 <= clip_sum(s.filter(p)) <= clip_sum(s),
    decreases s.len(),
{
    reveal_with_fuel(Seq::filter, 1);
    if s.len() > 0 {
        lemma_clip_sum_filter(s.drop_last(), p);
        if p(s.last()) {
            assert(s.filter(p).drop_last() =~= s.drop_last().filter(p));
        }
    }
}

proof fn lemma_strictly_sorted_no_dup(s: Seq<Seq<char>>)
    requires
        strictly_sorted(s),
    ensures
        s.no_duplicates(),
{
    assert forall|i: int, j: int| 0 <= i < s.len() && 0 <= j < s.len() && i != j implies s[i] != s[j] by {
        if i < j {
            lemma_str_less_total(s[i], s[i]);
        } else {
            lemma_str_less_total(s[j], s[j]);
        }
    }
}

fn lookup_display(index: &Vec<(String, (String, Vec<String>))>, key: &String) -> (r: (String, Vec<String>))
    ensures
        r.0@ == display_of(index@, key@).0,
        views(r.1@) == display_of(index@, key@).1,
{
    let mut i: usize = 0;
    assert(index@.skip(0) =~= index@);
    while i < index.len()
        invariant
            i <= index.len(),
            display_of(index@, key@) == display_of(index@.skip(i as int), key@),
        decreases index.len() - i,
    {
        assert(index@.skip(i as int)[0] == index@[i as int]);
        if string_eq(&index[i].0, key) {
            return (copy_string(&index[i].1.0), copy_strings(&index[i].1.1));
        }
        assert(index@.skip(i as int).drop_first() =~= index@.skip(i + 1));
        i = i + 1;
    }
    let mut comps: Vec<String> = Vec::new();
    comps.push(copy_string(key));
    assert(views(comps@) =~= seq![key@]);
    (copy_string(key), comps)
}

/// Groups the samples by category (only the selected categories, in
/// ascending path order), sorts each category's samples best first (by the
/// tiebreaker's counts, then by lower-cased file name; equal ranks keep
/// their order) and keeps the first `n_per_category`. Each category also
/// reports the clips and distinct projects over all its samples, and its
/// display name and components from `category_index` (the path itself
/// when it is not listed there).
pub fn rank(
    uniques: Vec<UniqueSample>,
    selected_paths: &[String],
    n_per_category: usize,
    tiebreaker: Tiebreaker,
    category_index: &Vec<(String, (String, Vec<String>))>,
) -> (r: Vec<CategoryReport>)
    requires
        clip_sum(unique_views(uniques@)) <= u64::MAX,
    ensures
        r@.len() == report_keys(unique_views(uniques@), views(selected_paths@)).len(),
        forall|i: int| 0 <= i < r@.len() ==> category_report_ok(
            #[trigger] r@[i],
            unique_views(uniques@),
            report_keys(unique_views(uniques@), views(selected_paths@))[i],
            n_per_category as nat,
            tiebreaker,
            category_index@,
        ),
{
    let ghost us = unique_views(uniques@);
    let ghost sel = views(selected_paths@);
    let ghost pred = |u: UniqueView| in_selection(u, sel);
    // The selected categories that occur, ascending.
    let mut cats: Vec<String> = Vec::new();
    let mut i: usize = 0;
    while i < uniques.len()
        invariant
            i <= uniques.len(),
            us == unique_views(uniques@),
            sel == views(selected_paths@),
            pred == (|u: UniqueView| in_selection(u, sel)),
            views(cats@) == us.take(i as int).filter(pred).map_values(|u: UniqueView| u.category.unwrap()),
        decreases uniques.len() - i,
    {
        let u = &uniques[i];
        let ghost old_cats = cats@;
        let mut chosen = false;
        match &u.category {
            Some(c) => {
                let mut s: usize = 0;
                while s < selected_paths.len()
                    invariant
                        s <= selected_paths@.len(),
                        sel == views(selected_paths@),
                        !chosen ==> forall|t: int| 0 <= t < s ==> sel[t] != c@,
                        chosen ==> sel.contains(c@),
                    decreases selected_paths@.len() - s,
                {
                    if !chosen && string_eq(&selected_paths[s], c) {
                        chosen = true;
                        assert(sel[s as int] == c@);
                    }
                    s = s + 1;
                }
                if chosen {
                    cats.push(copy_string(c));
                }
            },
            None => {},
        }
        proof {
            reveal_with_fuel(Seq::filter, 1);
            assert(us.take(i + 1).drop_last() =~= us.take(i as int));
            assert(us[i as int] == u@);
            assert(pred(u@) == chosen);
            if chosen {
                assert(views(cats@) =~= views(old_cats).push(u@.category.unwrap()));
            }
            assert(views(cats@) =~= us.take(i + 1).filter(pred).map_values(|u: UniqueView| u.category.unwrap()));
        }
        i = i + 1;
    }
    assert(us.take(uniques.len() as int) =~= us);
    let keys = sort_dedup_strings(cats);
    proof {
        lemma_is_sorted_set(views(keys@), us.filter(pred).map_values(|u: UniqueView| u.category.unwrap()));
    }
    let ghost kv = views(keys@);
    assert(kv == report_keys(us, sel));
    let mut out: Vec<CategoryReport> = Vec::new();
    let mut k: usize = 0;
    while k < keys.len()
        invariant
            k <= keys.len(),
            us == unique_views(uniques@),
            sel == views(selected_paths@),
            kv == views(keys@),
            kv == report_keys(us, sel),
            clip_sum(us) <= u64::MAX,
            out@.len() == k,
            forall|j: int| 0 <= j < k ==> category_report_ok(
                #[trigger] out@[j],
                us,
                kv[j],
                n_per_category as nat,
                tiebreaker,
                category_index@,
            ),
        decreases keys.len() - k,
    {
        let key = &keys[k];
        let ghost mpred = |u: UniqueView| u.category == Some(key@);
        // This category's samples, in input order, with their tallies.
        let mut members_v: Vec<UniqueSample> = Vec::new();
        let mut total: u64 = 0;
        let mut names: Vec<String> = Vec::new();
        let mut i: usize = 0;
        proof {
            lemma_clip_sum_filter(us, mpred);
        }
        while i < uniques.len()
            invariant
                i <= uniques.len(),
                us == unique_views(uniques@),
                mpred == (|u: UniqueView| u.category == Some(key@)),
                clip_sum(us.filter(mpred)) <= u64::MAX,
                unique_views(members_v@) == us.take(i as int).filter(mpred),
                total == clip_sum(us.take(i as int).filter(mpred)),
                views(names@) == all_projects(us.take(i as int).filter(mpred)),
            decreases uniques.len() - i,
        {
            let u = &uniques[i];
            let ghost m0 = members_v@;
            let ghost n0 = names@;
            let same = match &u.category {
                Some(c) => string_eq(c, key),
                None => false,
            };
            proof {
                reveal_with_fuel(Seq::filter, 1);
                assert(us.take(i + 1).drop_last() =~= us.take(i as int));
                assert(us[i as int] == u@);
                assert(mpred(u@) == same);
            }
            if same {
                proof {
                    let f1 = us.take(i + 1).filter(mpred);
                    assert(f1.drop_last() =~= us.take(i as int).filter(mpred));
                    lemma_clip_sum_prefix(us.filter(mpred), us.take(i + 1).filter(mpred), us, i + 1, mpred);
                }
                total = total + u.clip_count as u64;
                let mut p: usize = 0;
                while p < u.projects.len()
                    invariant
                        p <= u.projects.len(),
                        views(names@) == views(n0) + views(u.projects@).take(p as int),
                    decreases u.projects.len() - p,
                {
                    let ghost nn = names@;
                    names.push(copy_string(&u.projects[p]));
                    assert(views(names@) =~= views(nn).push(u.projects@[p as int]@));
                    assert(views(u.projects@).take(p + 1) =~= views(u.projects@).take(p as int).push(u.projects@[p as int]@));
                    p = p + 1;
                }
                assert(views(u.projects@).take(u.projects.len() as int) =~= views(u.projects@));
                members_v.push(copy_sample(u));
                proof {
                    assert(unique_views(members_v@) =~= unique_views(m0).push(u@));
                }
            }
            i = i + 1;
        }
        assert(us.take(uniques.len() as int) =~= us);
        let ghost m = members(us, key@);
        assert(unique_views(members_v@) == m);
        let distinct = sort_dedup_strings(names);
        let project_count = distinct.len() as u32;
        proof {
            lemma_strictly_sorted_no_dup(views(distinct@));
            views(distinct@).unique_seq_to_set();
            assert(views(distinct@).to_set() == all_projects(m).to_set());
        }
        let sorted = sort_samples(members_v, tiebreaker);
        let mut picked = sorted;
        if n_per_category < picked.len() {
            picked.truncate(n_per_category);
        }
        let (display_name, components) = lookup_display(category_index, key);
        let rep = CategoryReport {
            path: copy_string(key),
            display_name,
            components,
            samples: picked,
            total_occurrences: total,
            project_count,
        };
        proof {
            let full = unique_views(sorted@);
            assert(is_rank_order(full, m, tiebreaker));
            assert(full.len() == m.len()) by {
                let perm = choose|perm: Seq<int>| is_rank_permutation(full, m, tiebreaker, perm);
            }
            assert(unique_views(rep.samples@) =~= full.take(
                if (n_per_category as nat) < full.len() { n_per_category as int } else { full.len() as int },
            ));
            assert(category_report_ok(rep, us, kv[k as int], n_per_category as nat, tiebreaker, category_index@));
        }
        out.push(rep);
        k = k + 1;
    }
    out
}

proof fn lemma_clip_sum_prefix(
    all: Seq<UniqueView>,
    part: Seq<UniqueView>,
    us: Seq<UniqueView>,
    i: int,
    p: spec_fn(UniqueView) -> bool,
)
    requires
        0 <= i <= us.len(),
        all == us.filter(p),
        part == us.take(i).filter(p),
    ensures
        clip_sum(part) <= clip_sum(all),
{
    lemma_clip_sum_filter_prefix(us, i, p);
}

proof fn lemma_clip_sum_filter_prefix(us: Seq<UniqueView>, i: int, p: spec_fn(UniqueView) -> bool)
    requires
        0 <= i <= us.len(),
    ensures
        clip_sum(us.take(i).filter(p)) <= clip_sum(us.filter(p)),
    decreases us.len() - i,
{
    reveal_with_fuel(Seq::filter, 1);
    if i < us.len() {
        lemma_clip_sum_filter_prefix(us, i + 1, p);
        let a = us.take(i + 1);
        assert(a.drop_last() =~= us.take(i));
        if p(a.last()) {
            let f0 = a.drop_last().filter(p);
            assert(a.filter(p) == f0.push(a.last()));
            assert(f0.push(a.last()).drop_last() =~= f0);
        }
    } else {
        assert(us.take(i) =~= us);
    }
}

} // verus!
