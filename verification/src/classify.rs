//! Sample classification, in three modes:
//!
//! * use groups: starting from the containing track, walk up the group
//!   tracks and keyword-match each name against the taxonomy;
//! * auto-detect: keyword-match the file name's stem, then the track name;
//! * manual: as auto-detect, with user-supplied keyword lists.
//!
//! The file-name and track-name match is the fallback in every mode.
//!
//! A name matches a keyword when, after normalization, the keyword is one
//! of its tokens (maximal runs of ASCII letters and digits). Among all
//! matches the longest keyword (in bytes) wins, then the deeper category,
//! then the earliest one.

use vstd::prelude::*;
use crate::parse::SampleOccurrence;
use crate::paths::{file_stem, file_stem_of};
use crate::taxonomy::FlatCategory;
use crate::text::{
    ascii_lower, all_ascii, ascii_alnum, chars_of, is_ascii_alnum, lowercase, lowercase_all,
    is_ws, lemma_trim_ws_ends, lowercase_of, trim_start_index, matches_at, occurs_at, string_of, trim_chars, trim_ws, utf8_len,
    views,
};

verus! {

/// Classification mode.
#[derive(Debug, Clone, Copy, PartialEq, Eq, Structural)]
pub enum MatchMode {
    UseGroups,
    AutoDetect,
    Manual,
}

/// User-supplied keyword lists, by category path (each path at most once,
/// as in a map; a lookup takes the first entry with the path).
#[derive(Debug, Clone)]
pub struct ManualKeywords {
    pub per_category: Vec<(String, Vec<String>)>,
}

impl Default for ManualKeywords {
    fn default() -> (r: Self)
        ensures
            r.per_category@.len() == 0,
    {
        ManualKeywords { per_category: Vec::new() }
    }
}

// ---------------------------------------------------------------------------
// Normalization
// ---------------------------------------------------------------------------

/// Punctuation replaced by a space before tokenizing.
pub open spec fn is_punct(c: char) -> bool {
    c == ',' || c == '.' || c == '!' || c == '?' || c == '\'' || c == '"' || c == '(' || c == ')'
        || c == '[' || c == ']'
}

/// Lower-cased, punctuation turned into spaces, surrounding whitespace
/// removed.
pub open spec fn normalize_spec(s: Seq<char>) -> Seq<char> {
    trim_ws(lowercase_of(s).map_values(|c: char| if is_punct(c) { ' ' } else { c }))
}

/// A normalized name holds none of the punctuation `, . ! ? ' " ( ) [ ]`
/// and neither starts nor ends with whitespace.
pub proof fn lemma_normalized_is_clean(s: Seq<char>)
    ensures
        ({
            let r = normalize_spec(s);
            &&& forall|i: int| 0 <= i < r.len() ==> !is_punct(#[trigger] r[i])
            &&& r.len() > 0 ==> !is_ws(r[0]) && !is_ws(r.last())
        }),
{
    let m = lowercase_of(s).map_values(|c: char| if is_punct(c) { ' ' } else { c });
    lemma_trim_ws_ends(m);
    let r = normalize_spec(s);
    assert forall|i: int| 0 <= i < r.len() implies !is_punct(#[trigger] r[i]) by {
        assert(r[i] == m[trim_start_index(m) + i]);
    }
}

/// Normalizes a name for keyword matching: lower-case it, replace the
/// punctuation `, . ! ? ' " ( ) [ ]` by spaces, and trim whitespace.
pub fn normalize(s: &str) -> (r: String)
    ensures
        r@ == normalize_spec(s@),
{
    let r = normalize_chars(s);
    string_of(&r)
}

fn normalize_chars(s: &str) -> (r: Vec<char>)
    ensures
        r@ == normalize_spec(s@),
{
    let low = lowercase(s);
    let lc = chars_of(low.as_str());
    let mut out: Vec<char> = Vec::new();
    let ghost m = lc@.map_values(|c: char| if is_punct(c) { ' ' } else { c });
    let mut i: usize = 0;
    while i < lc.len()
        invariant
            i <= lc.len(),
            m == lc@.map_values(|c: char| if is_punct(c) { ' ' } else { c }),
            out@ == m.take(i as int),
        decreases lc.len() - i,
    {
        let c = lc[i];
        let p = c == ',' || c == '.' || c == '!' || c == '?' || c == '\'' || c == '"' || c == '('
            || c == ')' || c == '[' || c == ']';
        out.push(if p { ' ' } else { c });
        assert(m.take(i + 1) =~= m.take(i as int).push(m[i as int]));
        i = i + 1;
    }
    assert(m.take(lc.len() as int) =~= m);
    trim_chars(&out)
}

// ---------------------------------------------------------------------------
// Tokens
// ---------------------------------------------------------------------------

/// Every character is an ASCII letter or digit.
pub open spec fn all_alnum(s: Seq<char>) -> bool {
    forall|i: int| 0 <= i < s.len() ==> is_ascii_alnum(#[trigger] s[i])
}

/// `kw` occurs in `s` at `i` as a whole run: not preceded nor followed by a
/// letter or digit.
pub open spec fn token_at(s: Seq<char>, kw: Seq<char>, i: int) -> bool {
    &&& occurs_at(s, kw, i)
    &&& (i == 0 || !is_ascii_alnum(s[i - 1]))
    &&& (i + kw.len() == s.len() || !is_ascii_alnum(s[i + kw.len()]))
}

/// `kw` is one of the tokens of `s`: splitting `s` at every character that
/// is not an ASCII letter or digit and dropping empty pieces yields `kw`.
pub open spec fn is_token(kw: Seq<char>, s: Seq<char>) -> bool {
    kw.len() > 0 && all_alnum(kw) && exists|i: int| token_at(s, kw, i)
}

/// Whether `kw` is one of the tokens of `s`.
pub fn token_in(kw: &Vec<char>, s: &Vec<char>) -> (r: bool)
    ensures
        r == is_token(kw@, s@),
{
    if kw.len() == 0 {
        return false;
    }
    let mut a: usize = 0;
    while a < kw.len()
        invariant
            a <= kw.len(),
            forall|j: int| 0 <= j < a ==> is_ascii_alnum(#[trigger] kw@[j]),
        decreases kw.len() - a,
    {
        if !ascii_alnum(kw[a]) {
            return false;
        }
        a = a + 1;
    }
    assert(all_alnum(kw@));
    let mut i: usize = 0;
    while i < s.len()
        invariant
            i <= s.len(),
            kw@.len() > 0,
            all_alnum(kw@),
            forall|j: int| 0 <= j < i ==> !token_at(s@, kw@, j),
        decreases s.len() - i,
    {
        if matches_at(s, kw, i) {
            let before_ok = i == 0 || !ascii_alnum(s[i - 1]);
            let end = i + kw.len();
            let after_ok = end == s.len() || !ascii_alnum(s[end]);
            if before_ok && after_ok {
                assert(token_at(s@, kw@, i as int));
                return true;
            }
        }
        i = i + 1;
    }
    assert forall|j: int| !token_at(s@, kw@, j) by {
        if j >= s@.len() {
            assert(!(j + kw@.len() <= s@.len()));
        }
    }
    false
}

// ---------------------------------------------------------------------------
// Best match
// ---------------------------------------------------------------------------

/// `(l1, d1)` ranks strictly above `(l2, d2)`: longer keyword, or equally
/// long and deeper category.
pub open spec fn score_better(l1: nat, d1: nat, l2: nat, d2: nat) -> bool {
    l1 > l2 || (l1 == l2 && d1 > d2)
}

/// Keyword `k` of candidate `c` is a token of `s`.
pub open spec fn cand_matches(s: Seq<char>, kwl: Seq<Seq<Seq<char>>>, c: int, k: int) -> bool {
    0 <= c < kwl.len() && 0 <= k < kwl[c].len() && is_token(kwl[c][k], s)
}

/// `(c1, k1)` comes before `(c2, k2)` in the order candidates are tried.
pub open spec fn cand_before(c1: int, k1: int, c2: int, k2: int) -> bool {
    c1 < c2 || (c1 == c2 && k1 < k2)
}

/// Byte length of keyword `k` of candidate `c`.
pub open spec fn cand_len(kwl: Seq<Seq<Seq<char>>>, c: int, k: int) -> nat {
    utf8_len(kwl[c][k])
}

/// `(c, k)` is the winning match: it matches, nothing ranks above it, and
/// everything tried before it ranks strictly below it.
pub open spec fn is_best_pair(
    s: Seq<char>,
    kwl: Seq<Seq<Seq<char>>>,
    depths: Seq<nat>,
    c: int,
    k: int,
) -> bool {
    &&& cand_matches(s, kwl, c, k)
    &&& forall|c2: int, k2: int|
        #![trigger cand_matches(s, kwl, c2, k2)]
        cand_matches(s, kwl, c2, k2) ==> !score_better(
            cand_len(kwl, c2, k2),
            depths[c2],
            cand_len(kwl, c, k),
            depths[c],
        )
    &&& forall|c2: int, k2: int|
        #![trigger cand_matches(s, kwl, c2, k2)]
        cand_matches(s, kwl, c2, k2) && cand_before(c2, k2, c, k) ==> score_better(
            cand_len(kwl, c, k),
            depths[c],
            cand_len(kwl, c2, k2),
            depths[c2],
        )
}

/// The candidate holding the winning match, if any keyword matches.
pub open spec fn best_index(s: Seq<char>, kwl: Seq<Seq<Seq<char>>>, depths: Seq<nat>) -> Option<int> {
    if exists|c: int, k: int| is_best_pair(s, kwl, depths, c, k) {
        let p = choose|c: int, k: int| is_best_pair(s, kwl, depths, c, k);
        Some(p.0)
    } else {
        None
    }
}

/// There is at most one winning match.
pub proof fn lemma_best_pair_unique(
    s: Seq<char>,
    kwl: Seq<Seq<Seq<char>>>,
    depths: Seq<nat>,
    c1: int,
    k1: int,
    c2: int,
    k2: int,
)
    requires
        is_best_pair(s, kwl, depths, c1, k1),
        is_best_pair(s, kwl, depths, c2, k2),
    ensures
        c1 == c2 && k1 == k2,
{
    if cand_before(c1, k1, c2, k2) {
        assert(cand_matches(s, kwl, c1, k1));
    } else if cand_before(c2, k2, c1, k1) {
        assert(cand_matches(s, kwl, c2, k2));
    }
}

/// The views of nested keyword lists.
pub open spec fn kw_views(v: Seq<Vec<Vec<char>>>) -> Seq<Seq<Seq<char>>> {
    v.map_values(|l: Vec<Vec<char>>| l@.map_values(|w: Vec<char>| w@))
}

/// The depths as natural numbers.
pub open spec fn depth_views(v: Seq<usize>) -> Seq<nat> {
    v.map_values(|d: usize| d as nat)
}

fn kw_byte_len(kw: &Vec<char>) -> (r: u128)
    ensures
        r == utf8_len(kw@),
{
    let mut n: u128 = 0;
    let mut i: usize = 0;
    while i < kw.len()
        invariant
            i <= kw.len(),
            n == utf8_len(kw@.take(i as int)),
            n <= 4 * i,
        decreases kw.len() - i,
    {
        let u: u32 = kw[i] as u32;
        let w: u128 = if u < 0x80 {
            1
        } else if u < 0x800 {
            2
        } else if u < 0x10000 {
            3
        } else {
            4
        };
        assert(kw@.take(i + 1).drop_last() =~= kw@.take(i as int));
        n = n + w;
        i = i + 1;
    }
    assert(kw@.take(kw.len() as int) =~= kw@);
    n
}

/// The candidate holding the winning match of `s` against the keyword
/// lists `kwl` (one list per candidate, candidate depths in `depths`).
pub fn best_match_against(s: &Vec<char>, kwl: &Vec<Vec<Vec<char>>>, depths: &Vec<usize>) -> (r: Option<usize>)
    requires
        kwl@.len() == depths@.len(),
    ensures
        match r {
            Some(c) => best_index(s@, kw_views(kwl@), depth_views(depths@)) == Some(c as int),
            None => best_index(s@, kw_views(kwl@), depth_views(depths@)) is None,
        },
{
    let ghost kv = kw_views(kwl@);
    let ghost dv = depth_views(depths@);
    // (byte length, depth, candidate, keyword)
    let mut best: Option<(u128, usize, usize, usize)> = None;
    let mut c: usize = 0;
    while c < kwl.len()
        invariant
            c <= kwl.len(),
            kwl@.len() == depths@.len(),
            kv == kw_views(kwl@),
            dv == depth_views(depths@),
            match best {
                None => forall|c2: int, k2: int|
                    #![trigger cand_matches(s@, kv, c2, k2)]
                    cand_matches(s@, kv, c2, k2) ==> c2 >= c,
                Some((bl, bd, bc, bk)) => {
                    &&& cand_matches(s@, kv, bc as int, bk as int)
                    &&& bc < c
                    &&& bl == cand_len(kv, bc as int, bk as int)
                    &&& bd == dv[bc as int]
                    &&& forall|c2: int, k2: int|
                        #![trigger cand_matches(s@, kv, c2, k2)]
                        cand_matches(s@, kv, c2, k2) && c2 < c ==> !score_better(
                            cand_len(kv, c2, k2),
                            dv[c2],
                            bl as nat,
                            bd as nat,
                        )
                    &&& forall|c2: int, k2: int|
                        #![trigger cand_matches(s@, kv, c2, k2)]
                        cand_matches(s@, kv, c2, k2) && cand_before(c2, k2, bc as int, bk as int)
                            ==> score_better(bl as nat, bd as nat, cand_len(kv, c2, k2), dv[c2])
                },
            },
        decreases kwl.len() - c,
    {
        let list = &kwl[c];
        assert(kv[c as int] == list@.map_values(|w: Vec<char>| w@));
        let mut k: usize = 0;
        while k < list.len()
            invariant
                c < kwl.len(),
                k <= list.len(),
                list == kwl@[c as int],
                kwl@.len() == depths@.len(),
                kv == kw_views(kwl@),
                dv == depth_views(depths@),
                kv[c as int] == list@.map_values(|w: Vec<char>| w@),
                match best {
                    None => forall|c2: int, k2: int|
                        #![trigger cand_matches(s@, kv, c2, k2)]
                        cand_matches(s@, kv, c2, k2) ==> !cand_before(c2, k2, c as int, k as int),
                    Some((bl, bd, bc, bk)) => {
                        &&& cand_matches(s@, kv, bc as int, bk as int)
                        &&& cand_before(bc as int, bk as int, c as int, k as int)
                        &&& bl == cand_len(kv, bc as int, bk as int)
                        &&& bd == dv[bc as int]
                        &&& forall|c2: int, k2: int|
                            #![trigger cand_matches(s@, kv, c2, k2)]
                            cand_matches(s@, kv, c2, k2) && cand_before(c2, k2, c as int, k as int)
                                ==> !score_better(cand_len(kv, c2, k2), dv[c2], bl as nat, bd as nat)
                        &&& forall|c2: int, k2: int|
                            #![trigger cand_matches(s@, kv, c2, k2)]
                            cand_matches(s@, kv, c2, k2) && cand_before(
                                c2,
                                k2,
                                bc as int,
                                bk as int,
                            ) ==> score_better(bl as nat, bd as nat, cand_len(kv, c2, k2), dv[c2])
                    },
                },
            decreases list.len() - k,
        {
            let kw = &list[k];
            assert(kv[c as int][k as int] == kw@);
            if token_in(kw, s) {
                let len = kw_byte_len(kw);
                let depth = depths[c];
                assert(cand_matches(s@, kv, c as int, k as int));
                let better = match best {
                    None => true,
                    Some((bl, bd, _, _)) => len > bl || (len == bl && depth > bd),
                };
                if better {
                    best = Some((len, depth, c, k));
                }
            }
            k = k + 1;
        }
        c = c + 1;
    }
    match best {
        None => {
            assert forall|c2: int, k2: int| !is_best_pair(s@, kv, dv, c2, k2) by {
                if is_best_pair(s@, kv, dv, c2, k2) {
                    assert(cand_matches(s@, kv, c2, k2));
                }
            }
            None
        },
        Some((_, _, bc, bk)) => {
            assert(is_best_pair(s@, kv, dv, bc as int, bk as int));
            proof {
                let p = choose|c3: int, k3: int| is_best_pair(s@, kv, dv, c3, k3);
                lemma_best_pair_unique(s@, kv, dv, p.0, p.1, bc as int, bk as int);
            }
            Some(bc)
        },
    }
}

// ---------------------------------------------------------------------------
// Classification
// ---------------------------------------------------------------------------

/// First entry of the manual lists with key `key`.
pub open spec fn manual_lookup(entries: Seq<(String, Vec<String>)>, key: Seq<char>) -> Option<Seq<Seq<char>>>
    decreases entries.len(),
{
    if entries.len() == 0 {
        None
    } else if entries[0].0@ == key {
        Some(views(entries[0].1@))
    } else {
        manual_lookup(entries.drop_first(), key)
    }
}

/// The keywords a category is matched with: its own, or, in manual mode,
/// the user's lower-cased list for its path when that list is not empty.
pub open spec fn effective_keywords(cat: FlatCategory, use_manual: bool, manual: ManualKeywords) -> Seq<Seq<char>> {
    if use_manual {
        match manual_lookup(manual.per_category@, cat.path@) {
            Some(kws) => if kws.len() > 0 {
                kws.map_values(|k: Seq<char>| lowercase_of(k))
            } else {
                views(cat.keywords@)
            },
            None => views(cat.keywords@),
        }
    } else {
        views(cat.keywords@)
    }
}

/// The categories whose path is among the selected paths, in order.
pub open spec fn selected_categories(selected: Seq<String>, categories: Seq<FlatCategory>) -> Seq<FlatCategory> {
    categories.filter(|c: FlatCategory| views(selected).contains(c.path@))
}

/// The category whose keyword best matches the normalized `name`.
pub open spec fn match_name(name: Seq<char>, cats: Seq<FlatCategory>, use_manual: bool, manual: ManualKeywords) -> Option<Seq<char>> {
    let kwl = cats.map_values(|c: FlatCategory| effective_keywords(c, use_manual, manual));
    let depths = cats.map_values(|c: FlatCategory| c.depth as nat);
    match best_index(normalize_spec(name), kwl, depths) {
        Some(i) => Some(cats[i].path@),
        None => None,
    }
}

/// The names tried in use-groups mode: the track name, then the groups
/// from innermost to outermost.
pub open spec fn group_chain(sample: SampleOccurrence) -> Seq<Seq<char>> {
    let groups = views(sample.group_path@).reverse();
    match sample.track_name {
        Some(t) => seq![t@] + groups,
        None => groups,
    }
}

/// The first name of the chain that matches a category, and that category.
pub open spec fn first_chain_match(chain: Seq<Seq<char>>, cats: Seq<FlatCategory>, manual: ManualKeywords) -> Option<Seq<char>>
    decreases chain.len(),
{
    if chain.len() == 0 {
        None
    } else {
        match match_name(chain[0], cats, false, manual) {
            Some(p) => Some(p),
            None => first_chain_match(chain.drop_first(), cats, manual),
        }
    }
}

/// The file name without its extension (the whole name when it has none).
pub open spec fn filename_stem(filename: Seq<char>) -> Seq<char> {
    match file_stem_of(filename) {
        Some(s) => s,
        None => filename,
    }
}

/// Match the file name's stem, then the track name.
pub open spec fn match_by_filename(sample: SampleOccurrence, cats: Seq<FlatCategory>, use_manual: bool, manual: ManualKeywords) -> Option<Seq<char>> {
    match match_name(filename_stem(sample.filename@), cats, use_manual, manual) {
        Some(p) => Some(p),
        None => match sample.track_name {
            Some(t) => match_name(t@, cats, use_manual, manual),
            None => None,
        },
    }
}

/// The path of the category a sample falls in, or `None`.
pub open spec fn classify_spec(
    sample: SampleOccurrence,
    selected: Seq<String>,
    categories: Seq<FlatCategory>,
    mode: MatchMode,
    manual: ManualKeywords,
) -> Option<Seq<char>> {
    let cats = selected_categories(selected, categories);
    let use_manual = mode == MatchMode::Manual;
    if cats.len() == 0 {
        None
    } else {
        match mode {
            MatchMode::UseGroups => match first_chain_match(group_chain(sample), cats, manual) {
                Some(p) => Some(p),
                None => match_by_filename(sample, cats, use_manual, manual),
            },
            _ => match_by_filename(sample, cats, use_manual, manual),
        }
    }
}

/// Whether some category's path is `p`.
pub open spec fn has_path(categories: Seq<FlatCategory>, p: Seq<char>) -> bool {
    exists|k: int| 0 <= k < categories.len() && (#[trigger] categories[k]).path@ == p
}

proof fn lemma_selected_in(selected: Seq<String>, categories: Seq<FlatCategory>, i: int)
    requires
        0 <= i < selected_categories(selected, categories).len(),
    ensures
        views(selected).contains(selected_categories(selected, categories)[i].path@),
        has_path(categories, selected_categories(selected, categories)[i].path@),
    decreases categories.len(),
{
    let pred = |c: FlatCategory| views(selected).contains(c.path@);
    let f = categories.filter(pred);
    categories.lemma_filter_pred(pred, i);
    reveal(Seq::filter);
    if categories.len() > 0 {
        let pre = categories.drop_last();
        let g = pre.filter(pred);
        if pred(categories.last()) && i == g.len() {
            assert(f[i] == categories.last());
            assert(categories[categories.len() - 1] == categories.last());
        } else {
            assert(f[i] == g[i]);
            lemma_selected_in(selected, pre, i);
            let k = choose|k: int| 0 <= k < pre.len() && (#[trigger] pre[k]).path@ == g[i].path@;
            assert(categories[k] == pre[k]);
        }
    }
}

proof fn lemma_match_name_in(name: Seq<char>, cats: Seq<FlatCategory>, use_manual: bool, manual: ManualKeywords)
    ensures
        match_name(name, cats, use_manual, manual) matches Some(p) ==> exists|i: int| 0 <= i < cats.len() && (#[trigger] cats[i]).path@ == p,
{
    let kwl = cats.map_values(|c: FlatCategory| effective_keywords(c, use_manual, manual));
    let depths = cats.map_values(|c: FlatCategory| c.depth as nat);
    let s = normalize_spec(name);
    if exists|c: int, k: int| is_best_pair(s, kwl, depths, c, k) {
        let pr = choose|c: int, k: int| is_best_pair(s, kwl, depths, c, k);
        assert(cand_matches(s, kwl, pr.0, pr.1));
        assert(cats[pr.0].path@ == cats[pr.0].path@);
    }
}

proof fn lemma_chain_in(chain: Seq<Seq<char>>, cats: Seq<FlatCategory>, manual: ManualKeywords)
    ensures
        first_chain_match(chain, cats, manual) matches Some(p) ==> exists|i: int| 0 <= i < cats.len() && (#[trigger] cats[i]).path@ == p,
    decreases chain.len(),
{
    if chain.len() > 0 {
        lemma_match_name_in(chain[0], cats, false, manual);
        lemma_chain_in(chain.drop_first(), cats, manual);
    }
}

/// A sample falls, if anywhere, in a selected category that is among the
/// categories given: the result is one of the selected paths and the path
/// of one of the categories. When no given category is selected, the
/// sample falls nowhere.
pub proof fn lemma_classify_selected(
    sample: SampleOccurrence,
    selected: Seq<String>,
    categories: Seq<FlatCategory>,
    mode: MatchMode,
    manual: ManualKeywords,
)
    ensures
        classify_spec(sample, selected, categories, mode, manual) matches Some(p) ==> views(selected).contains(p) && has_path(categories, p),
        (forall|k: int| 0 <= k < categories.len() ==> !views(selected).contains((#[trigger] categories[k]).path@))
            ==> classify_spec(sample, selected, categories, mode, manual) is None,
{
    let cats = selected_categories(selected, categories);
    let use_manual = mode == MatchMode::Manual;
    let pred = |c: FlatCategory| views(selected).contains(c.path@);
    lemma_match_name_in(filename_stem(sample.filename@), cats, use_manual, manual);
    match sample.track_name {
        Some(t) => lemma_match_name_in(t@, cats, use_manual, manual),
        None => {},
    }
    lemma_chain_in(group_chain(sample), cats, manual);
    if let Some(p) = classify_spec(sample, selected, categories, mode, manual) {
        let i = choose|i: int| 0 <= i < cats.len() && (#[trigger] cats[i]).path@ == p;
        lemma_selected_in(selected, categories, i);
    }
    if forall|k: int| 0 <= k < categories.len() ==> !views(selected).contains((#[trigger] categories[k]).path@) {
        if cats.len() > 0 {
            categories.lemma_filter_pred(pred, 0);
            lemma_selected_in(selected, categories, 0);
        }
    }
}

/// Keyword lists, depths and indices of the selected categories.
struct Candidates {
    idx: Vec<usize>,
    kwl: Vec<Vec<Vec<char>>>,
    depths: Vec<usize>,
}

fn chars_list(v: &Vec<String>) -> (r: Vec<Vec<char>>)
    ensures
        r@.map_values(|w: Vec<char>| w@) == views(v@),
{
    let mut out: Vec<Vec<char>> = Vec::new();
    let mut i: usize = 0;
    while i < v.len()
        invariant
            i <= v.len(),
            out@.map_values(|w: Vec<char>| w@) == views(v@).take(i as int),
        decreases v.len() - i,
    {
        let ghost before = out@;
        let w = chars_of(v[i].as_str());
        out.push(w);
        assert(out@ =~= before.push(w));
        assert(out@.map_values(|w: Vec<char>| w@) =~= before.map_values(|w: Vec<char>| w@).push(w@));
        assert(views(v@).take(i + 1) =~= views(v@).take(i as int).push(v@[i as int]@));
        assert(out@.map_values(|w: Vec<char>| w@) =~= views(v@).take(i + 1));
        i = i + 1;
    }
    assert(views(v@).take(v.len() as int) =~= views(v@));
    out
}

fn lookup_manual<'a>(manual: &'a ManualKeywords, key: &String) -> (r: Option<&'a Vec<String>>)
    ensures
        match r {
            Some(v) => manual_lookup(manual.per_category@, key@) == Some(views(v@)),
            None => manual_lookup(manual.per_category@, key@) is None,
        },
{
    let entries = &manual.per_category;
    let mut i: usize = 0;
    assert(entries@.skip(0) =~= entries@);
    while i < entries.len()
        invariant
            i <= entries.len(),
            entries@ == manual.per_category@,
            manual_lookup(entries@, key@) == manual_lookup(entries@.skip(i as int), key@),
        decreases entries.len() - i,
    {
        assert(entries@.skip(i as int)[0] == entries@[i as int]);
        if entries[i].0 == *key {
            return Some(&entries[i].1);
        }
        assert(entries@.skip(i as int).drop_first() =~= entries@.skip(i + 1));
        i = i + 1;
    }
    None
}

fn keywords_for(cat: &FlatCategory, use_manual: bool, manual: &ManualKeywords) -> (r: Vec<Vec<char>>)
    ensures
        r@.map_values(|w: Vec<char>| w@) == effective_keywords(*cat, use_manual, *manual),
{
    if use_manual {
        match lookup_manual(manual, &cat.path) {
            Some(kws) => {
                if kws.len() > 0 {
                    let low = lowercase_all(kws);
                    let r = chars_list(&low);
                    assert(views(low@) =~= views(kws@).map_values(|k: Seq<char>| lowercase_of(k)));
                    return r;
                }
            },
            None => {},
        }
    }
    chars_list(&cat.keywords)
}

fn gather(selected: &[String], categories: &[FlatCategory], use_manual: bool, manual: &ManualKeywords) -> (r: Candidates)
    ensures
        r.kwl@.len() == r.depths@.len(),
        r.idx@.len() == r.kwl@.len(),
        ({
            let cats = selected_categories(selected@, categories@);
            &&& r.idx@.len() == cats.len()
            &&& forall|j: int| 0 <= j < cats.len() ==> #[trigger] r.idx@[j] < categories@.len()
                && categories@[r.idx@[j] as int] == cats[j]
            &&& kw_views(r.kwl@) == cats.map_values(
                |c: FlatCategory| effective_keywords(c, use_manual, *manual),
            )
            &&& depth_views(r.depths@) == cats.map_values(|c: FlatCategory| c.depth as nat)
        }),
{
    let mut idx: Vec<usize> = Vec::new();
    let mut kwl: Vec<Vec<Vec<char>>> = Vec::new();
    let mut depths: Vec<usize> = Vec::new();
    let ghost pred = |c: FlatCategory| views(selected@).contains(c.path@);
    let mut i: usize = 0;
    while i < categories.len()
        invariant
            i <= categories@.len(),
            pred == (|c: FlatCategory| views(selected@).contains(c.path@)),
            kwl@.len() == depths@.len(),
            idx@.len() == kwl@.len(),
            ({
                let cats = categories@.take(i as int).filter(pred);
                &&& idx@.len() == cats.len()
                &&& forall|j: int| 0 <= j < cats.len() ==> #[trigger] idx@[j] < categories@.len()
                    && categories@[idx@[j] as int] == cats[j]
                &&& kw_views(kwl@) == cats.map_values(
                    |c: FlatCategory| effective_keywords(c, use_manual, *manual),
                )
                &&& depth_views(depths@) == cats.map_values(|c: FlatCategory| c.depth as nat)
            }),
        decreases categories@.len() - i,
    {
        let cat = &categories[i];
        let mut chosen = false;
        let mut s: usize = 0;
        while s < selected.len()
            invariant
                s <= selected@.len(),
                !chosen ==> forall|t: int| 0 <= t < s ==> views(selected@)[t] != cat.path@,
                chosen ==> views(selected@).contains(cat.path@),
            decreases selected@.len() - s,
        {
            if !chosen && selected[s] == cat.path {
                chosen = true;
                assert(views(selected@)[s as int] == cat.path@);
            }
            s = s + 1;
        }
        let ghost old_cats = categories@.take(i as int).filter(pred);
        proof {
            reveal_with_fuel(Seq::filter, 1);
            assert(categories@.take(i + 1).drop_last() =~= categories@.take(i as int));
            assert(pred(*cat) == chosen);
        }
        if chosen {
            let ghost k0 = kwl@;
            let ghost d0 = depths@;
            idx.push(i);
            let kws = keywords_for(cat, use_manual, manual);
            kwl.push(kws);
            depths.push(cat.depth);
            proof {
                let cats = categories@.take(i + 1).filter(pred);
                assert(cats =~= old_cats.push(*cat));
                assert(kwl@ =~= k0.push(kws));
                assert(depths@ =~= d0.push(cat.depth));
                assert(kw_views(kwl@) =~= kw_views(k0).push(kws@.map_values(|w: Vec<char>| w@)));
                assert(depth_views(depths@) =~= depth_views(d0).push(cat.depth as nat));
                assert(kw_views(kwl@) =~= cats.map_values(
                    |c: FlatCategory| effective_keywords(c, use_manual, *manual),
                ));
                assert(depth_views(depths@) =~= cats.map_values(|c: FlatCategory| c.depth as nat));
            }
        } else {
            assert(categories@.take(i + 1).filter(pred) =~= old_cats);
        }
        i = i + 1;
    }
    assert(categories@.take(categories@.len() as int) =~= categories@);
    Candidates { idx, kwl, depths }
}

/// The selected category (as an index into `categories`) that best
/// matches `name`.
fn match_one(name: &str, cands: &Candidates, ghost_cats: Ghost<Seq<FlatCategory>>, use_manual: bool, manual: Ghost<ManualKeywords>, categories: &[FlatCategory]) -> (r: Option<usize>)
    requires
        cands.kwl@.len() == cands.depths@.len(),
        cands.idx@.len() == ghost_cats@.len(),
        forall|j: int| 0 <= j < ghost_cats@.len() ==> #[trigger] cands.idx@[j] < categories@.len()
            && categories@[cands.idx@[j] as int] == ghost_cats@[j],
        kw_views(cands.kwl@) == ghost_cats@.map_values(
            |c: FlatCategory| effective_keywords(c, use_manual, manual@),
        ),
        depth_views(cands.depths@) == ghost_cats@.map_values(|c: FlatCategory| c.depth as nat),
    ensures
        match r {
            Some(i) => i < categories@.len() && match_name(name@, ghost_cats@, use_manual, manual@)
                == Some(categories@[i as int].path@),
            None => match_name(name@, ghost_cats@, use_manual, manual@) is None,
        },
{
    let norm = normalize_chars(name);
    match best_match_against(&norm, &cands.kwl, &cands.depths) {
        Some(c) => {
            proof {
                let kwl = ghost_cats@.map_values(|c: FlatCategory| effective_keywords(c, use_manual, manual@));
                let p = choose|c3: int, k3: int| is_best_pair(norm@, kwl, depth_views(cands.depths@), c3, k3);
                assert(cand_matches(norm@, kwl, p.0, p.1));
            }
            Some(cands.idx[c])
        },
        None => None,
    }
}

/// Classifies a sample: the path of the category it falls in, among the
/// categories whose path is in `selected_paths`, or `None` (uncategorized).
pub fn classify(
    sample: &SampleOccurrence,
    selected_paths: &[String],
    categories: &[FlatCategory],
    mode: MatchMode,
    manual: &ManualKeywords,
) -> (r: Option<String>)
    ensures
        match r {
            Some(p) => classify_spec(*sample, selected_paths@, categories@, mode, *manual) == Some(p@),
            None => classify_spec(*sample, selected_paths@, categories@, mode, *manual) is None,
        },
{
    let use_manual = mode == MatchMode::Manual;
    let ghost cats = selected_categories(selected_paths@, categories@);
    let cands = gather(selected_paths, categories, use_manual, manual);
    if cands.idx.len() == 0 {
        return None;
    }
    if mode == MatchMode::UseGroups {
        match classify_use_groups(sample, &cands, Ghost(cats), manual, categories) {
            Some(i) => return Some(categories[i].path.clone()),
            None => {},
        }
    }
    match classify_filename(sample, &cands, Ghost(cats), use_manual, manual, categories) {
        Some(i) => Some(categories[i].path.clone()),
        None => None,
    }
}

fn classify_use_groups(
    sample: &SampleOccurrence,
    cands: &Candidates,
    cats: Ghost<Seq<FlatCategory>>,
    manual: &ManualKeywords,
    categories: &[FlatCategory],
) -> (r: Option<usize>)
    requires
        cands.kwl@.len() == cands.depths@.len(),
        cands.idx@.len() == cats@.len(),
        forall|j: int| 0 <= j < cats@.len() ==> #[trigger] cands.idx@[j] < categories@.len()
            && categories@[cands.idx@[j] as int] == cats@[j],
        kw_views(cands.kwl@) == cats@.map_values(
            |c: FlatCategory| effective_keywords(c, false, *manual),
        ),
        depth_views(cands.depths@) == cats@.map_values(|c: FlatCategory| c.depth as nat),
    ensures
        match r {
            Some(i) => i < categories@.len() && first_chain_match(group_chain(*sample), cats@, *manual)
                == Some(categories@[i as int].path@),
            None => first_chain_match(group_chain(*sample), cats@, *manual) is None,
        },
{
    // Innermost first: the track, then the groups from the inside out.
    let ghost chain = group_chain(*sample);
    let ghost groups = views(sample.group_path@).reverse();
    let mut pos: usize = 0;
    match &sample.track_name {
        Some(t) => {
            let hit = match_one(t.as_str(), cands, cats, false, Ghost(*manual), categories);
            assert(chain[0] == t@);
            if hit.is_some() {
                return hit;
            }
            assert(chain.drop_first() =~= groups);
        },
        None => {
            assert(chain =~= groups);
        },
    }
    let n = sample.group_path.len();
    assert(first_chain_match(chain, cats@, *manual) == first_chain_match(groups, cats@, *manual));
    assert(groups.skip(0) =~= groups);
    while pos < n
        invariant
            pos <= n,
            n == sample.group_path@.len(),
            groups == views(sample.group_path@).reverse(),
            cands.kwl@.len() == cands.depths@.len(),
            cands.idx@.len() == cats@.len(),
            forall|j: int| 0 <= j < cats@.len() ==> #[trigger] cands.idx@[j] < categories@.len()
                && categories@[cands.idx@[j] as int] == cats@[j],
            kw_views(cands.kwl@) == cats@.map_values(
                |c: FlatCategory| effective_keywords(c, false, *manual),
            ),
            depth_views(cands.depths@) == cats@.map_values(|c: FlatCategory| c.depth as nat),
            first_chain_match(group_chain(*sample), cats@, *manual) == first_chain_match(groups.skip(pos as int), cats@, *manual),
        decreases n - pos,
    {
        let name = &sample.group_path[n - 1 - pos];
        assert(groups.skip(pos as int)[0] == groups[pos as int]);
        assert(groups[pos as int] == name@);
        let hit = match_one(name.as_str(), cands, cats, false, Ghost(*manual), categories);
        if hit.is_some() {
            return hit;
        }
        assert(groups.skip(pos as int).drop_first() =~= groups.skip(pos + 1));
        pos = pos + 1;
    }
    assert(groups.skip(n as int).len() == 0);
    None
}

fn classify_filename(
    sample: &SampleOccurrence,
    cands: &Candidates,
    cats: Ghost<Seq<FlatCategory>>,
    use_manual: bool,
    manual: &ManualKeywords,
    categories: &[FlatCategory],
) -> (r: Option<usize>)
    requires
        cands.kwl@.len() == cands.depths@.len(),
        cands.idx@.len() == cats@.len(),
        forall|j: int| 0 <= j < cats@.len() ==> #[trigger] cands.idx@[j] < categories@.len()
            && categories@[cands.idx@[j] as int] == cats@[j],
        kw_views(cands.kwl@) == cats@.map_values(
            |c: FlatCategory| effective_keywords(c, use_manual, *manual),
        ),
        depth_views(cands.depths@) == cats@.map_values(|c: FlatCategory| c.depth as nat),
    ensures
        match r {
            Some(i) => i < categories@.len() && match_by_filename(*sample, cats@, use_manual, *manual)
                == Some(categories@[i as int].path@),
            None => match_by_filename(*sample, cats@, use_manual, *manual) is None,
        },
{
    let stem = match file_stem(sample.filename.as_str()) {
        Some(s) => s,
        None => sample.filename.clone(),
    };
    let hit = match_one(stem.as_str(), cands, cats, use_manual, Ghost(*manual), categories);
    if hit.is_some() {
        return hit;
    }
    match &sample.track_name {
        Some(t) => match_one(t.as_str(), cands, cats, use_manual, Ghost(*manual), categories),
        None => None,
    }
}


// ---------------------------------------------------------------------------
// Laws of the matching order
// ---------------------------------------------------------------------------

proof fn lemma_first_chain_at(chain: Seq<Seq<char>>, cats: Seq<FlatCategory>, manual: ManualKeywords, k: int, p: Seq<char>)
    requires
        0 <= k < chain.len(),
        forall|j: int| 0 <= j < k ==> match_name(#[trigger] chain[j], cats, false, manual) is None,
        match_name(chain[k], cats, false, manual) == Some(p),
    ensures
        first_chain_match(chain, cats, manual) == Some(p),
    decreases k,
{
    if k > 0 {
        assert(match_name(chain[0], cats, false, manual) is None);
        let t = chain.drop_first();
        assert forall|j: int| 0 <= j < k - 1 implies match_name(#[trigger] t[j], cats, false, manual) is None by {
            assert(t[j] == chain[j + 1]);
        }
        assert(t[k - 1] == chain[k]);
        lemma_first_chain_at(t, cats, manual, k - 1, p);
    }
}

proof fn lemma_first_chain_none(chain: Seq<Seq<char>>, cats: Seq<FlatCategory>, manual: ManualKeywords)
    requires
        forall|j: int| 0 <= j < chain.len() ==> match_name(#[trigger] chain[j], cats, false, manual) is None,
    ensures
        first_chain_match(chain, cats, manual) is None,
    decreases chain.len(),
{
    if chain.len() > 0 {
        assert(match_name(chain[0], cats, false, manual) is None);
        let t = chain.drop_first();
        assert forall|j: int| 0 <= j < t.len() implies match_name(#[trigger] t[j], cats, false, manual) is None by {
            assert(t[j] == chain[j + 1]);
        }
        lemma_first_chain_none(t, cats, manual);
    }
}

/// In use-groups mode the track name is tried first: when it matches a
/// selected category, the sample falls in that category, whatever its
/// groups and file name.
pub proof fn lemma_use_groups_track_first(
    sample: SampleOccurrence,
    selected: Seq<String>,
    categories: Seq<FlatCategory>,
    manual: ManualKeywords,
    t: String,
    p: Seq<char>,
)
    requires
        sample.track_name == Some(t),
        match_name(t@, selected_categories(selected, categories), false, manual) == Some(p),
    ensures
        classify_spec(sample, selected, categories, MatchMode::UseGroups, manual) == Some(p),
{
    let cats = selected_categories(selected, categories);
    lemma_match_name_in(t@, cats, false, manual);
    let chain = group_chain(sample);
    assert(chain[0] == t@);
    lemma_first_chain_at(chain, cats, manual, 0, p);
}

/// In use-groups mode the groups are walked from the innermost out: when
/// the track name (if any) and every group inside group `k` match nothing,
/// and group `k` matches a selected category, the sample falls in that
/// category, whatever the groups around `k` and the file name would match.
pub proof fn lemma_use_groups_innermost_first(
    sample: SampleOccurrence,
    selected: Seq<String>,
    categories: Seq<FlatCategory>,
    manual: ManualKeywords,
    k: int,
    p: Seq<char>,
)
    requires
        0 <= k < sample.group_path@.len(),
        match sample.track_name {
            Some(t) => match_name(t@, selected_categories(selected, categories), false, manual) is None,
            None => true,
        },
        forall|j: int| k < j < sample.group_path@.len() ==> match_name(
            (#[trigger] sample.group_path@[j])@,
            selected_categories(selected, categories),
            false,
            manual,
        ) is None,
        match_name(sample.group_path@[k]@, selected_categories(selected, categories), false, manual) == Some(p),
    ensures
        classify_spec(sample, selected, categories, MatchMode::UseGroups, manual) == Some(p),
{
    let cats = selected_categories(selected, categories);
    lemma_match_name_in(sample.group_path@[k]@, cats, false, manual);
    let g = sample.group_path@;
    let n = g.len();
    let rg = views(g).reverse();
    let off: int = if sample.track_name is Some { 1 } else { 0 };
    let chain = group_chain(sample);
    assert(chain.len() == off + n);
    assert forall|i: int| 0 <= i < n implies #[trigger] chain[off + i] == g[n - 1 - i]@ by {
        assert(rg[i] == views(g)[n - 1 - i]);
    }
    assert forall|j: int| 0 <= j < off + (n - 1 - k) implies match_name(#[trigger] chain[j], cats, false, manual) is None by {
        if j < off {
            assert(chain[0] == sample.track_name.unwrap()@);
        } else {
            assert(chain[off + (j - off)] == g[n - 1 - (j - off)]@);
            assert(match_name(g[n - 1 - (j - off)]@, cats, false, manual) is None);
        }
    }
    assert(chain[off + (n - 1 - k)] == g[n - 1 - (n - 1 - k)]@);
    lemma_first_chain_at(chain, cats, manual, off + (n - 1 - k), p);
}

/// Outside use-groups mode the file name is matched first: when the file
/// name's stem (the name without its extension) matches a selected
/// category, the sample falls in that category, whatever its track name.
/// The track name is consulted only when the stem matches nothing.
pub proof fn lemma_filename_first(
    sample: SampleOccurrence,
    selected: Seq<String>,
    categories: Seq<FlatCategory>,
    mode: MatchMode,
    manual: ManualKeywords,
)
    requires
        mode != MatchMode::UseGroups,
    ensures
        ({
            let cats = selected_categories(selected, categories);
            let by_stem = match_name(filename_stem(sample.filename@), cats, mode == MatchMode::Manual, manual);
            let r = classify_spec(sample, selected, categories, mode, manual);
            &&& by_stem is Some ==> r == by_stem
            &&& by_stem is None ==> r == match sample.track_name {
                Some(t) => match_name(t@, cats, mode == MatchMode::Manual, manual),
                None => None,
            }
        }),
{
    let cats = selected_categories(selected, categories);
    if cats.len() == 0 {
        assert(match_name(filename_stem(sample.filename@), cats, mode == MatchMode::Manual, manual) is None) by {
            lemma_match_name_in(filename_stem(sample.filename@), cats, mode == MatchMode::Manual, manual);
        }
        match sample.track_name {
            Some(t) => lemma_match_name_in(t@, cats, mode == MatchMode::Manual, manual),
            None => {},
        }
    }
}

/// In use-groups mode, when neither the track name nor any group matches,
/// the file name decides as in auto-detect mode: stem first, then the
/// track name with the selected categories' own keywords.
pub proof fn lemma_use_groups_falls_back(
    sample: SampleOccurrence,
    selected: Seq<String>,
    categories: Seq<FlatCategory>,
    manual: ManualKeywords,
)
    requires
        match sample.track_name {
            Some(t) => match_name(t@, selected_categories(selected, categories), false, manual) is None,
            None => true,
        },
        forall|j: int| 0 <= j < sample.group_path@.len() ==> match_name(
            (#[trigger] sample.group_path@[j])@,
            selected_categories(selected, categories),
            false,
            manual,
        ) is None,
    ensures
        classify_spec(sample, selected, categories, MatchMode::UseGroups, manual) == classify_spec(
            sample,
            selected,
            categories,
            MatchMode::AutoDetect,
            manual,
        ),
{
    let cats = selected_categories(selected, categories);
    let g = sample.group_path@;
    let n = g.len();
    let rg = views(g).reverse();
    let off: int = if sample.track_name is Some { 1 } else { 0 };
    let chain = group_chain(sample);
    assert forall|j: int| 0 <= j < chain.len() implies match_name(#[trigger] chain[j], cats, false, manual) is None by {
        if j < off {
            assert(chain[0] == sample.track_name.unwrap()@);
        } else {
            assert(rg[j - off] == views(g)[n - 1 - (j - off)]);
            assert(chain[j] == g[n - 1 - (j - off)]@);
            assert(match_name(g[n - 1 - (j - off)]@, cats, false, manual) is None);
        }
    }
    lemma_first_chain_none(chain, cats, manual);
}

} // verus!
