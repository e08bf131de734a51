//! Project discovery: which folders are Ableton projects, and which `.als`
//! file stands for each.
//!
//! A folder is a project when it holds an `.als` file directly, and it is
//! not itself a `Backup` folder. Walking the file system is the caller's
//! part; the choices are made here: which folders to skip, which set to
//! take in a folder, and how the folders found are ordered, de-duplicated
//! and reduced to the outermost ones.

use vstd::prelude::*;
use crate::error::ScanError;
use crate::paths::{
    extension, extension_of, file_name, file_name_of, file_stem, file_stem_of, lemma_path_less_order,
    path_equal, path_less, path_lt, path_starts_with, paths_equal, starts_with_path,
};
use crate::text::{
    chars_eq, chars_eq_ignore_ascii_case, chars_of, eq_ignore_ascii_case, lowercase, lowercase_of,
};

verus! {

/// A discovered project: the project folder and the `.als` at its root.
#[derive(Debug, Clone)]
pub struct DiscoveredProject {
    pub project_dir: String,
    pub als_path: String,
}

/// Mathematical form of a discovered project.
pub struct DiscView {
    pub project_dir: Seq<char>,
    pub als_path: Seq<char>,
}

impl View for DiscoveredProject {
    type V = DiscView;

    open spec fn view(&self) -> DiscView {
        DiscView { project_dir: self.project_dir@, als_path: self.als_path@ }
    }
}

/// The views of a sequence of projects.
pub open spec fn disc_views(v: Seq<DiscoveredProject>) -> Seq<DiscView> {
    v.map_values(|p: DiscoveredProject| p@)
}

fn copy_project(p: &DiscoveredProject) -> (r: DiscoveredProject)
    ensures
        r@ == p@,
{
    DiscoveredProject { project_dir: p.project_dir.clone(), als_path: p.als_path.clone() }
}

// ---------------------------------------------------------------------------
// Folders to skip
// ---------------------------------------------------------------------------

/// A directory named `Backup`, in any ASCII case.
pub open spec fn is_backup_spec(is_dir: bool, name: Option<Seq<char>>) -> bool {
    is_dir && match name {
        Some(n) => eq_ignore_ascii_case(n, "Backup"@),
        None => false,
    }
}

/// Whether a walked entry is a `Backup` folder, which is skipped with all
/// it holds. `name` is the entry's file name, `None` when it is not valid
/// Unicode.
pub fn is_backup_dir(is_dir: bool, name: &Option<String>) -> (r: bool)
    ensures
        r == is_backup_spec(is_dir, match name {
            Some(n) => Some(n@),
            None => None,
        }),
{
    if !is_dir {
        return false;
    }
    match name {
        Some(n) => {
            let a = chars_of(n.as_str());
            let b = chars_of("Backup");
            chars_eq_ignore_ascii_case(&a, &b)
        },
        None => false,
    }
}

// ---------------------------------------------------------------------------
// The set of a folder
// ---------------------------------------------------------------------------

/// A candidate set: a file whose extension is `als` in any ASCII case.
pub open spec fn is_als_candidate(path: Seq<char>, is_file: bool) -> bool {
    is_file && match extension_of(path) {
        Some(e) => eq_ignore_ascii_case(e, "als"@),
        None => false,
    }
}

/// The folder's name, lower-cased (empty when it has none).
pub open spec fn folder_key(dir: Seq<char>) -> Seq<char> {
    lowercase_of(
        match file_name_of(dir) {
            Some(n) => n,
            None => Seq::empty(),
        },
    )
}

/// The set's stem, lower-cased, equals the folder key.
pub open spec fn stem_matches(path: Seq<char>, key: Seq<char>) -> bool {
    match file_stem_of(path) {
        Some(s) => lowercase_of(s) == key,
        None => false,
    }
}

/// `a` comes before `b` among the candidates: a set named after its folder
/// first, then by path.
pub open spec fn als_before(a: Seq<char>, b: Seq<char>, key: Seq<char>) -> bool {
    (stem_matches(a, key) && !stem_matches(b, key)) || (stem_matches(a, key) == stem_matches(b, key)
        && path_less(a, b))
}

/// The candidate paths among the entries, in the order given.
pub open spec fn als_candidates(entries: Seq<(Seq<char>, bool)>) -> Seq<Seq<char>>
    decreases entries.len(),
{
    if entries.len() == 0 {
        Seq::empty()
    } else {
        let rest = als_candidates(entries.drop_last());
        if is_als_candidate(entries.last().0, entries.last().1) {
            rest.push(entries.last().0)
        } else {
            rest
        }
    }
}

/// `i` is the first candidate that no other comes before: the one a stable
/// sort puts first.
pub open spec fn is_first_als(c: Seq<Seq<char>>, key: Seq<char>, i: int) -> bool {
    &&& 0 <= i < c.len()
    &&& forall|j: int| 0 <= j < c.len() ==> !als_before(#[trigger] c[j], c[i], key)
    &&& forall|j: int| 0 <= j < i ==> als_before(c[i], #[trigger] c[j], key)
}

proof fn lemma_als_before_order(a: Seq<char>, b: Seq<char>, c: Seq<char>, key: Seq<char>)
    ensures
        !als_before(a, a, key),
        als_before(a, b, key) && als_before(b, c, key) ==> als_before(a, c, key),
        als_before(a, b, key) && !als_before(c, b, key) ==> als_before(a, c, key),
{
    lemma_path_less_order(a, b, c);
    lemma_path_less_order(c, a, b);
    lemma_path_less_order(a, c, b);
    lemma_path_less_order(b, c, a);
}

/// The `.als` that stands for folder `dir`, given the entries directly in
/// it (each path with whether it is a file): among the files whose
/// extension is `als` (any ASCII case), one whose stem, lower-cased, is
/// the folder's lower-cased name is preferred; then the first by path.
/// `None` when there is no such file.
pub fn first_root_als(dir: &str, entries: &Vec<(String, bool)>) -> (r: Option<String>)
    ensures
        ({
            let c = als_candidates(entries@.map_values(|e: (String, bool)| (e.0@, e.1)));
            match r {
                None => c.len() == 0,
                Some(p) => exists|i: int| is_first_als(c, folder_key(dir@), i) && #[trigger] c[i] == p@,
            }
        }),
{
    let ghost ev = entries@.map_values(|e: (String, bool)| (e.0@, e.1));
    // The candidates, in order.
    let mut cands: Vec<String> = Vec::new();
    let mut i: usize = 0;
    while i < entries.len()
        invariant
            i <= entries@.len(),
            ev == entries@.map_values(|e: (String, bool)| (e.0@, e.1)),
            cands@.map_values(|s: String| s@) =~= als_candidates(ev.take(i as int)),
        decreases entries.len() - i,
    {
        let ghost before = cands@.map_values(|s: String| s@);
        assert(ev.take(i + 1).drop_last() =~= ev.take(i as int));
        assert(ev.take(i + 1).last() == ev[i as int]);
        let p = &entries[i].0;
        let is_file = entries[i].1;
        let keep = if is_file {
            match extension(p.as_str()) {
                Some(e) => {
                    let ec = chars_of(e.as_str());
                    let als = chars_of("als");
                    chars_eq_ignore_ascii_case(&ec, &als)
                },
                None => false,
            }
        } else {
            false
        };
        if keep {
            cands.push(p.clone());
            assert(cands@.map_values(|s: String| s@) =~= before.push(p@));
        }
        i = i + 1;
    }
    assert(ev.take(entries@.len() as int) =~= ev);
    let ghost c = cands@.map_values(|s: String| s@);
    if cands.len() == 0 {
        return None;
    }
    let folder = match file_name(dir) {
        Some(n) => n,
        None => String::new(),
    };
    let key = chars_of(lowercase(folder.as_str()).as_str());
    let ghost k = folder_key(dir@);
    assert(key@ == k);
    let mut best: usize = 0;
    let mut best_match = stem_match_exec(&cands[0], &key);
    let mut j: usize = 1;
    assert(c[0] == cands@[0]@);
    proof {
        lemma_als_before_order(c[0], c[0], c[0], k);
    }
    while j < cands.len()
        invariant
            1 <= j <= cands@.len(),
            c == cands@.map_values(|s: String| s@),
            key@ == k,
            best < j,
            best_match == stem_matches(c[best as int], k),
            forall|m: int| 0 <= m < j ==> !als_before(#[trigger] c[m], c[best as int], k),
            forall|m: int| 0 <= m < best ==> als_before(c[best as int], #[trigger] c[m], k),
        decreases cands.len() - j,
    {
        let mj = stem_match_exec(&cands[j], &key);
        assert(c[j as int] == cands@[j as int]@);
        assert(c[best as int] == cands@[best as int]@);
        let earlier = (mj && !best_match) || (mj == best_match && path_lt(cands[j].as_str(), cands[best].as_str()));
        let ghost ob = best as int;
        if earlier {
            proof {
                assert forall|m: int| 0 <= m <= j implies !als_before(#[trigger] c[m], c[j as int], k) by {
                    lemma_als_before_order(c[m], c[j as int], c[ob], k);
                    lemma_als_before_order(c[j as int], c[j as int], c[j as int], k);
                }
                assert forall|m: int| 0 <= m < j implies als_before(c[j as int], #[trigger] c[m], k) by {
                    lemma_als_before_order(c[j as int], c[ob], c[m], k);
                    lemma_als_before_order(c[j as int], c[ob], c[ob], k);
                }
            }
            best = j;
            best_match = mj;
        } else {
            assert(!als_before(c[j as int], c[ob], k));
        }
        j = j + 1;
    }
    assert(is_first_als(c, k, best as int));
    Some(cands[best].clone())
}

fn stem_match_exec(p: &String, key: &Vec<char>) -> (r: bool)
    ensures
        r == stem_matches(p@, key@),
{
    match file_stem(p.as_str()) {
        Some(s) => {
            let l = chars_of(lowercase(s.as_str()).as_str());
            chars_eq(&l, key)
        },
        None => false,
    }
}

// ---------------------------------------------------------------------------
// Ordering, de-duplication, nesting
// ---------------------------------------------------------------------------

/// `perm` maps each position of `r` to the position of `s` it came from;
/// `r` is ordered by folder path, and folders with equal paths keep their
/// order: `r` is `s` after a stable sort by folder.
pub open spec fn is_dir_permutation(r: Seq<DiscView>, s: Seq<DiscView>, perm: Seq<int>) -> bool {
    &&& r.len() == s.len()
    &&& perm.len() == s.len()
    &&& forall|i: int| 0 <= i < r.len() ==> 0 <= #[trigger] perm[i] < s.len() && r[i] == s[perm[i]]
    &&& forall|i: int, j: int| 0 <= i < j < r.len() ==> #[trigger] perm[i] != #[trigger] perm[j]
    &&& forall|i: int, j: int|
        0 <= i < j < r.len() ==> !path_less(#[trigger] r[j].project_dir, #[trigger] r[i].project_dir)
    &&& forall|i: int, j: int|
        0 <= i < j < r.len() && path_equal(#[trigger] r[i].project_dir, #[trigger] r[j].project_dir) ==> perm[i]
            < perm[j]
}

/// `r` is `s` stably sorted by folder.
pub open spec fn is_dir_order(r: Seq<DiscView>, s: Seq<DiscView>) -> bool {
    exists|perm: Seq<int>| is_dir_permutation(r, s, perm)
}

/// Stable sort by folder path (`PathBuf`'s order).
pub fn sort_projects(v: &Vec<DiscoveredProject>) -> (r: Vec<DiscoveredProject>)
    ensures
        is_dir_order(disc_views(r@), disc_views(v@)),
{
    let ghost s = disc_views(v@);
    let mut out: Vec<DiscoveredProject> = Vec::new();
    let ghost mut perm: Seq<int> = Seq::empty();
    let mut k: usize = 0;
    assert(s.take(0) =~= Seq::<DiscView>::empty());
    while k < v.len()
        invariant
            k <= v@.len(),
            s == disc_views(v@),
            is_dir_permutation(disc_views(out@), s.take(k as int), perm),
        decreases v.len() - k,
    {
        let x = copy_project(&v[k]);
        let ghost xs = x@;
        assert(xs == s[k as int]);
        let ghost ov = disc_views(out@);
        let mut p: usize = 0;
        while p < out.len() && !path_lt(x.project_dir.as_str(), out[p].project_dir.as_str())
            invariant
                p <= out@.len(),
                ov == disc_views(out@),
                xs == x@,
                forall|i: int| 0 <= i < p ==> !path_less(xs.project_dir, #[trigger] ov[i].project_dir),
            decreases out@.len() - p,
        {
            assert(ov[p as int] == out@[p as int]@);
            p = p + 1;
        }
        if p < out.len() {
            assert(ov[p as int] == out@[p as int]@);
        }
        let ghost old_perm = perm;
        out.insert(p, x);
        proof {
            let nv = disc_views(out@);
            assert(nv =~= ov.take(p as int).push(xs) + ov.skip(p as int));
            perm = old_perm.take(p as int).push(k as int) + old_perm.skip(p as int);
            let sk = s.take(k + 1);
            assert(sk[k as int] == xs);
            assert forall|i: int| 0 <= i < nv.len() implies 0 <= #[trigger] perm[i] < sk.len() && nv[i] == sk[perm[i]] by {
                if i < p {
                    assert(nv[i] == ov[i]);
                    assert(perm[i] == old_perm[i]);
                } else if i > p {
                    assert(nv[i] == ov[i - 1]);
                    assert(perm[i] == old_perm[i - 1]);
                }
            }
            assert forall|i: int, j: int| 0 <= i < j < nv.len() implies #[trigger] perm[i] != #[trigger] perm[j] by {
                if i != p && j != p {
                    let oi = if i < p { i } else { i - 1 };
                    let oj = if j < p { j } else { j - 1 };
                    assert(perm[i] == old_perm[oi]);
                    assert(perm[j] == old_perm[oj]);
                } else if i == p {
                    assert(perm[j] == old_perm[j - 1]);
                } else {
                    assert(perm[i] == old_perm[i]);
                }
            }
            assert forall|i: int, j: int|
                0 <= i < j < nv.len() implies !path_less(#[trigger] nv[j].project_dir, #[trigger] nv[i].project_dir) by {
                if i != p && j != p {
                    let oi = if i < p { i } else { i - 1 };
                    let oj = if j < p { j } else { j - 1 };
                    assert(nv[i] == ov[oi]);
                    assert(nv[j] == ov[oj]);
                } else if i == p {
                    assert(nv[j] == ov[j - 1]);
                    assert(path_less(xs.project_dir, ov[p as int].project_dir));
                    lemma_path_less_order(ov[j - 1].project_dir, xs.project_dir, ov[p as int].project_dir);
                    lemma_path_less_order(xs.project_dir, ov[p as int].project_dir, ov[j - 1].project_dir);
                    lemma_path_less_order(ov[j - 1].project_dir, ov[p as int].project_dir, xs.project_dir);
                } else {
                    assert(nv[i] == ov[i]);
                }
            }
            assert forall|i: int, j: int|
                0 <= i < j < nv.len() && path_equal(#[trigger] nv[i].project_dir, #[trigger] nv[j].project_dir) implies perm[i]
                < perm[j] by {
                if i != p && j != p {
                    let oi = if i < p { i } else { i - 1 };
                    let oj = if j < p { j } else { j - 1 };
                    assert(nv[i] == ov[oi]);
                    assert(nv[j] == ov[oj]);
                    assert(perm[i] == old_perm[oi]);
                    assert(perm[j] == old_perm[oj]);
                } else if i == p {
                    assert(nv[j] == ov[j - 1]);
                    assert(path_less(xs.project_dir, ov[p as int].project_dir));
                    lemma_path_less_order(xs.project_dir, ov[j - 1].project_dir, ov[p as int].project_dir);
                    lemma_path_less_order(ov[j - 1].project_dir, ov[p as int].project_dir, xs.project_dir);
                    lemma_path_less_order(xs.project_dir, ov[p as int].project_dir, ov[j - 1].project_dir);
                } else {
                    assert(perm[i] == old_perm[i]);
                    assert(perm[i] < k);
                }
            }
        }
        k = k + 1;
    }
    assert(s.take(v@.len() as int) =~= s);
    out
}

/// Consecutive projects with equal folders reduced to the first of them.
pub open spec fn dedup_dirs(s: Seq<DiscView>) -> Seq<DiscView>
    decreases s.len(),
{
    if s.len() == 0 {
        s
    } else {
        let d = dedup_dirs(s.drop_last());
        if d.len() > 0 && path_equal(s.last().project_dir, d.last().project_dir) {
            d
        } else {
            d.push(s.last())
        }
    }
}

/// Removes all but the first of consecutive projects with equal folders.
pub fn dedup_projects(v: &Vec<DiscoveredProject>) -> (r: Vec<DiscoveredProject>)
    ensures
        disc_views(r@) == dedup_dirs(disc_views(v@)),
{
    let ghost s = disc_views(v@);
    let mut out: Vec<DiscoveredProject> = Vec::new();
    let mut i: usize = 0;
    assert(s.take(0) =~= Seq::<DiscView>::empty());
    while i < v.len()
        invariant
            i <= v@.len(),
            s == disc_views(v@),
            disc_views(out@) == dedup_dirs(s.take(i as int)),
        decreases v.len() - i,
    {
        assert(s.take(i + 1).drop_last() =~= s.take(i as int));
        assert(s.take(i + 1).last() == v@[i as int]@);
        let ghost before = disc_views(out@);
        let dup = out.len() > 0 && paths_equal(v[i].project_dir.as_str(), out[out.len() - 1].project_dir.as_str());
        if out.len() > 0 {
            assert(before.last() == out@[out@.len() - 1]@);
        }
        if !dup {
            out.push(copy_project(&v[i]));
            assert(disc_views(out@) =~= before.push(v@[i as int]@));
        }
        i = i + 1;
    }
    assert(s.take(v@.len() as int) =~= s);
    out
}

/// `p`'s folder lies strictly inside `q`'s.
pub open spec fn nested_in(p: DiscView, q: DiscView) -> bool {
    !path_equal(q.project_dir, p.project_dir) && path_starts_with(p.project_dir, q.project_dir)
}

/// No project of `s` holds `p`'s folder strictly inside its own.
pub open spec fn is_outermost(s: Seq<DiscView>, p: DiscView) -> bool {
    forall|j: int| 0 <= j < s.len() ==> !nested_in(p, #[trigger] s[j])
}

/// The projects of `s` that no other project of `s` contains, in order.
pub open spec fn outermost(s: Seq<DiscView>) -> Seq<DiscView> {
    s.filter(|p: DiscView| is_outermost(s, p))
}

/// Drops every project whose folder lies strictly inside another's.
pub fn drop_nested(v: &Vec<DiscoveredProject>) -> (r: Vec<DiscoveredProject>)
    ensures
        disc_views(r@) == outermost(disc_views(v@)),
{
    let ghost s = disc_views(v@);
    let ghost f = |p: DiscView| is_outermost(s, p);
    let mut out: Vec<DiscoveredProject> = Vec::new();
    let mut i: usize = 0;
    assert(s.take(0) =~= Seq::<DiscView>::empty());
    while i < v.len()
        invariant
            i <= v@.len(),
            s == disc_views(v@),
            f == (|p: DiscView| is_outermost(s, p)),
            disc_views(out@) == s.take(i as int).filter(f),
        decreases v.len() - i,
    {
        assert(s.take(i + 1).drop_last() =~= s.take(i as int));
        let ghost pv = v@[i as int]@;
        assert(s.take(i + 1).last() == pv);
        let mut nested = false;
        let mut j: usize = 0;
        while j < v.len() && !nested
            invariant
                j <= v@.len(),
                s == disc_views(v@),
                pv == v@[i as int]@,
                i < v@.len(),
                nested ==> !is_outermost(s, pv),
                !nested ==> forall|m: int| 0 <= m < j ==> !nested_in(pv, #[trigger] s[m]),
            decreases v.len() - j + (if nested { 0int } else { 1int }),
        {
            let a = &v[i].project_dir;
            let b = &v[j].project_dir;
            if !paths_equal(b.as_str(), a.as_str()) && starts_with_path(a.as_str(), b.as_str()) {
                assert(nested_in(pv, s[j as int]));
                nested = true;
            } else {
                j = j + 1;
            }
        }
        let ghost before = disc_views(out@);
        proof {
            reveal(Seq::filter);
            assert(s.take(i + 1).filter(f) == if f(pv) {
                s.take(i as int).filter(f).push(pv)
            } else {
                s.take(i as int).filter(f)
            });
        }
        if !nested {
            out.push(copy_project(&v[i]));
            assert(disc_views(out@) =~= before.push(pv));
        }
        i = i + 1;
    }
    assert(s.take(v@.len() as int) =~= s);
    out
}

/// The projects found under one folder, ordered by folder, each folder
/// once, folders inside another project's folder dropped.
pub open spec fn organized(sorted: Seq<DiscView>) -> Seq<DiscView> {
    outermost(dedup_dirs(sorted))
}

/// Discovery under `root`: `PathNotFound` when it does not exist,
/// `NotADirectory` when it is not a folder; otherwise the projects `found`
/// by the walk (each folder holding an `.als` directly, `Backup` folders
/// skipped), stably sorted by folder, consecutive equal folders reduced to
/// the first, and folders lying strictly inside another project's folder
/// dropped.
pub fn discover_projects(root: &str, exists: bool, is_dir: bool, found: &Vec<DiscoveredProject>) -> (r: Result<Vec<DiscoveredProject>, ScanError>)
    ensures
        !exists ==> (r matches Err(ScanError::PathNotFound(p)) && p@ == root@),
        exists && !is_dir ==> (r matches Err(ScanError::NotADirectory(p)) && p@ == root@),
        exists && is_dir ==> (r matches Ok(v) && exists|sorted: Seq<DiscView>|
            is_dir_order(sorted, disc_views(found@)) && disc_views(v@) == #[trigger] organized(sorted)),
{
    if !exists {
        return Err(ScanError::PathNotFound(String::from_str(root)));
    }
    if !is_dir {
        return Err(ScanError::NotADirectory(String::from_str(root)));
    }
    let sorted = sort_projects(found);
    let deduped = dedup_projects(&sorted);
    let kept = drop_nested(&deduped);
    assert(disc_views(kept@) == organized(disc_views(sorted@)));
    Ok(kept)
}

/// The first failed discovery, if any.
pub open spec fn first_error(rs: Seq<Result<Vec<DiscoveredProject>, ScanError>>) -> Option<int>
    decreases rs.len(),
{
    if rs.len() == 0 {
        None
    } else {
        match first_error(rs.drop_last()) {
            Some(i) => Some(i),
            None => if rs.last() is Err {
                Some(rs.len() - 1)
            } else {
                None
            },
        }
    }
}

/// All projects of successful discoveries, in order.
pub open spec fn all_found(rs: Seq<Result<Vec<DiscoveredProject>, ScanError>>) -> Seq<DiscView>
    decreases rs.len(),
{
    if rs.len() == 0 {
        Seq::empty()
    } else {
        all_found(rs.drop_last()) + match rs.last() {
            Ok(v) => disc_views(v@),
            Err(_) => Seq::empty(),
        }
    }
}

/// Discovery from several folders, given the outcome for each in order:
/// the first error, if one failed; otherwise all the projects found,
/// stably sorted by folder, consecutive equal folders reduced to the
/// first.
pub fn discover_from_many(per_root: Vec<Result<Vec<DiscoveredProject>, ScanError>>) -> (r: Result<Vec<DiscoveredProject>, ScanError>)
    ensures
        match first_error(per_root@) {
            Some(i) => r matches Err(e) && per_root@[i] == Err::<Vec<DiscoveredProject>, ScanError>(e),
            None => r matches Ok(v) && exists|sorted: Seq<DiscView>|
                is_dir_order(sorted, all_found(per_root@)) && disc_views(v@) == #[trigger] dedup_dirs(sorted),
        },
{
    let ghost rs = per_root@;
    let mut all: Vec<DiscoveredProject> = Vec::new();
    let mut i: usize = 0;
    assert(rs.take(0) =~= Seq::<Result<Vec<DiscoveredProject>, ScanError>>::empty());
    while i < per_root.len()
        invariant
            i <= rs.len(),
            rs == per_root@,
            first_error(rs.take(i as int)) is None,
            disc_views(all@) == all_found(rs.take(i as int)),
        decreases per_root.len() - i,
    {
        assert(rs.take(i + 1).drop_last() =~= rs.take(i as int));
        assert(rs.take(i + 1).last() == rs[i as int]);
        if per_root[i].is_err() {
            let mut rest = per_root;
            let e = rest.remove(i);
            assert(first_error(rs) == Some(i as int)) by {
                lemma_first_error_prefix(rs, i as int + 1);
            }
            match e {
                Err(err) => {
                    return Err(err);
                },
                Ok(_) => {
                    assert(false);
                    return Ok(Vec::new());
                },
            }
        }
        match &per_root[i] {
            Ok(v) => {
                let mut j: usize = 0;
                let ghost before = disc_views(all@);
                while j < v.len()
                    invariant
                        j <= v@.len(),
                        disc_views(all@) == before + disc_views(v@).take(j as int),
                    decreases v.len() - j,
                {
                    let ghost b2 = disc_views(all@);
                    all.push(copy_project(&v[j]));
                    assert(disc_views(all@) =~= b2.push(v@[j as int]@));
                    assert(disc_views(v@).take(j + 1) =~= disc_views(v@).take(j as int).push(v@[j as int]@));
                    j = j + 1;
                }
                assert(disc_views(v@).take(v@.len() as int) =~= disc_views(v@));
            },
            Err(_) => {},
        }
        i = i + 1;
    }
    assert(rs.take(rs.len() as int) =~= rs);
    let sorted = sort_projects(&all);
    let deduped = dedup_projects(&sorted);
    Ok(deduped)
}

proof fn lemma_first_error_prefix(rs: Seq<Result<Vec<DiscoveredProject>, ScanError>>, k: int)
    requires
        0 <= k <= rs.len(),
        first_error(rs.take(k)) is Some,
    ensures
        first_error(rs) == first_error(rs.take(k)),
    decreases rs.len() - k,
{
    if k < rs.len() {
        assert(rs.take(k + 1).drop_last() =~= rs.take(k));
        lemma_first_error_prefix(rs, k + 1);
    } else {
        assert(rs.take(k) =~= rs);
    }
}


// ---------------------------------------------------------------------------
// Laws
// ---------------------------------------------------------------------------

/// Ordered by folder, equal folders allowed.
pub open spec fn ascending_dirs(s: Seq<DiscView>) -> bool {
    forall|i: int, j: int| 0 <= i < j < s.len() ==> !path_less(#[trigger] s[j].project_dir, #[trigger] s[i].project_dir)
}

/// Strictly ordered by folder.
pub open spec fn strictly_ascending_dirs(s: Seq<DiscView>) -> bool {
    forall|i: int, j: int| 0 <= i < j < s.len() ==> path_less(#[trigger] s[i].project_dir, #[trigger] s[j].project_dir)
}

proof fn lemma_dedup_dirs_strict(s: Seq<DiscView>)
    requires
        ascending_dirs(s),
    ensures
        strictly_ascending_dirs(dedup_dirs(s)),
        s.len() > 0 ==> dedup_dirs(s).len() > 0 && path_equal(dedup_dirs(s).last().project_dir, s.last().project_dir),
        forall|i: int| 0 <= i < dedup_dirs(s).len() ==> exists|k: int| 0 <= k < s.len() && s[k] == #[trigger] dedup_dirs(s)[i],
    decreases s.len(),
{
    if s.len() > 0 {
        let t = s.drop_last();
        assert(ascending_dirs(t)) by {
            assert forall|i: int, j: int| 0 <= i < j < t.len() implies !path_less(#[trigger] t[j].project_dir, #[trigger] t[i].project_dir) by {
                assert(t[i] == s[i] && t[j] == s[j]);
            }
        }
        lemma_dedup_dirs_strict(t);
        let d = dedup_dirs(t);
        let x = s.last();
        if d.len() > 0 && path_equal(x.project_dir, d.last().project_dir) {
            lemma_path_less_order(x.project_dir, d.last().project_dir, x.project_dir);
            assert forall|i: int| 0 <= i < d.len() implies exists|k: int| 0 <= k < s.len() && s[k] == #[trigger] d[i] by {
                let k = choose|k: int| 0 <= k < t.len() && t[k] == d[i];
                assert(s[k] == d[i]);
            }
        } else {
            let d2 = d.push(x);
            if t.len() > 0 {
                let y = t.last();
                assert(y == s[s.len() - 2]);
                assert(!path_less(x.project_dir, y.project_dir));
                lemma_path_less_order(x.project_dir, y.project_dir, x.project_dir);
                lemma_path_less_order(y.project_dir, x.project_dir, y.project_dir);
                assert(path_less(y.project_dir, x.project_dir));
            }
            assert forall|i: int, j: int| 0 <= i < j < d2.len() implies path_less(#[trigger] d2[i].project_dir, #[trigger] d2[j].project_dir) by {
                if j == d2.len() - 1 {
                    assert(d2[j] == x);
                    let y = t.last();
                    if i == d.len() - 1 {
                        assert(d2[i] == d.last());
                    } else {
                        assert(d2[i] == d[i]);
                        assert(path_less(d[i].project_dir, d.last().project_dir));
                        lemma_path_less_order(d[i].project_dir, y.project_dir, x.project_dir);
                    }
                    lemma_path_less_order(d[i].project_dir, y.project_dir, x.project_dir);
                } else {
                    assert(d2[i] == d[i] && d2[j] == d[j]);
                }
            }
            assert forall|i: int| 0 <= i < d2.len() implies exists|k: int| 0 <= k < s.len() && s[k] == #[trigger] d2[i] by {
                if i == d.len() {
                    assert(s[s.len() - 1] == d2[i]);
                } else {
                    let k = choose|k: int| 0 <= k < t.len() && t[k] == d[i];
                    assert(s[k] == d2[i]);
                }
            }
        }
    }
}

proof fn lemma_filter_sub(d: Seq<DiscView>, pred: spec_fn(DiscView) -> bool)
    ensures
        forall|i: int| 0 <= i < d.filter(pred).len() ==> pred(#[trigger] d.filter(pred)[i]) && exists|k: int|
            0 <= k < d.len() && d[k] == d.filter(pred)[i],
        strictly_ascending_dirs(d) ==> strictly_ascending_dirs(d.filter(pred)),
    decreases d.len(),
{
    reveal(Seq::filter);
    if d.len() > 0 {
        let t = d.drop_last();
        lemma_filter_sub(t, pred);
        let ft = t.filter(pred);
        let x = d.last();
        assert forall|i: int| 0 <= i < ft.len() implies exists|k: int| 0 <= k < d.len() && d[k] == #[trigger] ft[i] by {
            let k = choose|k: int| 0 <= k < t.len() && t[k] == ft[i];
            assert(d[k] == ft[i]);
        }
        if pred(x) {
            let f = ft.push(x);
            assert(d.filter(pred) == f);
            assert forall|i: int| 0 <= i < f.len() implies pred(#[trigger] f[i]) && exists|k: int| 0 <= k < d.len() && d[k] == f[i] by {
                if i == ft.len() {
                    assert(d[d.len() - 1] == f[i]);
                } else {
                    assert(f[i] == ft[i]);
                }
            }
            if strictly_ascending_dirs(d) {
                assert(strictly_ascending_dirs(t)) by {
                    assert forall|i: int, j: int| 0 <= i < j < t.len() implies path_less(#[trigger] t[i].project_dir, #[trigger] t[j].project_dir) by {
                        assert(t[i] == d[i] && t[j] == d[j]);
                    }
                }
                assert forall|i: int, j: int| 0 <= i < j < f.len() implies path_less(#[trigger] f[i].project_dir, #[trigger] f[j].project_dir) by {
                    if j == ft.len() {
                        let k = choose|k: int| 0 <= k < t.len() && t[k] == ft[i];
                        assert(f[i] == d[k]);
                        assert(f[j] == d[d.len() - 1]);
                    } else {
                        assert(f[i] == ft[i] && f[j] == ft[j]);
                    }
                }
            }
        } else {
            assert(d.filter(pred) == ft);
            if strictly_ascending_dirs(d) {
                assert(strictly_ascending_dirs(t)) by {
                    assert forall|i: int, j: int| 0 <= i < j < t.len() implies path_less(#[trigger] t[i].project_dir, #[trigger] t[j].project_dir) by {
                        assert(t[i] == d[i] && t[j] == d[j]);
                    }
                }
            }
        }
    }
}

/// Discovery keeps one project per folder and no project inside another:
/// in what `discover_projects` returns, no two projects have equal
/// folders, and no project's folder lies inside another's.
pub proof fn lemma_discovered_distinct_outermost(sorted: Seq<DiscView>, found: Seq<DiscView>)
    requires
        is_dir_order(sorted, found),
    ensures
        forall|i: int, j: int|
            0 <= i < j < organized(sorted).len() ==> !path_equal(
                #[trigger] organized(sorted)[i].project_dir,
                #[trigger] organized(sorted)[j].project_dir,
            ) && !nested_in(organized(sorted)[i], organized(sorted)[j]) && !nested_in(
                organized(sorted)[j],
                organized(sorted)[i],
            ),
{
    let perm = choose|perm: Seq<int>| is_dir_permutation(sorted, found, perm);
    assert(ascending_dirs(sorted));
    lemma_dedup_dirs_strict(sorted);
    let d = dedup_dirs(sorted);
    let pred = |p: DiscView| is_outermost(d, p);
    lemma_filter_sub(d, pred);
    let r = organized(sorted);
    assert(r == d.filter(pred));
    assert forall|i: int, j: int| 0 <= i < j < r.len() implies !path_equal(
        #[trigger] r[i].project_dir,
        #[trigger] r[j].project_dir,
    ) && !nested_in(r[i], r[j]) && !nested_in(r[j], r[i]) by {
        assert(path_less(r[i].project_dir, r[j].project_dir));
        lemma_path_less_order(r[i].project_dir, r[j].project_dir, r[i].project_dir);
        assert(pred(r[i]) && pred(r[j]));
        let ki = choose|k: int| 0 <= k < d.len() && d[k] == r[i];
        let kj = choose|k: int| 0 <= k < d.len() && d[k] == r[j];
        assert(!nested_in(r[i], d[kj]));
        assert(!nested_in(r[j], d[ki]));
    }
}

} // verus!
