//! Artifact filtering, de-duplication and per-sample tallies.
//!
//! Occurrences are clustered in three tiers, cheap to expensive:
//!   1. the same canonical path is the same sample;
//!   2. otherwise only occurrences with the same file name (ignoring case)
//!      and the same file size can be the same sample;
//!   3. among those, equal BLAKE3 content hashes confirm it.
//!
//! The file system facts (canonical path, size, existence) and the file
//! contents are read by the caller; `DedupState::offer` decides, and asks
//! for a content hash when it needs one.

use vstd::prelude::*;
use crate::parse::SampleOccurrence;
use crate::paths::{comp_views, component_names, path_components, path_components_of, path_equal, paths_equal};
use crate::text::{
    chars_eq_ignore_ascii_case, chars_of, contains_chars, contains_seq, copy_opt_string,
    copy_string, eq_ignore_ascii_case, lowercase, lowercase_of, sort_dedup_strings,
    is_sorted_set_of, lemma_str_less_total, str_less, strictly_sorted, string_eq, views,
};
use crate::taxonomy::{lemma_is_sorted_set, lemma_sorted_set_exists, sorted_set};

verus! {

/// One entry per distinct sample.
#[derive(Debug, Clone)]
pub struct UniqueSample {
    pub canonical_path: String,
    pub filename: String,
    pub file_size: Option<u64>,
    pub content_hash: Option<String>,
    pub original_path: Option<String>,
    pub track_name: Option<String>,
    pub category: Option<String>,
    /// Number of distinct projects using the sample.
    pub project_count: u32,
    /// Number of occurrences (clips, take lanes, sampler slots).
    pub clip_count: u32,
    /// Names of the projects using the sample.
    pub projects: Vec<String>,
    /// The file does not exist on disk.
    pub missing: bool,
    /// The file is part of Ableton's factory content or a Live pack.
    pub factory: bool,
}

/// An occurrence with the category it was classified into.
#[derive(Debug, Clone)]
pub struct ClassifiedOccurrence {
    pub occurrence: SampleOccurrence,
    pub category: String,
}

/// Which artifact folders and missing files to keep.
#[derive(Debug, Clone, Copy, PartialEq, Eq, Structural)]
pub struct FilterFlags {
    pub include_freeze: bool,
    pub include_processed: bool,
    pub include_recorded: bool,
    pub include_missing: bool,
}

impl Default for FilterFlags {
    fn default() -> (r: Self)
        ensures
            !r.include_freeze && !r.include_processed && !r.include_recorded && !r.include_missing,
    {
        FilterFlags {
            include_freeze: false,
            include_processed: false,
            include_recorded: false,
            include_missing: false,
        }
    }
}

// ---------------------------------------------------------------------------
// Artifact folders
// ---------------------------------------------------------------------------

/// Some component equals `a`, ignoring ASCII case.
pub open spec fn has_component(cs: Seq<Seq<char>>, a: Seq<char>) -> bool {
    exists|i: int| 0 <= i < cs.len() && eq_ignore_ascii_case(#[trigger] cs[i], a)
}

/// Two consecutive components equal `a` and `b`, ignoring ASCII case.
pub open spec fn has_subpath(cs: Seq<Seq<char>>, a: Seq<char>, b: Seq<char>) -> bool {
    exists|i: int|
        0 <= i && i + 1 < cs.len() && eq_ignore_ascii_case(#[trigger] cs[i], a)
            && eq_ignore_ascii_case(cs[i + 1], b)
}

/// Whether a path lies in one of Live's generated-audio folders that the
/// flags exclude: `Samples/.../Processed/Freeze` (freeze files),
/// `Samples/Processed` (consolidated and cropped audio, freeze excepted) or
/// `Samples/Recorded` (recordings). Freeze is tested before Processed so a
/// freeze path is never treated as processed audio.
pub open spec fn excluded_spec(p: Seq<char>, flags: FilterFlags) -> bool {
    let cs = component_names(path_components_of(p));
    let in_samples = has_component(cs, "Samples"@);
    let freeze = has_subpath(cs, "Processed"@, "Freeze"@);
    ||| in_samples && freeze && !flags.include_freeze
    ||| in_samples && has_subpath(cs, "Samples"@, "Processed"@) && !flags.include_processed
        && !freeze
    ||| in_samples && has_component(cs, "Recorded"@) && has_subpath(cs, "Samples"@, "Recorded"@)
        && !flags.include_recorded
}

fn any_component(cs: &Vec<Vec<char>>, a: &Vec<char>) -> (r: bool)
    ensures
        r == has_component(cs@.map_values(|c: Vec<char>| c@), a@),
{
    let ghost v = cs@.map_values(|c: Vec<char>| c@);
    let mut i: usize = 0;
    while i < cs.len()
        invariant
            i <= cs.len(),
            v == cs@.map_values(|c: Vec<char>| c@),
            forall|k: int| 0 <= k < i ==> !eq_ignore_ascii_case(#[trigger] v[k], a@),
        decreases cs.len() - i,
    {
        if chars_eq_ignore_ascii_case(&cs[i], a) {
            assert(eq_ignore_ascii_case(v[i as int], a@));
            return true;
        }
        i = i + 1;
    }
    false
}

fn any_subpath(cs: &Vec<Vec<char>>, a: &Vec<char>, b: &Vec<char>) -> (r: bool)
    ensures
        r == has_subpath(cs@.map_values(|c: Vec<char>| c@), a@, b@),
{
    let ghost v = cs@.map_values(|c: Vec<char>| c@);
    let mut i: usize = 0;
    while i < cs.len() && i + 1 < cs.len()
        invariant
            v == cs@.map_values(|c: Vec<char>| c@),
            forall|k: int|
                0 <= k < i && k + 1 < v.len() ==> !(eq_ignore_ascii_case(#[trigger] v[k], a@)
                    && eq_ignore_ascii_case(v[k + 1], b@)),
        decreases cs.len() - i,
    {
        if chars_eq_ignore_ascii_case(&cs[i], a) && chars_eq_ignore_ascii_case(&cs[i + 1], b) {
            assert(eq_ignore_ascii_case(v[i as int], a@) && eq_ignore_ascii_case(v[i + 1], b@));
            return true;
        }
        i = i + 1;
    }
    false
}

/// Whether `path` lies in an artifact folder that `flags` exclude.
pub fn is_excluded_artifact(path: &str, flags: &FilterFlags) -> (r: bool)
    ensures
        r == excluded_spec(path@, *flags),
{
    let comps = path_components(path);
    let mut cs: Vec<Vec<char>> = Vec::new();
    let mut i: usize = 0;
    while i < comps.len()
        invariant
            i <= comps.len(),
            cs@.map_values(|c: Vec<char>| c@) == component_names(comp_views(comps@)).take(i as int),
        decreases comps.len() - i,
    {
        let ghost before = cs@;
        let c = chars_of(comps[i].1.as_str());
        cs.push(c);
        assert(cs@ =~= before.push(c));
        assert(cs@.map_values(|c: Vec<char>| c@) =~= before.map_values(|c: Vec<char>| c@).push(c@));
        assert(component_names(comp_views(comps@)).take(i + 1) =~= component_names(comp_views(comps@)).take(i as int).push(comps@[i as int].1@));
        assert(cs@.map_values(|c: Vec<char>| c@) =~= component_names(comp_views(comps@)).take(i + 1));
        i = i + 1;
    }
    assert(component_names(comp_views(comps@)).take(comps.len() as int) =~= component_names(comp_views(comps@)));
    let samples = chars_of("Samples");
    let processed = chars_of("Processed");
    let freeze = chars_of("Freeze");
    let recorded = chars_of("Recorded");
    let in_samples = any_component(&cs, &samples);
    let frozen = any_subpath(&cs, &processed, &freeze);
    if in_samples && frozen && !flags.include_freeze {
        return true;
    }
    if in_samples && any_subpath(&cs, &samples, &processed) && !flags.include_processed && !frozen {
        return true;
    }
    if in_samples && any_component(&cs, &recorded) && any_subpath(&cs, &samples, &recorded)
        && !flags.include_recorded {
        return true;
    }
    false
}

/// Every flag of `a` that is set is set in `b` too.
pub open spec fn flags_within(a: FilterFlags, b: FilterFlags) -> bool {
    &&& a.include_freeze ==> b.include_freeze
    &&& a.include_processed ==> b.include_processed
    &&& a.include_recorded ==> b.include_recorded
}

/// Opting in to more artifact folders never excludes a path that fewer
/// opt-ins kept.
pub proof fn lemma_exclusion_monotone(p: Seq<char>, a: FilterFlags, b: FilterFlags)
    requires
        flags_within(a, b),
    ensures
        excluded_spec(p, b) ==> excluded_spec(p, a),
{
}

/// With every opt-in set, no path is excluded.
pub proof fn lemma_all_opt_ins_keep_everything(p: Seq<char>, f: FilterFlags)
    requires
        f.include_freeze && f.include_processed && f.include_recorded,
    ensures
        !excluded_spec(p, f),
{
}

/// Consolidated and cropped audio is left out unless opted in: with
/// `include_processed` off, a path with consecutive components
/// `Samples/Processed` (any ASCII case) and no `Processed/Freeze` pair is
/// excluded, whatever lies below `Processed`.
pub proof fn lemma_processed_excluded(p: Seq<char>, flags: FilterFlags, i: int)
    requires
        !flags.include_processed,
        0 <= i && i + 1 < component_names(path_components_of(p)).len(),
        eq_ignore_ascii_case(component_names(path_components_of(p))[i], "Samples"@),
        eq_ignore_ascii_case(component_names(path_components_of(p))[i + 1], "Processed"@),
        forall|j: int| 0 <= j && j + 1 < component_names(path_components_of(p)).len() ==> !(eq_ignore_ascii_case(
            #[trigger] component_names(path_components_of(p))[j],
            "Processed"@,
        ) && eq_ignore_ascii_case(component_names(path_components_of(p))[j + 1], "Freeze"@)),
    ensures
        excluded_spec(p, flags),
{
    let cs = component_names(path_components_of(p));
    assert(has_component(cs, "Samples"@));
    assert(has_subpath(cs, "Samples"@, "Processed"@));
}

/// Freeze files are left out unless opted in: with `include_freeze` off, a
/// path under a `Samples` component with consecutive components
/// `Processed/Freeze` (any ASCII case) is excluded.
pub proof fn lemma_freeze_excluded(p: Seq<char>, flags: FilterFlags, k: int, i: int)
    requires
        !flags.include_freeze,
        0 <= k < component_names(path_components_of(p)).len(),
        eq_ignore_ascii_case(component_names(path_components_of(p))[k], "Samples"@),
        0 <= i && i + 1 < component_names(path_components_of(p)).len(),
        eq_ignore_ascii_case(component_names(path_components_of(p))[i], "Processed"@),
        eq_ignore_ascii_case(component_names(path_components_of(p))[i + 1], "Freeze"@),
    ensures
        excluded_spec(p, flags),
{
    let cs = component_names(path_components_of(p));
    assert(has_component(cs, "Samples"@));
    assert(has_subpath(cs, "Processed"@, "Freeze"@));
}

/// Recordings are left out unless opted in: with `include_recorded` off, a
/// path with consecutive components `Samples/Recorded` (any ASCII case) is
/// excluded.
pub proof fn lemma_recorded_excluded(p: Seq<char>, flags: FilterFlags, i: int)
    requires
        !flags.include_recorded,
        0 <= i && i + 1 < component_names(path_components_of(p)).len(),
        eq_ignore_ascii_case(component_names(path_components_of(p))[i], "Samples"@),
        eq_ignore_ascii_case(component_names(path_components_of(p))[i + 1], "Recorded"@),
    ensures
        excluded_spec(p, flags),
{
    let cs = component_names(path_components_of(p));
    assert(has_component(cs, "Samples"@));
    assert(has_component(cs, "Recorded"@));
    assert(has_subpath(cs, "Samples"@, "Recorded"@));
}

/// A freeze file is never taken for processed audio: with `include_freeze`
/// on, a path with consecutive components `Processed/Freeze` (any ASCII
/// case) is kept unless it is also a recording that the flags leave out.
pub proof fn lemma_freeze_kept_when_opted_in(p: Seq<char>, flags: FilterFlags, i: int)
    requires
        flags.include_freeze,
        0 <= i && i + 1 < component_names(path_components_of(p)).len(),
        eq_ignore_ascii_case(component_names(path_components_of(p))[i], "Processed"@),
        eq_ignore_ascii_case(component_names(path_components_of(p))[i + 1], "Freeze"@),
        flags.include_recorded || forall|j: int| 0 <= j && j + 1 < component_names(path_components_of(p)).len()
            ==> !(eq_ignore_ascii_case(#[trigger] component_names(path_components_of(p))[j], "Samples"@)
            && eq_ignore_ascii_case(component_names(path_components_of(p))[j + 1], "Recorded"@)),
    ensures
        !excluded_spec(p, flags),
{
    let cs = component_names(path_components_of(p));
    assert(has_subpath(cs, "Processed"@, "Freeze"@));
}

/// Only paths under a `Samples` component (any ASCII case) are ever
/// excluded.
pub proof fn lemma_excluded_only_under_samples(p: Seq<char>, flags: FilterFlags)
    requires
        excluded_spec(p, flags),
    ensures
        exists|k: int| 0 <= k < component_names(path_components_of(p)).len() && eq_ignore_ascii_case(
            #[trigger] component_names(path_components_of(p))[k],
            "Samples"@,
        ),
{
}

/// Keeps the occurrences whose path is not in an excluded artifact folder.
pub fn filter_artifact_folders(occurrences: Vec<ClassifiedOccurrence>, flags: &FilterFlags) -> (r: Vec<ClassifiedOccurrence>)
    ensures
        r@ == occurrences@.filter(|c: ClassifiedOccurrence| !excluded_spec(c.occurrence.path@, *flags)),
{
    let ghost pred = |c: ClassifiedOccurrence| !excluded_spec(c.occurrence.path@, *flags);
    let ghost all = occurrences@;
    let mut rest = occurrences;
    let mut kept_rev: Vec<ClassifiedOccurrence> = Vec::new();
    // Take from the back, keep what passes, then restore the order.
    while rest.len() > 0
        invariant
            pred == (|c: ClassifiedOccurrence| !excluded_spec(c.occurrence.path@, *flags)),
            rest@ == all.take(rest@.len() as int),
            rest@.len() <= all.len(),
            kept_rev@.reverse() == all.skip(rest@.len() as int).filter(pred),
        decreases rest@.len(),
    {
        let n = rest.len();
        let c = rest.pop().unwrap();
        proof {
            reveal_with_fuel(Seq::filter, 1);
            assert(rest@ =~= all.take(n - 1));
            assert(c == all[n - 1]);
            let tail = all.skip(n - 1);
            assert(tail =~= seq![c] + all.skip(n as int));
        }
        if !is_excluded_artifact(c.occurrence.path.as_str(), flags) {
            let ghost before = kept_rev@;
            kept_rev.push(c);
            proof {
                let tail = all.skip(n - 1);
                assert(kept_rev@.reverse() =~= seq![c] + before.reverse());
                assert(tail.filter(pred) =~= seq![c] + all.skip(n as int).filter(pred)) by {
                    assert(tail =~= seq![c] + all.skip(n as int));
                    Seq::filter_distributes_over_add(seq![c], all.skip(n as int), pred);
                    assert(seq![c].filter(pred) =~= seq![c]) by {
                        reveal_with_fuel(Seq::filter, 2);
                        assert(seq![c].drop_last() =~= Seq::<ClassifiedOccurrence>::empty());
                    }
                }
            }
        } else {
            proof {
                let tail = all.skip(n - 1);
                assert(tail.filter(pred) =~= all.skip(n as int).filter(pred)) by {
                    assert(tail =~= seq![c] + all.skip(n as int));
                    Seq::filter_distributes_over_add(seq![c], all.skip(n as int), pred);
                    assert(seq![c].filter(pred) =~= Seq::<ClassifiedOccurrence>::empty()) by {
                        reveal_with_fuel(Seq::filter, 2);
                        assert(seq![c].drop_last() =~= Seq::<ClassifiedOccurrence>::empty());
                    }
                }
            }
        }
    }
    assert(all.skip(0) =~= all);
    let mut out: Vec<ClassifiedOccurrence> = Vec::new();
    let ghost target = kept_rev@.reverse();
    while kept_rev.len() > 0
        invariant
            out@ + kept_rev@.reverse() == target,
        decreases kept_rev@.len(),
    {
        let ghost before_k = kept_rev@;
        let ghost before_o = out@;
        let c = kept_rev.pop().unwrap();
        out.push(c);
        assert(before_k.reverse() =~= seq![c] + kept_rev@.reverse());
        assert(out@ + kept_rev@.reverse() =~= before_o + before_k.reverse());
    }
    assert(kept_rev@.reverse() =~= Seq::<ClassifiedOccurrence>::empty());
    assert(out@ =~= target);
    out
}

// ---------------------------------------------------------------------------
// Factory content
// ---------------------------------------------------------------------------

/// Whether a path lies in Ableton's factory library or in a Live pack
/// (case-insensitively, with either path separator).
pub open spec fn factory_spec(p: Seq<char>) -> bool {
    let s = lowercase_of(p);
    contains_seq(s, "/ableton/factory"@) || contains_seq(s, "\\ableton\\factory"@) || contains_seq(
        s,
        "/live packs/"@,
    ) || contains_seq(s, "\\live packs\\"@)
}

/// Whether `p` lies in Ableton's factory library or in a Live pack.
pub fn is_factory_path(p: &str) -> (r: bool)
    ensures
        r == factory_spec(p@),
{
    let low = lowercase(p);
    let s = chars_of(low.as_str());
    let a = chars_of("/ableton/factory");
    let b = chars_of("\\ableton\\factory");
    let c = chars_of("/live packs/");
    let d = chars_of("\\live packs\\");
    contains_chars(&s, &a) || contains_chars(&s, &b) || contains_chars(&s, &c) || contains_chars(
        &s,
        &d,
    )
}

// ---------------------------------------------------------------------------
// Content hashes
// ---------------------------------------------------------------------------

/// What `blake3::hash(data).to_hex()` gives for the given bytes.
pub uninterp spec fn blake3_hex_of(data: Seq<u8>) -> Seq<char>;

/// `blake3::hash` followed by `Hash::to_hex`: the BLAKE3 digest of the
/// bytes as 64 lower-case hexadecimal digits. The digest itself is named
/// `blake3_hex_of`; its length and alphabet are what the documentation
/// states.
#[verifier::external_body]
fn content_hash(data: &[u8]) -> (r: String)
    ensures
        r@ == blake3_hex_of(data@),
        r@.len() == 64,
        forall|i: int| 0 <= i < 64 ==> ('0' <= #[trigger] r@[i] <= '9' || 'a' <= r@[i] <= 'f'),
{
    blake3::hash(data).to_hex().to_string()
}

/// Records, for the de-duplication, the content hash of the file at
/// `path`: the BLAKE3 digest of `contents` as 64 lower-case hexadecimal
/// digits, or none when the file could not be read.
pub fn record_hash(hashes: &mut Vec<(String, Option<String>)>, path: String, contents: Option<&[u8]>)
    ensures
        final(hashes)@.len() == old(hashes)@.len() + 1,
        final(hashes)@.take(old(hashes)@.len() as int) == old(hashes)@,
        final(hashes)@.last().0@ == path@,
        opt_view(final(hashes)@.last().1) == match contents {
            Some(d) => Some(blake3_hex_of(d@)),
            None => None,
        },
{
    let h = match contents {
        Some(d) => Some(content_hash(d)),
        None => None,
    };
    hashes.push((path, h));
    assert(hashes@.take(old(hashes)@.len() as int) =~= old(hashes)@);
}

// ---------------------------------------------------------------------------
// Merging
// ---------------------------------------------------------------------------

/// Counts one more occurrence of the sample: the clip count grows by one,
/// the project joins the list unless already there, and the track name and
/// original path are taken from the occurrence when still unknown.
pub fn merge_into(u: &mut UniqueSample, c: &ClassifiedOccurrence)
    requires
        old(u).clip_count < u32::MAX,
    ensures
        final(u)@ == merged(old(u)@, *c),
{
    u.clip_count = u.clip_count + 1;
    let mut found = false;
    let mut i: usize = 0;
    while i < u.projects.len()
        invariant
            i <= u.projects.len(),
            found == exists|k: int| 0 <= k < i && views(u.projects@)[k] == c.occurrence.project_name@,
        decreases u.projects.len() - i,
    {
        if !found && string_eq(&u.projects[i], &c.occurrence.project_name) {
            found = true;
            assert(views(u.projects@)[i as int] == c.occurrence.project_name@);
        }
        i = i + 1;
    }
    let ghost before = u.projects@;
    if !found {
        u.projects.push(copy_string(&c.occurrence.project_name));
        assert(views(u.projects@) =~= views(before).push(c.occurrence.project_name@));
    }
    if u.track_name.is_none() {
        u.track_name = copy_opt_string(&c.occurrence.track_name);
    }
    if u.original_path.is_none() {
        u.original_path = copy_opt_string(&c.occurrence.original_path);
    }
    assert(views(u.projects@) =~= merged(old(u)@, *c).projects);
}

} // verus!

verus! {

// ---------------------------------------------------------------------------
// De-duplication
// ---------------------------------------------------------------------------

/// Mathematical form of a `UniqueSample`.
pub struct UniqueView {
    pub canonical_path: Seq<char>,
    pub filename: Seq<char>,
    pub file_size: Option<u64>,
    pub content_hash: Option<Seq<char>>,
    pub original_path: Option<Seq<char>>,
    pub track_name: Option<Seq<char>>,
    pub category: Option<Seq<char>>,
    pub project_count: u32,
    pub clip_count: u32,
    pub projects: Seq<Seq<char>>,
    pub missing: bool,
    pub factory: bool,
}

/// The view of an optional string.
pub open spec fn opt_view(o: Option<String>) -> Option<Seq<char>> {
    match o {
        Some(s) => Some(s@),
        None => None,
    }
}

impl View for UniqueSample {
    type V = UniqueView;

    open spec fn view(&self) -> UniqueView {
        UniqueView {
            canonical_path: self.canonical_path@,
            filename: self.filename@,
            file_size: self.file_size,
            content_hash: opt_view(self.content_hash),
            original_path: opt_view(self.original_path),
            track_name: opt_view(self.track_name),
            category: opt_view(self.category),
            project_count: self.project_count,
            clip_count: self.clip_count,
            projects: views(self.projects@),
            missing: self.missing,
            factory: self.factory,
        }
    }
}

/// The views of a sequence of unique samples.
pub open spec fn unique_views(v: Seq<UniqueSample>) -> Seq<UniqueView> {
    v.map_values(|u: UniqueSample| u@)
}

/// What the caller found on disk for an occurrence's path.
#[derive(Debug, Clone)]
pub struct FileFacts {
    /// The canonical form of the path (the path itself when it cannot be
    /// canonicalized).
    pub canonical_path: String,
    /// The file's size, when its metadata could be read.
    pub size: Option<u64>,
    /// Whether the file exists.
    pub exists: bool,
}

/// Occurrences with the same lower-cased file name and size.
#[derive(Debug)]
pub struct DedupBucket {
    pub name_key: String,
    pub size: Option<u64>,
    pub groups: Vec<UniqueSample>,
}

/// Mathematical form of a bucket.
pub struct BucketView {
    pub name_key: Seq<char>,
    pub size: Option<u64>,
    pub groups: Seq<UniqueView>,
}

impl View for DedupBucket {
    type V = BucketView;

    open spec fn view(&self) -> BucketView {
        BucketView { name_key: self.name_key@, size: self.size, groups: unique_views(self.groups@) }
    }
}

/// The views of a sequence of buckets.
pub open spec fn bucket_views(v: Seq<DedupBucket>) -> Seq<BucketView> {
    v.map_values(|b: DedupBucket| b@)
}

/// `u` after taking in one more occurrence `c`: one more clip, the project
/// added unless already listed, the track name and original path taken
/// from the occurrence when still unknown.
pub open spec fn merged(u: UniqueView, c: ClassifiedOccurrence) -> UniqueView {
    UniqueView {
        clip_count: (u.clip_count + 1) as u32,
        projects: if u.projects.contains(c.occurrence.project_name@) {
            u.projects
        } else {
            u.projects.push(c.occurrence.project_name@)
        },
        track_name: if u.track_name is None {
            opt_view(c.occurrence.track_name)
        } else {
            u.track_name
        },
        original_path: if u.original_path is None {
            opt_view(c.occurrence.original_path)
        } else {
            u.original_path
        },
        ..u
    }
}

/// A new sample for occurrence `c`, before counting it.
pub open spec fn fresh(c: ClassifiedOccurrence, f: FileFacts, hash: Option<Seq<char>>) -> UniqueView {
    UniqueView {
        canonical_path: f.canonical_path@,
        filename: c.occurrence.filename@,
        file_size: f.size,
        content_hash: hash,
        original_path: opt_view(c.occurrence.original_path),
        track_name: opt_view(c.occurrence.track_name),
        category: Some(c.category@),
        project_count: 0,
        clip_count: 0,
        projects: Seq::empty(),
        missing: !f.exists,
        factory: factory_spec(f.canonical_path@),
    }
}

/// First bucket with the key and size.
pub open spec fn find_bucket(bs: Seq<BucketView>, key: Seq<char>, size: Option<u64>) -> Option<int>
    decreases bs.len(),
{
    if bs.len() == 0 {
        None
    } else if bs[0].name_key == key && bs[0].size == size {
        Some(0)
    } else {
        match find_bucket(bs.drop_first(), key, size) {
            Some(i) => Some(i + 1),
            None => None,
        }
    }
}

/// First sample whose canonical path equals `p` (as paths).
pub open spec fn find_group(gs: Seq<UniqueView>, p: Seq<char>) -> Option<int>
    decreases gs.len(),
{
    if gs.len() == 0 {
        None
    } else if path_equal(gs[0].canonical_path, p) {
        Some(0)
    } else {
        match find_group(gs.drop_first(), p) {
            Some(i) => Some(i + 1),
            None => None,
        }
    }
}

/// The content hash the caller reported for path `p` (first report wins):
/// `Some(None)` when hashing it failed.
pub open spec fn hash_lookup(hs: Seq<(String, Option<String>)>, p: Seq<char>) -> Option<Option<Seq<char>>>
    decreases hs.len(),
{
    if hs.len() == 0 {
        None
    } else if hs[0].0@ == p {
        Some(opt_view(hs[0].1))
    } else {
        hash_lookup(hs.drop_first(), p)
    }
}

/// `g` with its content hash filled in when it lacks one and its file
/// exists; `None` when that hash has not been reported.
pub open spec fn refreshed(g: UniqueView, hs: Seq<(String, Option<String>)>) -> Option<UniqueView> {
    if g.content_hash is None && !g.missing {
        match hash_lookup(hs, g.canonical_path) {
            Some(h) => Some(UniqueView { content_hash: h, ..g }),
            None => None,
        }
    } else {
        Some(g)
    }
}

/// Outcome of comparing a new sample's hash against a bucket's samples.
pub enum HashPass {
    /// The content hash of this path is needed first.
    Need(Seq<char>),
    /// Sample `i` has the same content; the samples with hashes filled in.
    Found(int, Seq<UniqueView>),
    /// No sample has the same content; the samples with hashes filled in.
    Missed(Seq<UniqueView>),
}

/// Samples are hashed (when they lack a hash) and compared in order, up to
/// the first with content hash `h`.
pub open spec fn hash_pass(gs: Seq<UniqueView>, h: Seq<char>, hs: Seq<(String, Option<String>)>) -> HashPass
    decreases gs.len(),
{
    if gs.len() == 0 {
        HashPass::Missed(Seq::empty())
    } else {
        match refreshed(gs[0], hs) {
            None => HashPass::Need(gs[0].canonical_path),
            Some(g) => if g.content_hash == Some(h) {
                HashPass::Found(0, seq![g] + gs.drop_first())
            } else {
                match hash_pass(gs.drop_first(), h, hs) {
                    HashPass::Need(p) => HashPass::Need(p),
                    HashPass::Found(j, r) => HashPass::Found(j + 1, seq![g] + r),
                    HashPass::Missed(r) => HashPass::Missed(seq![g] + r),
                }
            },
        }
    }
}

/// Outcome of offering an occurrence.
pub enum Absorbed {
    /// The content hash of this path is needed first.
    Need(Seq<char>),
    /// The buckets after taking the occurrence in (or leaving it out).
    Done(Seq<BucketView>),
}

/// Bucket `b` with its samples replaced.
pub open spec fn with_groups(bs: Seq<BucketView>, b: int, gs: Seq<UniqueView>) -> Seq<BucketView> {
    bs.update(b, BucketView { groups: gs, ..bs[b] })
}

/// How an occurrence is taken in. A missing file is left out unless
/// missing files are included. The occurrence joins the bucket of its
/// lower-cased file name and size; within it, the sample with the same
/// canonical path; failing that, when the file exists and the bucket is
/// not empty, the first sample with the same content hash; failing that, a
/// new sample.
pub open spec fn absorb(
    bs: Seq<BucketView>,
    c: ClassifiedOccurrence,
    f: FileFacts,
    flags: FilterFlags,
    hs: Seq<(String, Option<String>)>,
) -> Absorbed {
    if !f.exists && !flags.include_missing {
        Absorbed::Done(bs)
    } else {
        let key = lowercase_of(c.occurrence.filename@);
        match find_bucket(bs, key, f.size) {
            None => Absorbed::Done(
                bs.push(BucketView { name_key: key, size: f.size, groups: seq![merged(fresh(c, f, None), c)] }),
            ),
            Some(b) => {
                let gs = bs[b].groups;
                match find_group(gs, f.canonical_path@) {
                    Some(j) => Absorbed::Done(with_groups(bs, b, gs.update(j, merged(gs[j], c)))),
                    None => if gs.len() > 0 && f.exists {
                        match hash_lookup(hs, f.canonical_path@) {
                            None => Absorbed::Need(f.canonical_path@),
                            Some(None) => Absorbed::Done(
                                with_groups(bs, b, gs.push(merged(fresh(c, f, None), c))),
                            ),
                            Some(Some(h)) => match hash_pass(gs, h, hs) {
                                HashPass::Need(p) => Absorbed::Need(p),
                                HashPass::Found(j, gs2) => Absorbed::Done(
                                    with_groups(bs, b, gs2.update(j, merged(gs2[j], c))),
                                ),
                                HashPass::Missed(gs2) => Absorbed::Done(
                                    with_groups(bs, b, gs2.push(merged(fresh(c, f, Some(h)), c))),
                                ),
                            },
                        }
                    } else {
                        Absorbed::Done(with_groups(bs, b, gs.push(merged(fresh(c, f, None), c))))
                    },
                }
            },
        }
    }
}

/// Every sample has counted at most `m` clips.
pub open spec fn clips_at_most(bs: Seq<BucketView>, m: nat) -> bool {
    forall|b: int, g: int|
        0 <= b < bs.len() && 0 <= g < bs[b].groups.len() ==> #[trigger] bs[b].groups[g].clip_count <= m
}

/// What `offer` asks of its caller.
#[derive(Debug)]
pub enum DedupStep {
    /// The occurrence was taken in (or left out).
    Placed,
    /// Hash the file at this path, report it, and offer again.
    NeedHash(String),
}

/// The de-duplication state: buckets in the order they were created.
pub struct DedupState {
    buckets: Vec<DedupBucket>,
    offers: u64,
}

impl DedupState {
    /// The buckets.
    pub closed spec fn buckets(&self) -> Seq<BucketView> {
        bucket_views(self.buckets@)
    }

    /// Number of occurrences placed so far.
    pub closed spec fn placed(&self) -> nat {
        self.offers as nat
    }

    /// No sample has counted more clips than occurrences were placed.
    pub closed spec fn wf(&self) -> bool {
        clips_at_most(bucket_views(self.buckets@), self.offers as nat)
    }

    /// An empty state.
    pub fn new() -> (r: DedupState)
        ensures
            r.wf(),
            r.buckets().len() == 0,
            r.placed() == 0,
    {
        DedupState { buckets: Vec::new(), offers: 0 }
    }
}

} // verus!

verus! {

// ---------------------------------------------------------------------------
// Lemmas on the first-match searches and the hash pass
// ---------------------------------------------------------------------------

proof fn lemma_find_bucket_skip(bs: Seq<BucketView>, key: Seq<char>, size: Option<u64>, i: int)
    requires
        0 <= i <= bs.len(),
        forall|k: int| 0 <= k < i ==> !(#[trigger] bs[k].name_key == key && bs[k].size == size),
    ensures
        find_bucket(bs, key, size) == match find_bucket(bs.skip(i), key, size) {
            Some(j) => Some(j + i),
            None => None,
        },
    decreases i,
{
    if i == 0 {
        assert(bs.skip(0) =~= bs);
        match find_bucket(bs, key, size) {
            Some(j) => {},
            None => {},
        }
    } else {
        let t = bs.drop_first();
        assert forall|k: int| 0 <= k < i - 1 implies !(#[trigger] t[k].name_key == key && t[k].size == size) by {
            assert(t[k] == bs[k + 1]);
        }
        lemma_find_bucket_skip(t, key, size, i - 1);
        assert(t.skip(i - 1) =~= bs.skip(i));
    }
}

proof fn lemma_find_bucket_bound(bs: Seq<BucketView>, key: Seq<char>, size: Option<u64>)
    ensures
        match find_bucket(bs, key, size) {
            Some(j) => 0 <= j < bs.len() && bs[j].name_key == key && bs[j].size == size,
            None => forall|k: int| 0 <= k < bs.len() ==> !(#[trigger] bs[k].name_key == key && bs[k].size == size),
        },
    decreases bs.len(),
{
    if bs.len() > 0 {
        lemma_find_bucket_bound(bs.drop_first(), key, size);
        if !(bs[0].name_key == key && bs[0].size == size) {
            match find_bucket(bs.drop_first(), key, size) {
                Some(j) => {
                    assert(bs.drop_first()[j] == bs[j + 1]);
                },
                None => {
                    assert forall|k: int| 0 <= k < bs.len() implies !(#[trigger] bs[k].name_key == key && bs[k].size == size) by {
                        if k > 0 {
                            assert(bs.drop_first()[k - 1] == bs[k]);
                        }
                    }
                },
            }
        }
    }
}

proof fn lemma_find_group_skip(gs: Seq<UniqueView>, p: Seq<char>, i: int)
    requires
        0 <= i <= gs.len(),
        forall|k: int| 0 <= k < i ==> !path_equal(#[trigger] gs[k].canonical_path, p),
    ensures
        find_group(gs, p) == match find_group(gs.skip(i), p) {
            Some(j) => Some(j + i),
            None => None,
        },
    decreases i,
{
    if i == 0 {
        assert(gs.skip(0) =~= gs);
        match find_group(gs, p) {
            Some(j) => {},
            None => {},
        }
    } else {
        let t = gs.drop_first();
        assert forall|k: int| 0 <= k < i - 1 implies !path_equal(#[trigger] t[k].canonical_path, p) by {
            assert(t[k] == gs[k + 1]);
        }
        lemma_find_group_skip(t, p, i - 1);
        assert(t.skip(i - 1) =~= gs.skip(i));
    }
}

proof fn lemma_find_group_bound(gs: Seq<UniqueView>, p: Seq<char>)
    ensures
        match find_group(gs, p) {
            Some(j) => 0 <= j < gs.len() && path_equal(gs[j].canonical_path, p),
            None => forall|k: int| 0 <= k < gs.len() ==> !path_equal(#[trigger] gs[k].canonical_path, p),
        },
    decreases gs.len(),
{
    if gs.len() > 0 {
        lemma_find_group_bound(gs.drop_first(), p);
        if !path_equal(gs[0].canonical_path, p) {
            match find_group(gs.drop_first(), p) {
                Some(j) => {
                    assert(gs.drop_first()[j] == gs[j + 1]);
                },
                None => {
                    assert forall|k: int| 0 <= k < gs.len() implies !path_equal(#[trigger] gs[k].canonical_path, p) by {
                        if k > 0 {
                            assert(gs.drop_first()[k - 1] == gs[k]);
                        }
                    }
                },
            }
        }
    }
}

proof fn lemma_hash_lookup_skip(hs: Seq<(String, Option<String>)>, p: Seq<char>, i: int)
    requires
        0 <= i <= hs.len(),
        forall|k: int| 0 <= k < i ==> #[trigger] hs[k].0@ != p,
    ensures
        hash_lookup(hs, p) == hash_lookup(hs.skip(i), p),
    decreases i,
{
    if i == 0 {
        assert(hs.skip(0) =~= hs);
    } else {
        let t = hs.drop_first();
        assert forall|k: int| 0 <= k < i - 1 implies #[trigger] t[k].0@ != p by {
            assert(t[k] == hs[k + 1]);
        }
        lemma_hash_lookup_skip(t, p, i - 1);
        assert(t.skip(i - 1) =~= hs.skip(i));
    }
}

/// The samples `gs[..j]` with their hashes filled in.
pub open spec fn refreshed_prefix(gs: Seq<UniqueView>, hs: Seq<(String, Option<String>)>, j: int) -> Seq<UniqueView> {
    gs.take(j).map_values(|g: UniqueView| refreshed(g, hs).unwrap())
}

proof fn lemma_hash_pass_skip(gs: Seq<UniqueView>, h: Seq<char>, hs: Seq<(String, Option<String>)>, j: int)
    requires
        0 <= j <= gs.len(),
        forall|k: int| 0 <= k < j ==> (#[trigger] refreshed(gs[k], hs)) is Some && refreshed(gs[k], hs).unwrap().content_hash != Some(h),
    ensures
        hash_pass(gs, h, hs) == match hash_pass(gs.skip(j), h, hs) {
            HashPass::Need(p) => HashPass::Need(p),
            HashPass::Found(i, r) => HashPass::Found(i + j, refreshed_prefix(gs, hs, j) + r),
            HashPass::Missed(r) => HashPass::Missed(refreshed_prefix(gs, hs, j) + r),
        },
    decreases j,
{
    if j == 0 {
        assert(gs.skip(0) =~= gs);
        assert(refreshed_prefix(gs, hs, 0) =~= Seq::<UniqueView>::empty());
        match hash_pass(gs, h, hs) {
            HashPass::Need(p) => {},
            HashPass::Found(i, r) => {
                assert(Seq::<UniqueView>::empty() + r =~= r);
            },
            HashPass::Missed(r) => {
                assert(Seq::<UniqueView>::empty() + r =~= r);
            },
        }
    } else {
        let t = gs.drop_first();
        assert forall|k: int| 0 <= k < j - 1 implies (#[trigger] refreshed(t[k], hs)) is Some && refreshed(t[k], hs).unwrap().content_hash != Some(h) by {
            assert(t[k] == gs[k + 1]);
        }
        lemma_hash_pass_skip(t, h, hs, j - 1);
        assert(t.skip(j - 1) =~= gs.skip(j));
        let g = refreshed(gs[0], hs).unwrap();
        assert(refreshed(gs[0], hs) is Some);
        assert(refreshed_prefix(gs, hs, j) =~= seq![g] + refreshed_prefix(t, hs, j - 1));
        match hash_pass(gs.skip(j), h, hs) {
            HashPass::Need(p) => {},
            HashPass::Found(i, r) => {
                assert(seq![g] + (refreshed_prefix(t, hs, j - 1) + r) =~= refreshed_prefix(gs, hs, j) + r);
            },
            HashPass::Missed(r) => {
                assert(seq![g] + (refreshed_prefix(t, hs, j - 1) + r) =~= refreshed_prefix(gs, hs, j) + r);
            },
        }
    }
}

// ---------------------------------------------------------------------------
// Executable searches
// ---------------------------------------------------------------------------

fn find_bucket_exec(buckets: &Vec<DedupBucket>, key: &String, size: Option<u64>) -> (r: Option<usize>)
    ensures
        match r {
            Some(j) => find_bucket(bucket_views(buckets@), key@, size) == Some(j as int),
            None => find_bucket(bucket_views(buckets@), key@, size) is None,
        },
{
    let ghost bs = bucket_views(buckets@);
    let mut i: usize = 0;
    while i < buckets.len()
        invariant
            i <= buckets.len(),
            bs == bucket_views(buckets@),
            forall|k: int| 0 <= k < i ==> !(#[trigger] bs[k].name_key == key@ && bs[k].size == size),
        decreases buckets.len() - i,
    {
        let same_size = match (buckets[i].size, size) {
            (Some(a), Some(b)) => a == b,
            (None, None) => true,
            _ => false,
        };
        if same_size && string_eq(&buckets[i].name_key, key) {
            proof {
                lemma_find_bucket_skip(bs, key@, size, i as int);
                assert(bs.skip(i as int)[0] == bs[i as int]);
            }
            return Some(i);
        }
        i = i + 1;
    }
    proof {
        lemma_find_bucket_skip(bs, key@, size, i as int);
        assert(bs.skip(i as int).len() == 0);
    }
    None
}

fn find_group_exec(groups: &Vec<UniqueSample>, p: &String) -> (r: Option<usize>)
    ensures
        match r {
            Some(j) => find_group(unique_views(groups@), p@) == Some(j as int),
            None => find_group(unique_views(groups@), p@) is None,
        },
{
    let ghost gs = unique_views(groups@);
    let mut i: usize = 0;
    while i < groups.len()
        invariant
            i <= groups.len(),
            gs == unique_views(groups@),
            forall|k: int| 0 <= k < i ==> !path_equal(#[trigger] gs[k].canonical_path, p@),
        decreases groups.len() - i,
    {
        if paths_equal(groups[i].canonical_path.as_str(), p.as_str()) {
            proof {
                lemma_find_group_skip(gs, p@, i as int);
                assert(gs.skip(i as int)[0] == gs[i as int]);
            }
            return Some(i);
        }
        assert(!path_equal(gs[i as int].canonical_path, p@));
        i = i + 1;
    }
    proof {
        lemma_find_group_skip(gs, p@, i as int);
        assert(gs.skip(i as int).len() == 0);
    }
    None
}

fn lookup_hash<'a>(hs: &'a Vec<(String, Option<String>)>, p: &String) -> (r: Option<&'a Option<String>>)
    ensures
        match r {
            Some(h) => hash_lookup(hs@, p@) == Some(opt_view(*h)),
            None => hash_lookup(hs@, p@) is None,
        },
{
    let mut i: usize = 0;
    while i < hs.len()
        invariant
            i <= hs.len(),
            forall|k: int| 0 <= k < i ==> #[trigger] hs@[k].0@ != p@,
        decreases hs.len() - i,
    {
        if string_eq(&hs[i].0, p) {
            proof {
                lemma_hash_lookup_skip(hs@, p@, i as int);
                assert(hs@.skip(i as int)[0] == hs@[i as int]);
            }
            return Some(&hs[i].1);
        }
        i = i + 1;
    }
    proof {
        lemma_hash_lookup_skip(hs@, p@, i as int);
        assert(hs@.skip(i as int).len() == 0);
    }
    None
}

/// A new sample for occurrence `c`, before counting it.
fn new_sample(c: &ClassifiedOccurrence, f: &FileFacts, hash: Option<String>) -> (r: UniqueSample)
    ensures
        r@ == fresh(*c, *f, opt_view(hash)),
{
    let factory = is_factory_path(f.canonical_path.as_str());
    let r = UniqueSample {
        canonical_path: copy_string(&f.canonical_path),
        filename: copy_string(&c.occurrence.filename),
        file_size: f.size,
        content_hash: hash,
        original_path: copy_opt_string(&c.occurrence.original_path),
        track_name: copy_opt_string(&c.occurrence.track_name),
        category: Some(copy_string(&c.category)),
        project_count: 0,
        clip_count: 0,
        projects: Vec::new(),
        missing: !f.exists,
        factory,
    };
    assert(views(r.projects@) =~= Seq::<Seq<char>>::empty());
    r
}

} // verus!

verus! {

proof fn lemma_hash_pass_clips(gs: Seq<UniqueView>, h: Seq<char>, hs: Seq<(String, Option<String>)>)
    ensures
        match hash_pass(gs, h, hs) {
            HashPass::Found(j, r) => r.len() == gs.len() && 0 <= j < gs.len() && forall|k: int|
                0 <= k < gs.len() ==> #[trigger] r[k].clip_count == gs[k].clip_count,
            HashPass::Missed(r) => r.len() == gs.len() && forall|k: int|
                0 <= k < gs.len() ==> #[trigger] r[k].clip_count == gs[k].clip_count,
            HashPass::Need(_) => true,
        },
    decreases gs.len(),
{
    if gs.len() > 0 {
        let t = gs.drop_first();
        lemma_hash_pass_clips(t, h, hs);
        match refreshed(gs[0], hs) {
            None => {},
            Some(g) => {
                if g.content_hash == Some(h) {
                    let r = seq![g] + t;
                    assert forall|k: int| 0 <= k < gs.len() implies #[trigger] r[k].clip_count == gs[k].clip_count by {
                        if k > 0 {
                            assert(r[k] == t[k - 1]);
                        }
                    }
                } else {
                    match hash_pass(t, h, hs) {
                        HashPass::Found(j, r0) => {
                            let r = seq![g] + r0;
                            assert forall|k: int| 0 <= k < gs.len() implies #[trigger] r[k].clip_count == gs[k].clip_count by {
                                if k > 0 {
                                    assert(r[k] == r0[k - 1]);
                                    assert(t[k - 1] == gs[k]);
                                }
                            }
                        },
                        HashPass::Missed(r0) => {
                            let r = seq![g] + r0;
                            assert forall|k: int| 0 <= k < gs.len() implies #[trigger] r[k].clip_count == gs[k].clip_count by {
                                if k > 0 {
                                    assert(r[k] == r0[k - 1]);
                                    assert(t[k - 1] == gs[k]);
                                }
                            }
                        },
                        HashPass::Need(_) => {},
                    }
                }
            },
        }
    }
}

proof fn lemma_absorb_clips(
    bs: Seq<BucketView>,
    c: ClassifiedOccurrence,
    f: FileFacts,
    flags: FilterFlags,
    hs: Seq<(String, Option<String>)>,
    m: nat,
)
    requires
        clips_at_most(bs, m),
        m < u32::MAX,
    ensures
        absorb(bs, c, f, flags, hs) matches Absorbed::Done(bs2) ==> clips_at_most(bs2, m + 1),
{
    if !(!f.exists && !flags.include_missing) {
        let key = lowercase_of(c.occurrence.filename@);
        lemma_find_bucket_bound(bs, key, f.size);
        match find_bucket(bs, key, f.size) {
            None => {
                let x = merged(fresh(c, f, None), c);
                let nb = BucketView { name_key: key, size: f.size, groups: seq![x] };
                let bs2 = bs.push(nb);
                assert forall|b: int, g: int| 0 <= b < bs2.len() && 0 <= g < bs2[b].groups.len()
                    implies #[trigger] bs2[b].groups[g].clip_count <= m + 1 by {
                    if b < bs.len() {
                        assert(bs2[b] == bs[b]);
                        assert(bs[b].groups[g].clip_count <= m);
                    } else {
                        assert(bs2[b] == nb);
                        assert(nb.groups[g] == x);
                    }
                }
            },
            Some(b0) => {
                let gs = bs[b0].groups;
                lemma_find_group_bound(gs, f.canonical_path@);
                assert(forall|g: int| 0 <= g < gs.len() ==> #[trigger] gs[g].clip_count <= m) by {
                    assert forall|g: int| 0 <= g < gs.len() implies #[trigger] gs[g].clip_count <= m by {
                        assert(bs[b0].groups[g].clip_count <= m);
                    }
                }
                let fin = |gs2: Seq<UniqueView>| {
                    forall|g: int| 0 <= g < gs2.len() ==> #[trigger] gs2[g].clip_count <= m + 1
                };
                assert forall|gs2: Seq<UniqueView>| #[trigger] fin(gs2) implies clips_at_most(with_groups(bs, b0, gs2), m + 1) by {
                    let bs2 = with_groups(bs, b0, gs2);
                    assert forall|b: int, g: int| 0 <= b < bs2.len() && 0 <= g < bs2[b].groups.len()
                        implies #[trigger] bs2[b].groups[g].clip_count <= m + 1 by {
                        if b != b0 {
                            assert(bs2[b] == bs[b]);
                            assert(bs[b].groups[g].clip_count <= m);
                        } else {
                            assert(bs2[b].groups == gs2);
                            assert(gs2[g].clip_count <= m + 1);
                        }
                    }
                }
                match find_group(gs, f.canonical_path@) {
                    Some(j) => {
                        let gs2 = gs.update(j, merged(gs[j], c));
                        assert(fin(gs2));
                    },
                    None => {
                        let pushed = |h: Option<Seq<char>>| gs.push(merged(fresh(c, f, h), c));
                        assert forall|h: Option<Seq<char>>| fin(#[trigger] pushed(h)) by {
                            let gs2 = pushed(h);
                            assert forall|g: int| 0 <= g < gs2.len() implies #[trigger] gs2[g].clip_count <= m + 1 by {
                                if g < gs.len() {
                                    assert(gs2[g] == gs[g]);
                                }
                            }
                        }
                        if gs.len() > 0 && f.exists {
                            match hash_lookup(hs, f.canonical_path@) {
                                Some(Some(h)) => {
                                    lemma_hash_pass_clips(gs, h, hs);
                                    match hash_pass(gs, h, hs) {
                                        HashPass::Found(j, gs2) => {
                                            let gs3 = gs2.update(j, merged(gs2[j], c));
                                            assert(fin(gs3));
                                        },
                                        HashPass::Missed(gs2) => {
                                            let gs3 = gs2.push(merged(fresh(c, f, Some(h)), c));
                                            assert forall|g: int| 0 <= g < gs3.len() implies #[trigger] gs3[g].clip_count <= m + 1 by {
                                                if g < gs2.len() {
                                                    assert(gs3[g] == gs2[g]);
                                                }
                                            }
                                            assert(fin(gs3));
                                        },
                                        HashPass::Need(_) => {},
                                    }
                                },
                                Some(None) => {
                                    assert(fin(pushed(None)));
                                },
                                None => {},
                            }
                        } else {
                            assert(fin(pushed(None)));
                        }
                    },
                }
            },
        }
    }
}

} // verus!

verus! {

impl DedupState {
    /// Offers one (classified) occurrence with what the caller found on
    /// disk for its path and the content hashes reported so far for this
    /// occurrence. Either the occurrence is placed as `absorb` describes, or
    /// the state is left as it was and the content hash of one path is
    /// asked for: the caller hashes that file (`None` when it cannot be
    /// read), adds it to `hashes`, and offers the occurrence again.
    pub fn offer(
        &mut self,
        c: &ClassifiedOccurrence,
        f: &FileFacts,
        flags: &FilterFlags,
        hashes: &Vec<(String, Option<String>)>,
    ) -> (r: DedupStep)
        requires
            old(self).wf(),
            old(self).placed() < u32::MAX,
        ensures
            final(self).wf(),
            match absorb(old(self).buckets(), *c, *f, *flags, hashes@) {
                Absorbed::Need(p) => r matches DedupStep::NeedHash(q) && q@ == p && final(self).buckets()
                    == old(self).buckets() && final(self).placed() == old(self).placed(),
                Absorbed::Done(bs) => r is Placed && final(self).buckets() == bs && final(self).placed()
                    == old(self).placed() + 1,
            },
    {
        let ghost bs0 = bucket_views(self.buckets@);
        proof {
            lemma_absorb_clips(bs0, *c, *f, *flags, hashes@, self.offers as nat);
        }
        if !f.exists && !flags.include_missing {
            self.offers = self.offers + 1;
            return DedupStep::Placed;
        }
        let key = lowercase(c.occurrence.filename.as_str());
        match find_bucket_exec(&self.buckets, &key, f.size) {
            None => {
                let mut g = new_sample(c, f, None);
                merge_into(&mut g, c);
                let mut groups: Vec<UniqueSample> = Vec::new();
                groups.push(g);
                let nb = DedupBucket { name_key: key, size: f.size, groups };
                self.buckets.push(nb);
                proof {
                    assert(unique_views(nb.groups@) =~= seq![merged(fresh(*c, *f, None), *c)]);
                    assert(bucket_views(self.buckets@) =~= bs0.push(nb@));
                }
                self.offers = self.offers + 1;
                DedupStep::Placed
            },
            Some(b) => {
                proof {
                    lemma_find_bucket_bound(bs0, key@, f.size);
                }
                let ghost gs = bs0[b as int].groups;
                assert(gs == unique_views(self.buckets@[b as int].groups@));
                match find_group_exec(&self.buckets[b].groups, &f.canonical_path) {
                    Some(j) => {
                        proof {
                            lemma_find_group_bound(gs, f.canonical_path@);
                        }
                        let mut bucket = self.buckets.remove(b);
                        let mut g = bucket.groups.remove(j);
                        merge_into(&mut g, c);
                        bucket.groups.insert(j, g);
                        let ghost nb = bucket@;
                        self.buckets.insert(b, bucket);
                        proof {
                            assert(nb.groups =~= gs.update(j as int, merged(gs[j as int], *c)));
                            assert(bucket_views(self.buckets@) =~= with_groups(bs0, b as int, nb.groups));
                        }
                        self.offers = self.offers + 1;
                        DedupStep::Placed
                    },
                    None => {
                        if self.buckets[b].groups.len() > 0 && f.exists {
                            match lookup_hash(hashes, &f.canonical_path) {
                                None => DedupStep::NeedHash(copy_string(&f.canonical_path)),
                                Some(nh) => match nh {
                                    None => {
                                        self.push_new(b, c, f, None);
                                        DedupStep::Placed
                                    },
                                    Some(h) => {
                                        proof {
                                            assert forall|g: int| 0 <= g < self.buckets@[b as int].groups@.len()
                                                implies #[trigger] self.buckets@[b as int].groups@[g].clip_count < u32::MAX by {
                                                assert(bs0[b as int].groups[g].clip_count == self.buckets@[b as int].groups@[g].clip_count);
                                                assert(bs0[b as int].groups[g].clip_count <= self.offers);
                                            }
                                        }
                                        self.offer_by_content(b, c, f, h, hashes)
                                    },
                                },
                            }
                        } else {
                            self.push_new(b, c, f, None);
                            DedupStep::Placed
                        }
                    },
                }
            },
        }
    }

    /// Adds a new sample for `c` (already counted) to bucket `b`.
    fn push_new(&mut self, b: usize, c: &ClassifiedOccurrence, f: &FileFacts, hash: Option<String>)
        requires
            b < old(self).buckets@.len(),
            old(self).offers < u64::MAX,
        ensures
            bucket_views(final(self).buckets@) == with_groups(
                bucket_views(old(self).buckets@),
                b as int,
                bucket_views(old(self).buckets@)[b as int].groups.push(
                    merged(fresh(*c, *f, opt_view(hash)), *c),
                ),
            ),
            final(self).offers == old(self).offers + 1,
    {
        let ghost bs0 = bucket_views(self.buckets@);
        let mut g = new_sample(c, f, hash);
        merge_into(&mut g, c);
        let mut bucket = self.buckets.remove(b);
        let ghost gs = bucket@.groups;
        bucket.groups.push(g);
        let ghost nb = bucket@;
        self.buckets.insert(b, bucket);
        proof {
            assert(nb.groups =~= gs.push(g@));
            assert(bucket_views(self.buckets@) =~= with_groups(bs0, b as int, nb.groups));
        }
        self.offers = self.offers + 1;
    }

    /// Bucket `b` holds no sample with `c`'s canonical path and the new
    /// file's content hash is `h`: compare contents.
    fn offer_by_content(
        &mut self,
        b: usize,
        c: &ClassifiedOccurrence,
        f: &FileFacts,
        h: &String,
        hashes: &Vec<(String, Option<String>)>,
    ) -> (r: DedupStep)
        requires
            b < old(self).buckets@.len(),
            old(self).offers < u64::MAX,
            forall|g: int| 0 <= g < old(self).buckets@[b as int].groups@.len()
                ==> #[trigger] old(self).buckets@[b as int].groups@[g].clip_count < u32::MAX,
        ensures
            match hash_pass(bucket_views(old(self).buckets@)[b as int].groups, h@, hashes@) {
                HashPass::Need(p) => r matches DedupStep::NeedHash(q) && q@ == p && *final(self) == *old(self),
                HashPass::Found(j, gs2) => r is Placed && bucket_views(final(self).buckets@) == with_groups(
                    bucket_views(old(self).buckets@),
                    b as int,
                    gs2.update(j, merged(gs2[j], *c)),
                ) && final(self).offers == old(self).offers + 1,
                HashPass::Missed(gs2) => r is Placed && bucket_views(final(self).buckets@) == with_groups(
                    bucket_views(old(self).buckets@),
                    b as int,
                    gs2.push(merged(fresh(*c, *f, Some(h@)), *c)),
                ) && final(self).offers == old(self).offers + 1,
            },
    {
        let ghost bs0 = bucket_views(self.buckets@);
        let ghost gs = bs0[b as int].groups;
        let n = self.buckets[b].groups.len();
        assert(gs.len() == n);
        // Read-only pass: find the first sample with the same content,
        // asking for any hash that is still needed on the way.
        let mut found: Option<usize> = None;
        let mut j: usize = 0;
        while j < n && found.is_none()
            invariant
                j <= n,
                n == self.buckets@[b as int].groups@.len(),
                b < self.buckets@.len(),
                bs0 == bucket_views(self.buckets@),
                gs == bs0[b as int].groups,
                *self == *old(self),
                forall|k: int| 0 <= k < j ==> (#[trigger] refreshed(gs[k], hashes@)) is Some
                    && refreshed(gs[k], hashes@).unwrap().content_hash != Some(h@),
                match found {
                    Some(x) => x == j && x < n && refreshed(gs[x as int], hashes@) is Some
                        && refreshed(gs[x as int], hashes@).unwrap().content_hash == Some(h@),
                    None => true,
                },
            decreases n - j + (if found is None { 1int } else { 0int }),
        {
            let g = &self.buckets[b].groups[j];
            assert(gs[j as int] == g@);
            let eff: Option<String> = if g.content_hash.is_none() && !g.missing {
                match lookup_hash(hashes, &g.canonical_path) {
                    None => {
                        proof {
                            lemma_hash_pass_skip(gs, h@, hashes@, j as int);
                            assert(gs.skip(j as int)[0] == gs[j as int]);
                        }
                        return DedupStep::NeedHash(copy_string(&g.canonical_path));
                    },
                    Some(x) => copy_opt_string(x),
                }
            } else {
                copy_opt_string(&g.content_hash)
            };
            assert(opt_view(eff) == refreshed(gs[j as int], hashes@).unwrap().content_hash);
            let same = match &eff {
                Some(e) => string_eq(e, h),
                None => false,
            };
            if same {
                found = Some(j);
            } else {
                j = j + 1;
            }
        }
        let limit: usize = match found {
            Some(x) => x + 1,
            None => n,
        };
        proof {
            lemma_hash_pass_skip(gs, h@, hashes@, j as int);
            if found is Some {
                let t = gs.skip(j as int);
                assert(t[0] == gs[j as int]);
                assert(t.drop_first() =~= gs.skip(j + 1));
            } else {
                assert(gs.skip(j as int).len() == 0);
            }
        }
        // Fill in the hashes of the samples compared.
        let mut bucket = self.buckets.remove(b);
        let mut k: usize = 0;
        while k < limit
            invariant
                k <= limit <= n,
                limit == match found {
                    Some(x) => x + 1,
                    None => n as int,
                },
                match found {
                    Some(x) => x == j && x < n,
                    None => j == n,
                },
                bucket@.groups.len() == n,
                forall|i: int| 0 <= i < limit ==> (#[trigger] refreshed(gs[i], hashes@)) is Some,
                bucket@.groups == refreshed_prefix(gs, hashes@, k as int) + gs.skip(k as int),
                b < bs0.len(),
                gs.len() == n,
                gs == bs0[b as int].groups,
                bucket@.name_key == bs0[b as int].name_key,
                bucket@.size == bs0[b as int].size,
            decreases limit - k,
        {
            let ghost before = bucket@.groups;
            assert(before[k as int] == gs[k as int]);
            let ghost rk = refreshed(gs[k as int], hashes@).unwrap();
            let needs = bucket.groups[k].content_hash.is_none() && !bucket.groups[k].missing;
            if needs {
                let mut g = bucket.groups.remove(k);
                match lookup_hash(hashes, &g.canonical_path) {
                    Some(x) => {
                        g.content_hash = copy_opt_string(x);
                    },
                    None => {},
                }
                assert(g@ == rk);
                bucket.groups.insert(k, g);
                assert(bucket@.groups =~= before.update(k as int, rk));
            } else {
                assert(rk == gs[k as int]);
                assert(bucket@.groups =~= before.update(k as int, rk));
            }
            proof {
                assert(refreshed_prefix(gs, hashes@, k + 1) =~= refreshed_prefix(gs, hashes@, k as int).push(rk));
                assert(bucket@.groups =~= refreshed_prefix(gs, hashes@, k + 1) + gs.skip(k + 1));
            }
            k = k + 1;
        }
        let ghost filled = bucket@.groups;
        match found {
            Some(x) => {
                proof {
                    assert(filled =~= refreshed_prefix(gs, hashes@, x + 1) + gs.skip(x + 1));
                    assert(refreshed_prefix(gs, hashes@, x as int) + (seq![refreshed(gs[x as int], hashes@).unwrap()] + gs.skip(x + 1)) =~= filled);
                    assert(filled[x as int].clip_count == gs[x as int].clip_count);
                    assert(bs0[b as int].groups[x as int].clip_count < u32::MAX);
                }
                let mut g = bucket.groups.remove(x);
                merge_into(&mut g, c);
                bucket.groups.insert(x, g);
                proof {
                    assert(bucket@.groups =~= filled.update(x as int, merged(filled[x as int], *c)));
                }
            },
            None => {
                let mut g = new_sample(c, f, Some(copy_string(h)));
                merge_into(&mut g, c);
                bucket.groups.push(g);
                proof {
                    assert(filled =~= refreshed_prefix(gs, hashes@, n as int) + gs.skip(n as int));
                    assert(refreshed_prefix(gs, hashes@, n as int) + Seq::<UniqueView>::empty() =~= filled);
                    assert(bucket@.groups =~= filled.push(merged(fresh(*c, *f, Some(h@)), *c)));
                }
            },
        }
        let ghost nb = bucket@;
        self.buckets.insert(b, bucket);
        proof {
            assert(bucket_views(self.buckets@) =~= with_groups(bs0, b as int, nb.groups));
        }
        self.offers = self.offers + 1;
        DedupStep::Placed
    }
}

} // verus!

verus! {

/// `u` as it is reported: its projects listed once each, in ascending
/// order, and counted.
pub open spec fn finished(u: UniqueView) -> UniqueView {
    UniqueView {
        projects: sorted_set(u.projects),
        project_count: sorted_set(u.projects).len() as u32,
        ..u
    }
}

/// All samples, bucket by bucket.
pub open spec fn all_groups(bs: Seq<BucketView>) -> Seq<UniqueView>
    decreases bs.len(),
{
    if bs.len() == 0 {
        Seq::empty()
    } else {
        all_groups(bs.drop_last()) + bs.last().groups
    }
}

fn finish_sample(u: UniqueSample) -> (r: UniqueSample)
    ensures
        r@ == finished(u@),
{
    let UniqueSample {
        canonical_path,
        filename,
        file_size,
        content_hash,
        original_path,
        track_name,
        category,
        project_count: _,
        clip_count,
        projects,
        missing,
        factory,
    } = u;
    let ghost pv = views(projects@);
    let sorted = sort_dedup_strings(projects);
    proof {
        lemma_is_sorted_set(views(sorted@), pv);
    }
    let count = sorted.len() as u32;
    UniqueSample {
        canonical_path,
        filename,
        file_size,
        content_hash,
        original_path,
        track_name,
        category,
        project_count: count,
        clip_count,
        projects: sorted,
        missing,
        factory,
    }
}

impl DedupState {
    /// Every sample, bucket by bucket in the order the buckets were
    /// created, each with its projects listed once, in ascending order,
    /// and counted.
    pub fn finish(self) -> (r: Vec<UniqueSample>)
        ensures
            unique_views(r@) == all_groups(self.buckets()).map_values(|u: UniqueView| finished(u)),
    {
        let ghost bs = self.buckets();
        let mut rest = self.buckets;
        // Reverse the buckets so that popping yields them in order.
        let mut rev: Vec<DedupBucket> = Vec::new();
        while rest.len() > 0
            invariant
                bucket_views(rest@) + bucket_views(rev@).reverse() == bs,
            decreases rest@.len(),
        {
            let ghost r0 = rest@;
            let ghost v0 = rev@;
            let b = rest.pop().unwrap();
            rev.push(b);
            proof {
                assert(r0 =~= rest@.push(b));
                assert(bucket_views(rev@).reverse() =~= seq![b@] + bucket_views(v0).reverse());
                assert(bucket_views(r0) =~= bucket_views(rest@) + seq![b@]);
            }
        }
        assert(bucket_views(rest@) =~= Seq::<BucketView>::empty());
        assert(bs.take(0) =~= Seq::<BucketView>::empty());
        assert(all_groups(bs.take(0)).map_values(|u: UniqueView| finished(u)) =~= Seq::<UniqueView>::empty());
        let mut out: Vec<UniqueSample> = Vec::new();
        let ghost f = |u: UniqueView| finished(u);
        while rev.len() > 0
            invariant
                f == (|u: UniqueView| finished(u)),
                bs == bs.take(bs.len() - rev@.len()) + bucket_views(rev@).reverse(),
                rev@.len() <= bs.len(),
                unique_views(out@) == all_groups(bs.take(bs.len() - rev@.len())).map_values(f),
            decreases rev@.len(),
        {
            let ghost v0 = rev@;
            let ghost done = bs.len() - rev@.len();
            let b = rev.pop().unwrap();
            let mut groups = b.groups;
            let ghost gv = unique_views(groups@);
            // Reverse this bucket's samples, then pop them in order.
            let mut grev: Vec<UniqueSample> = Vec::new();
            while groups.len() > 0
                invariant
                    unique_views(groups@) + unique_views(grev@).reverse() == gv,
                decreases groups@.len(),
            {
                let ghost g0 = groups@;
                let ghost h0 = grev@;
                let u = groups.pop().unwrap();
                grev.push(u);
                proof {
                    assert(g0 =~= groups@.push(u));
                    assert(unique_views(grev@).reverse() =~= seq![u@] + unique_views(h0).reverse());
                    assert(unique_views(g0) =~= unique_views(groups@) + seq![u@]);
                }
            }
            assert(unique_views(groups@) =~= Seq::<UniqueView>::empty());
            let ghost out0 = unique_views(out@);
            let ghost glen = gv.len();
            while grev.len() > 0
                invariant
                    f == (|u: UniqueView| finished(u)),
                    grev@.len() <= glen,
                    glen == gv.len(),
                    gv == gv.take(glen - grev@.len()) + unique_views(grev@).reverse(),
                    unique_views(out@) == out0 + gv.take(glen - grev@.len()).map_values(f),
                decreases grev@.len(),
            {
                let ghost h0 = grev@;
                let ghost o0 = unique_views(out@);
                let u = grev.pop().unwrap();
                let fu = finish_sample(u);
                out.push(fu);
                proof {
                    let d = glen - h0.len();
                    assert(unique_views(h0).reverse() =~= seq![u@] + unique_views(grev@).reverse());
                    assert(gv[d] == u@);
                    assert(gv.take(d + 1) =~= gv.take(d).push(u@));
                    assert(gv.take(d + 1).map_values(f) =~= gv.take(d).map_values(f).push(f(u@)));
                    assert(unique_views(out@) =~= o0.push(fu@));
                    assert(gv =~= gv.take(d + 1) + unique_views(grev@).reverse());
                }
            }
            proof {
                assert(gv.take(glen as int) =~= gv);
                assert(bucket_views(v0).reverse() =~= seq![b@] + bucket_views(rev@).reverse());
                assert(bs[done] == b@);
                assert(bs.take(done + 1) =~= bs.take(done).push(b@));
                assert(bs.take(done + 1).drop_last() =~= bs.take(done));
                assert(all_groups(bs.take(done + 1)) == all_groups(bs.take(done)) + b@.groups);
                assert(all_groups(bs.take(done + 1)).map_values(f) =~= all_groups(bs.take(done)).map_values(f) + gv.map_values(f));
                assert(bs =~= bs.take(bs.len() - rev@.len()) + bucket_views(rev@).reverse());
            }
        }
        assert(bs.take(bs.len() as int) =~= bs);
        out
    }
}


// ---------------------------------------------------------------------------
// Laws
// ---------------------------------------------------------------------------

/// Once a bucket holds a sample at a path, a later occurrence at that path
/// (same lower-cased file name and size, kept by the flags) joins that
/// bucket's samples and never creates a new one: the number of samples of
/// every bucket stays the same.
pub proof fn lemma_known_path_joins(
    bs: Seq<BucketView>,
    c: ClassifiedOccurrence,
    f: FileFacts,
    flags: FilterFlags,
    hs: Seq<(String, Option<String>)>,
    b: int,
    g: int,
)
    requires
        f.exists || flags.include_missing,
        find_bucket(bs, lowercase_of(c.occurrence.filename@), f.size) == Some(b),
        0 <= g < bs[b].groups.len(),
        path_equal(bs[b].groups[g].canonical_path, f.canonical_path@),
    ensures
        absorb(bs, c, f, flags, hs) matches Absorbed::Done(bs2) && bs2.len() == bs.len() && forall|i: int|
            0 <= i < bs.len() ==> (#[trigger] bs2[i]).groups.len() == bs[i].groups.len(),
{
    let key = lowercase_of(c.occurrence.filename@);
    lemma_find_bucket_bound(bs, key, f.size);
    let gs = bs[b].groups;
    lemma_find_group_bound(gs, f.canonical_path@);
    match find_group(gs, f.canonical_path@) {
        Some(j) => {},
        None => {
            assert(!path_equal(gs[g].canonical_path, f.canonical_path@));
        },
    }
}

proof fn lemma_find_bucket_push(bs: Seq<BucketView>, nb: BucketView, key: Seq<char>, size: Option<u64>)
    requires
        find_bucket(bs, key, size) is None,
        nb.name_key == key,
        nb.size == size,
    ensures
        find_bucket(bs.push(nb), key, size) == Some(bs.len() as int),
    decreases bs.len(),
{
    if bs.len() > 0 {
        assert(bs.push(nb).drop_first() =~= bs.drop_first().push(nb));
        lemma_find_bucket_push(bs.drop_first(), nb, key, size);
    } else {
        assert(bs.push(nb)[0] == nb);
    }
}

/// Samples over all buckets.
pub open spec fn sample_count(bs: Seq<BucketView>) -> nat {
    all_groups(bs).len()
}

proof fn lemma_all_groups_push(bs: Seq<BucketView>, nb: BucketView)
    ensures
        all_groups(bs.push(nb)) == all_groups(bs) + nb.groups,
{
    assert(bs.push(nb).drop_last() =~= bs);
}

proof fn lemma_all_groups_update_same_len(bs: Seq<BucketView>, b: int, gs: Seq<UniqueView>)
    requires
        0 <= b < bs.len(),
        gs.len() == bs[b].groups.len(),
    ensures
        all_groups(with_groups(bs, b, gs)).len() == all_groups(bs).len(),
    decreases bs.len(),
{
    let nb = with_groups(bs, b, gs);
    if b < bs.len() - 1 {
        assert(nb.drop_last() =~= with_groups(bs.drop_last(), b, gs));
        lemma_all_groups_update_same_len(bs.drop_last(), b, gs);
    } else {
        assert(nb.drop_last() =~= bs.drop_last());
    }
}

/// Two occurrences of files with the same lower-cased name, the same size
/// and the same content hash are one sample, whatever their paths: offered
/// in turn to a state with no sample of that name and size yet, both are
/// placed, and they add a single sample to the state, which counts their
/// two clips.
pub proof fn lemma_identical_content_collapses(
    bs: Seq<BucketView>,
    c1: ClassifiedOccurrence,
    c2: ClassifiedOccurrence,
    f1: FileFacts,
    f2: FileFacts,
    flags: FilterFlags,
    hs: Seq<(String, Option<String>)>,
    h: Seq<char>,
)
    requires
        find_bucket(bs, lowercase_of(c1.occurrence.filename@), f1.size) is None,
        lowercase_of(c1.occurrence.filename@) == lowercase_of(c2.occurrence.filename@),
        f1.size == f2.size,
        f1.exists,
        f2.exists,
        hash_lookup(hs, f1.canonical_path@) == Some(Some(h)),
        hash_lookup(hs, f2.canonical_path@) == Some(Some(h)),
    ensures
        absorb(bs, c1, f1, flags, hs) matches Absorbed::Done(bs1) && absorb(bs1, c2, f2, flags, hs) matches Absorbed::Done(
            bs2,
        ) && sample_count(bs2) == sample_count(bs) + 1 && bs2.len() == bs.len() + 1 && bs2.last().groups.len() == 1
            && bs2.last().groups[0].clip_count == 2,
{
    let key = lowercase_of(c1.occurrence.filename@);
    let g1 = merged(fresh(c1, f1, None), c1);
    let nb = BucketView { name_key: key, size: f1.size, groups: seq![g1] };
    let bs1 = bs.push(nb);
    assert(absorb(bs, c1, f1, flags, hs) == Absorbed::Done(bs1));
    lemma_find_bucket_push(bs, nb, key, f1.size);
    let b = bs.len() as int;
    assert(find_bucket(bs1, key, f2.size) == Some(b));
    let gs = bs1[b].groups;
    assert(gs == seq![g1]);
    lemma_all_groups_push(bs, nb);
    if path_equal(g1.canonical_path, f2.canonical_path@) {
        assert(find_group(gs, f2.canonical_path@) == Some(0int));
        let gs2 = gs.update(0, merged(gs[0], c2));
        let bs2 = with_groups(bs1, b, gs2);
        assert(absorb(bs1, c2, f2, flags, hs) == Absorbed::Done(bs2));
        lemma_all_groups_update_same_len(bs1, b, gs2);
    } else {
        assert(gs.drop_first().len() == 0);
        assert(find_group(gs.drop_first(), f2.canonical_path@) is None);
        assert(find_group(gs, f2.canonical_path@) is None);
        let r = refreshed(g1, hs);
        assert(r == Some(UniqueView { content_hash: Some(h), ..g1 }));
        assert(hash_pass(gs, h, hs) == HashPass::Found(0, seq![r.unwrap()] + gs.drop_first()));
        let gs2 = seq![r.unwrap()] + gs.drop_first();
        let gs3 = gs2.update(0, merged(gs2[0], c2));
        let bs2 = with_groups(bs1, b, gs3);
        assert(absorb(bs1, c2, f2, flags, hs) == Absorbed::Done(bs2));
        lemma_all_groups_update_same_len(bs1, b, gs3);
    }
}

/// Several uses of a sample in one project count as one project: two
/// occurrences at the same path from the same project, offered in turn to a
/// state with no sample of that name and size yet, add one sample with two
/// clips and, once finished, a project count of one.
pub proof fn lemma_one_project_counted_once(
    bs: Seq<BucketView>,
    c1: ClassifiedOccurrence,
    c2: ClassifiedOccurrence,
    f: FileFacts,
    flags: FilterFlags,
    hs: Seq<(String, Option<String>)>,
)
    requires
        find_bucket(bs, lowercase_of(c1.occurrence.filename@), f.size) is None,
        lowercase_of(c1.occurrence.filename@) == lowercase_of(c2.occurrence.filename@),
        c1.occurrence.project_name@ == c2.occurrence.project_name@,
        f.exists || flags.include_missing,
    ensures
        absorb(bs, c1, f, flags, hs) matches Absorbed::Done(bs1) && absorb(bs1, c2, f, flags, hs) matches Absorbed::Done(
            bs2,
        ) && sample_count(bs2) == sample_count(bs) + 1 && bs2.len() == bs.len() + 1 && bs2.last().groups.len() == 1
            && bs2.last().groups[0].clip_count == 2 && finished(bs2.last().groups[0]).project_count == 1,
{
    let key = lowercase_of(c1.occurrence.filename@);
    let g1 = merged(fresh(c1, f, None), c1);
    let nb = BucketView { name_key: key, size: f.size, groups: seq![g1] };
    let bs1 = bs.push(nb);
    assert(absorb(bs, c1, f, flags, hs) == Absorbed::Done(bs1));
    lemma_find_bucket_push(bs, nb, key, f.size);
    let b = bs.len() as int;
    assert(find_bucket(bs1, key, f.size) == Some(b));
    let gs = bs1[b].groups;
    assert(gs == seq![g1]);
    lemma_all_groups_push(bs, nb);
    assert(path_equal(g1.canonical_path, f.canonical_path@));
    assert(find_group(gs, f.canonical_path@) == Some(0int));
    let g2 = merged(gs[0], c2);
    let gs2 = gs.update(0, g2);
    let bs2 = with_groups(bs1, b, gs2);
    assert(absorb(bs1, c2, f, flags, hs) == Absorbed::Done(bs2));
    lemma_all_groups_update_same_len(bs1, b, gs2);
    let name = c1.occurrence.project_name@;
    assert(g1.projects =~= seq![name]);
    assert(g1.projects.contains(name)) by {
        assert(g1.projects[0] == name);
    }
    assert(g2.projects == seq![name]);
    let one = seq![name];
    assert(is_sorted_set_of(one, g2.projects)) by {
        assert(one.to_set() =~= g2.projects.to_set());
    }
    lemma_is_sorted_set(one, g2.projects);
    assert(bs2.last().groups[0] == g2);
}


// ---------------------------------------------------------------------------
// Laws of a whole run
// ---------------------------------------------------------------------------

/// What every sample of a run holds under the run's flags: it has a
/// category, at least one project, no project twice, no more projects than
/// clips, and (unless missing files are included) a file that exists.
pub open spec fn sample_ok(u: UniqueView, flags: FilterFlags) -> bool {
    &&& u.category is Some
    &&& 1 <= u.projects.len() <= u.clip_count
    &&& u.projects.no_duplicates()
    &&& (!flags.include_missing ==> !u.missing)
}

/// Every sample of every bucket holds `sample_ok`.
pub open spec fn samples_ok(bs: Seq<BucketView>, flags: FilterFlags) -> bool {
    forall|b: int, g: int| 0 <= b < bs.len() && 0 <= g < bs[b].groups.len() ==> sample_ok(#[trigger] bs[b].groups[g], flags)
}

/// Sum of the clip counts.
pub open spec fn clip_sum(gs: Seq<UniqueView>) -> nat
    decreases gs.len(),
{
    if gs.len() == 0 {
        0
    } else {
        clip_sum(gs.drop_last()) + gs.last().clip_count as nat
    }
}

/// Clips counted over all samples.
pub open spec fn total_clips(bs: Seq<BucketView>) -> nat {
    clip_sum(all_groups(bs))
}

/// An occurrence is counted: its file exists, or missing files are
/// included.
pub open spec fn kept(f: FileFacts, flags: FilterFlags) -> bool {
    f.exists || flags.include_missing
}

/// What a reported sample holds: a category, its projects listed once each
/// in ascending order and counted, at least one project and no more than
/// clips, and (unless missing files are included) a file that exists.
pub open spec fn report_ok(u: UniqueView, flags: FilterFlags) -> bool {
    &&& u.category is Some
    &&& u.project_count == u.projects.len()
    &&& strictly_sorted(u.projects)
    &&& 1 <= u.project_count <= u.clip_count
    &&& (!flags.include_missing ==> !u.missing)
}

/// `b` is `a` but for its content hash.
pub open spec fn same_but_hash(a: UniqueView, b: UniqueView) -> bool {
    b == UniqueView { content_hash: b.content_hash, ..a }
}

proof fn lemma_hash_pass_keeps(gs: Seq<UniqueView>, h: Seq<char>, hs: Seq<(String, Option<String>)>)
    ensures
        match hash_pass(gs, h, hs) {
            HashPass::Found(j, r) => r.len() == gs.len() && 0 <= j < gs.len() && forall|k: int|
                0 <= k < gs.len() ==> same_but_hash(gs[k], #[trigger] r[k]),
            HashPass::Missed(r) => r.len() == gs.len() && forall|k: int|
                0 <= k < gs.len() ==> same_but_hash(gs[k], #[trigger] r[k]),
            HashPass::Need(_) => true,
        },
    decreases gs.len(),
{
    if gs.len() > 0 {
        let t = gs.drop_first();
        lemma_hash_pass_keeps(t, h, hs);
        match refreshed(gs[0], hs) {
            None => {},
            Some(g) => {
                assert(same_but_hash(gs[0], g));
                if g.content_hash == Some(h) {
                    let r = seq![g] + t;
                    assert forall|k: int| 0 <= k < gs.len() implies same_but_hash(gs[k], #[trigger] r[k]) by {
                        if k > 0 {
                            assert(r[k] == t[k - 1]);
                        }
                    }
                } else {
                    match hash_pass(t, h, hs) {
                        HashPass::Found(j, r0) => {
                            let r = seq![g] + r0;
                            assert forall|k: int| 0 <= k < gs.len() implies same_but_hash(gs[k], #[trigger] r[k]) by {
                                if k > 0 {
                                    assert(r[k] == r0[k - 1]);
                                    assert(t[k - 1] == gs[k]);
                                }
                            }
                        },
                        HashPass::Missed(r0) => {
                            let r = seq![g] + r0;
                            assert forall|k: int| 0 <= k < gs.len() implies same_but_hash(gs[k], #[trigger] r[k]) by {
                                if k > 0 {
                                    assert(r[k] == r0[k - 1]);
                                    assert(t[k - 1] == gs[k]);
                                }
                            }
                        },
                        HashPass::Need(_) => {},
                    }
                }
            },
        }
    }
}

proof fn lemma_clip_sum_concat(a: Seq<UniqueView>, b: Seq<UniqueView>)
    ensures
        clip_sum(a + b) == clip_sum(a) + clip_sum(b),
    decreases b.len(),
{
    if b.len() == 0 {
        assert(a + b =~= a);
    } else {
        assert((a + b).drop_last() =~= a + b.drop_last());
        lemma_clip_sum_concat(a, b.drop_last());
    }
}

proof fn lemma_clip_sum_update(gs: Seq<UniqueView>, j: int, x: UniqueView)
    requires
        0 <= j < gs.len(),
    ensures
        clip_sum(gs.update(j, x)) + gs[j].clip_count == clip_sum(gs) + x.clip_count,
    decreases gs.len(),
{
    if j < gs.len() - 1 {
        assert(gs.update(j, x).drop_last() =~= gs.drop_last().update(j, x));
        lemma_clip_sum_update(gs.drop_last(), j, x);
    } else {
        assert(gs.update(j, x).drop_last() =~= gs.drop_last());
    }
}

proof fn lemma_clip_sum_same(a: Seq<UniqueView>, b: Seq<UniqueView>)
    requires
        a.len() == b.len(),
        forall|k: int| 0 <= k < a.len() ==> (#[trigger] a[k]).clip_count == b[k].clip_count,
    ensures
        clip_sum(a) == clip_sum(b),
    decreases a.len(),
{
    if a.len() > 0 {
        lemma_clip_sum_same(a.drop_last(), b.drop_last());
        assert(a[a.len() - 1].clip_count == b[b.len() - 1].clip_count);
    }
}

proof fn lemma_total_with_groups(bs: Seq<BucketView>, b: int, gs: Seq<UniqueView>)
    requires
        0 <= b < bs.len(),
    ensures
        total_clips(with_groups(bs, b, gs)) + clip_sum(bs[b].groups) == total_clips(bs) + clip_sum(gs),
    decreases bs.len(),
{
    let nb = with_groups(bs, b, gs);
    if b < bs.len() - 1 {
        assert(nb.drop_last() =~= with_groups(bs.drop_last(), b, gs));
        lemma_total_with_groups(bs.drop_last(), b, gs);
        lemma_clip_sum_concat(all_groups(nb.drop_last()), nb.last().groups);
        lemma_clip_sum_concat(all_groups(bs.drop_last()), bs.last().groups);
    } else {
        assert(nb.drop_last() =~= bs.drop_last());
        lemma_clip_sum_concat(all_groups(bs.drop_last()), gs);
        lemma_clip_sum_concat(all_groups(bs.drop_last()), bs.last().groups);
    }
}

proof fn lemma_with_groups_ok(bs: Seq<BucketView>, b0: int, gs: Seq<UniqueView>, flags: FilterFlags)
    requires
        0 <= b0 < bs.len(),
        samples_ok(bs, flags),
        forall|g: int| 0 <= g < gs.len() ==> sample_ok(#[trigger] gs[g], flags),
    ensures
        samples_ok(with_groups(bs, b0, gs), flags),
{
    let bs2 = with_groups(bs, b0, gs);
    assert forall|b: int, g: int| 0 <= b < bs2.len() && 0 <= g < bs2[b].groups.len()
        implies sample_ok(#[trigger] bs2[b].groups[g], flags) by {
        if b != b0 {
            assert(bs2[b] == bs[b]);
        }
    }
}

proof fn lemma_merged_ok(u: UniqueView, c: ClassifiedOccurrence, flags: FilterFlags)
    requires
        sample_ok(u, flags),
        u.clip_count < u32::MAX,
    ensures
        sample_ok(merged(u, c), flags),
        merged(u, c).clip_count == u.clip_count + 1,
{
    let p = c.occurrence.project_name@;
    if !u.projects.contains(p) {
        let q = u.projects.push(p);
        assert forall|i: int, j: int| 0 <= i < q.len() && 0 <= j < q.len() && i != j implies q[i] != q[j] by {
            if j == q.len() - 1 {
                assert(q[i] == u.projects[i]);
            } else if i == q.len() - 1 {
                assert(q[j] == u.projects[j]);
            }
        }
    }
}

proof fn lemma_fresh_ok(c: ClassifiedOccurrence, f: FileFacts, h: Option<Seq<char>>, flags: FilterFlags)
    requires
        kept(f, flags),
    ensures
        sample_ok(merged(fresh(c, f, h), c), flags),
        merged(fresh(c, f, h), c).clip_count == 1,
{
    let q = Seq::<Seq<char>>::empty().push(c.occurrence.project_name@);
    assert(merged(fresh(c, f, h), c).projects =~= q);
}

proof fn lemma_pushed_ok(gs: Seq<UniqueView>, x: UniqueView, flags: FilterFlags)
    requires
        forall|g: int| 0 <= g < gs.len() ==> sample_ok(#[trigger] gs[g], flags),
        sample_ok(x, flags),
    ensures
        forall|g: int| 0 <= g < gs.push(x).len() ==> sample_ok(#[trigger] gs.push(x)[g], flags),
        clip_sum(gs.push(x)) == clip_sum(gs) + x.clip_count,
{
    assert forall|g: int| 0 <= g < gs.push(x).len() implies sample_ok(#[trigger] gs.push(x)[g], flags) by {
        if g < gs.len() {
            assert(gs.push(x)[g] == gs[g]);
        }
    }
    assert(gs.push(x).drop_last() =~= gs);
}

/// Offering an occurrence keeps every sample valid (`sample_ok`) and counts
/// one more clip exactly when the occurrence is kept: a missing file that
/// is left out changes nothing. So, from the empty state, the samples of a
/// run count one clip per kept occurrence.
pub proof fn lemma_offer_keeps_samples(
    bs: Seq<BucketView>,
    c: ClassifiedOccurrence,
    f: FileFacts,
    flags: FilterFlags,
    hs: Seq<(String, Option<String>)>,
    m: nat,
)
    requires
        samples_ok(bs, flags),
        clips_at_most(bs, m),
        m < u32::MAX,
    ensures
        absorb(bs, c, f, flags, hs) matches Absorbed::Done(bs2) ==> {
            &&& samples_ok(bs2, flags)
            &&& total_clips(bs2) == total_clips(bs) + if kept(f, flags) { 1nat } else { 0nat }
        },
{
    if kept(f, flags) {
        let key = lowercase_of(c.occurrence.filename@);
        lemma_find_bucket_bound(bs, key, f.size);
        match find_bucket(bs, key, f.size) {
            None => {
                let x = merged(fresh(c, f, None), c);
                let nb = BucketView { name_key: key, size: f.size, groups: seq![x] };
                let bs2 = bs.push(nb);
                lemma_fresh_ok(c, f, None, flags);
                lemma_all_groups_push(bs, nb);
                lemma_clip_sum_concat(all_groups(bs), nb.groups);
                assert(seq![x].drop_last() =~= Seq::<UniqueView>::empty());
                assert(clip_sum(Seq::<UniqueView>::empty()) == 0);
                assert(clip_sum(seq![x]) == 1);
                assert forall|b: int, g: int| 0 <= b < bs2.len() && 0 <= g < bs2[b].groups.len()
                    implies sample_ok(#[trigger] bs2[b].groups[g], flags) by {
                    if b < bs.len() {
                        assert(bs2[b] == bs[b]);
                    } else {
                        assert(bs2[b] == nb);
                        assert(nb.groups[g] == x);
                    }
                }
                assert(total_clips(bs2) == total_clips(bs) + 1);
            },
            Some(b0) => {
                let gs = bs[b0].groups;
                lemma_find_group_bound(gs, f.canonical_path@);
                assert forall|g: int| 0 <= g < gs.len() implies sample_ok(#[trigger] gs[g], flags) && gs[g].clip_count <= m by {
                    assert(bs[b0].groups[g] == gs[g]);
                }
                match find_group(gs, f.canonical_path@) {
                    Some(j) => {
                        let x = merged(gs[j], c);
                        lemma_merged_ok(gs[j], c, flags);
                        let gs2 = gs.update(j, x);
                        assert forall|g: int| 0 <= g < gs2.len() implies sample_ok(#[trigger] gs2[g], flags) by {
                            if g != j {
                                assert(gs2[g] == gs[g]);
                            }
                        }
                        lemma_clip_sum_update(gs, j, x);
                        lemma_with_groups_ok(bs, b0, gs2, flags);
                        lemma_total_with_groups(bs, b0, gs2);
                        assert(total_clips(with_groups(bs, b0, gs2)) == total_clips(bs) + 1);
                    },
                    None => {
                        if gs.len() > 0 && f.exists {
                            match hash_lookup(hs, f.canonical_path@) {
                                Some(Some(h)) => {
                                    lemma_hash_pass_keeps(gs, h, hs);
                                    match hash_pass(gs, h, hs) {
                                        HashPass::Found(j, gs2) => {
                                            assert forall|g: int| 0 <= g < gs2.len() implies sample_ok(#[trigger] gs2[g], flags) && gs2[g].clip_count == gs[g].clip_count by {
                                                assert(same_but_hash(gs[g], gs2[g]));
                                            }
                                            lemma_clip_sum_same(gs, gs2);
                                            let x = merged(gs2[j], c);
                                            lemma_merged_ok(gs2[j], c, flags);
                                            let gs3 = gs2.update(j, x);
                                            assert forall|g: int| 0 <= g < gs3.len() implies sample_ok(#[trigger] gs3[g], flags) by {
                                                if g != j {
                                                    assert(gs3[g] == gs2[g]);
                                                }
                                            }
                                            lemma_clip_sum_update(gs2, j, x);
                                            lemma_with_groups_ok(bs, b0, gs3, flags);
                                            lemma_total_with_groups(bs, b0, gs3);
                                            assert(total_clips(with_groups(bs, b0, gs3)) == total_clips(bs) + 1);
                                        },
                                        HashPass::Missed(gs2) => {
                                            assert forall|g: int| 0 <= g < gs2.len() implies sample_ok(#[trigger] gs2[g], flags) && gs2[g].clip_count == gs[g].clip_count by {
                                                assert(same_but_hash(gs[g], gs2[g]));
                                            }
                                            lemma_clip_sum_same(gs, gs2);
                                            let x = merged(fresh(c, f, Some(h)), c);
                                            lemma_fresh_ok(c, f, Some(h), flags);
                                            lemma_pushed_ok(gs2, x, flags);
                                            lemma_with_groups_ok(bs, b0, gs2.push(x), flags);
                                            lemma_total_with_groups(bs, b0, gs2.push(x));
                                            assert(total_clips(with_groups(bs, b0, gs2.push(x))) == total_clips(bs) + 1);
                                        },
                                        HashPass::Need(_) => {},
                                    }
                                },
                                Some(None) => {
                                    let x = merged(fresh(c, f, None), c);
                                    lemma_fresh_ok(c, f, None, flags);
                                    lemma_pushed_ok(gs, x, flags);
                                    lemma_with_groups_ok(bs, b0, gs.push(x), flags);
                                    lemma_total_with_groups(bs, b0, gs.push(x));
                                },
                                None => {},
                            }
                        } else {
                            let x = merged(fresh(c, f, None), c);
                            lemma_fresh_ok(c, f, None, flags);
                            lemma_pushed_ok(gs, x, flags);
                            lemma_with_groups_ok(bs, b0, gs.push(x), flags);
                            lemma_total_with_groups(bs, b0, gs.push(x));
                        }
                    },
                }
            },
        }
    }
}

proof fn lemma_all_groups_ok(bs: Seq<BucketView>, flags: FilterFlags)
    requires
        samples_ok(bs, flags),
    ensures
        forall|k: int| 0 <= k < all_groups(bs).len() ==> sample_ok(#[trigger] all_groups(bs)[k], flags),
    decreases bs.len(),
{
    if bs.len() > 0 {
        let pre = bs.drop_last();
        assert forall|b: int, g: int| 0 <= b < pre.len() && 0 <= g < pre[b].groups.len()
            implies sample_ok(#[trigger] pre[b].groups[g], flags) by {
            assert(pre[b] == bs[b]);
        }
        lemma_all_groups_ok(pre, flags);
        let a = all_groups(pre);
        let l = bs.last().groups;
        assert forall|k: int| 0 <= k < all_groups(bs).len() implies sample_ok(#[trigger] all_groups(bs)[k], flags) by {
            if k < a.len() {
                assert(all_groups(bs)[k] == a[k]);
            } else {
                assert(all_groups(bs)[k] == l[k - a.len()]);
                assert(bs[bs.len() - 1].groups[k - a.len()] == l[k - a.len()]);
            }
        }
    }
}

/// A valid sample, once finished, is reported with its projects listed
/// once each in ascending order and counted, at least one of them and no
/// more than its clips.
pub proof fn lemma_finished_ok(u: UniqueView, flags: FilterFlags)
    requires
        sample_ok(u, flags),
    ensures
        report_ok(finished(u), flags),
        finished(u).projects.to_set() == u.projects.to_set(),
        finished(u).clip_count == u.clip_count,
{
    let r = sorted_set(u.projects);
    lemma_sorted_set_exists(u.projects);
    assert(r.no_duplicates()) by {
        assert forall|i: int, j: int| 0 <= i < r.len() && 0 <= j < r.len() && i != j implies r[i] != r[j] by {
            lemma_str_less_total(r[i], r[i]);
            if i < j {
                assert(str_less(r[i], r[j]));
            } else {
                assert(str_less(r[j], r[i]));
            }
        }
    }
    r.unique_seq_to_set();
    u.projects.unique_seq_to_set();
}

/// What a run reports, when every sample of its state is valid (which
/// `lemma_offer_keeps_samples` keeps from the empty state on): each
/// reported sample holds `report_ok`, and the reported clips add up to the
/// clips the state counted.
pub proof fn lemma_report_ok(bs: Seq<BucketView>, flags: FilterFlags)
    requires
        samples_ok(bs, flags),
    ensures
        ({
            let r = all_groups(bs).map_values(|u: UniqueView| finished(u));
            &&& forall|k: int| 0 <= k < r.len() ==> report_ok(#[trigger] r[k], flags)
            &&& clip_sum(r) == total_clips(bs)
        }),
{
    let a = all_groups(bs);
    let r = a.map_values(|u: UniqueView| finished(u));
    lemma_all_groups_ok(bs, flags);
    assert forall|k: int| 0 <= k < r.len() implies report_ok(#[trigger] r[k], flags) by {
        lemma_finished_ok(a[k], flags);
    }
    assert forall|k: int| 0 <= k < r.len() implies (#[trigger] r[k]).clip_count == a[k].clip_count by {
        assert(r[k] == finished(a[k]));
    }
    lemma_clip_sum_same(r, a);
}


/// Every sample of the bucket has the bucket's lower-cased file name and
/// size, and no two of its samples are at the same path.
pub open spec fn bucket_ok(bv: BucketView) -> bool {
    &&& forall|g: int| 0 <= g < bv.groups.len() ==> lowercase_of((#[trigger] bv.groups[g]).filename) == bv.name_key
        && bv.groups[g].file_size == bv.size
    &&& forall|g1: int, g2: int| 0 <= g1 < g2 < bv.groups.len() ==> !path_equal(
        (#[trigger] bv.groups[g1]).canonical_path,
        (#[trigger] bv.groups[g2]).canonical_path,
    )
}

/// Every bucket holds `bucket_ok`, and no two buckets have the same name
/// and size.
pub open spec fn buckets_ok(bs: Seq<BucketView>) -> bool {
    &&& forall|b: int| 0 <= b < bs.len() ==> bucket_ok(#[trigger] bs[b])
    &&& forall|b1: int, b2: int| 0 <= b1 < b2 < bs.len() ==> !((#[trigger] bs[b1]).name_key == (#[trigger] bs[b2]).name_key
        && bs[b1].size == bs[b2].size)
}

proof fn lemma_replace_groups_ok(bs: Seq<BucketView>, b0: int, gs: Seq<UniqueView>)
    requires
        0 <= b0 < bs.len(),
        buckets_ok(bs),
        bucket_ok(BucketView { groups: gs, ..bs[b0] }),
    ensures
        buckets_ok(with_groups(bs, b0, gs)),
{
    let bs2 = with_groups(bs, b0, gs);
    assert forall|b: int| 0 <= b < bs2.len() implies bucket_ok(#[trigger] bs2[b]) by {
        if b != b0 {
            assert(bs2[b] == bs[b]);
        }
    }
    assert forall|b1: int, b2: int| 0 <= b1 < b2 < bs2.len() implies !((#[trigger] bs2[b1]).name_key == (#[trigger] bs2[b2]).name_key
        && bs2[b1].size == bs2[b2].size) by {
        assert(bs2[b1].name_key == bs[b1].name_key && bs2[b1].size == bs[b1].size);
        assert(bs2[b2].name_key == bs[b2].name_key && bs2[b2].size == bs[b2].size);
        assert(!(bs[b1].name_key == bs[b2].name_key && bs[b1].size == bs[b2].size));
    }
}

proof fn lemma_pushed_bucket_ok(bv: BucketView, x: UniqueView)
    requires
        bucket_ok(bv),
        lowercase_of(x.filename) == bv.name_key,
        x.file_size == bv.size,
        forall|g: int| 0 <= g < bv.groups.len() ==> !path_equal(#[trigger] bv.groups[g].canonical_path, x.canonical_path),
    ensures
        bucket_ok(BucketView { groups: bv.groups.push(x), ..bv }),
{
    let gs = bv.groups.push(x);
    assert forall|g: int| 0 <= g < gs.len() implies lowercase_of((#[trigger] gs[g]).filename) == bv.name_key && gs[g].file_size == bv.size by {
        if g < bv.groups.len() {
            assert(gs[g] == bv.groups[g]);
        }
    }
    assert forall|g1: int, g2: int| 0 <= g1 < g2 < gs.len() implies !path_equal((#[trigger] gs[g1]).canonical_path, (#[trigger] gs[g2]).canonical_path) by {
        assert(gs[g1] == bv.groups[g1]);
        if g2 < bv.groups.len() {
            assert(gs[g2] == bv.groups[g2]);
        }
    }
}

proof fn lemma_same_but_hash_bucket_ok(bv: BucketView, gs: Seq<UniqueView>)
    requires
        bucket_ok(bv),
        gs.len() == bv.groups.len(),
        forall|k: int| 0 <= k < gs.len() ==> same_but_hash(bv.groups[k], #[trigger] gs[k]),
    ensures
        bucket_ok(BucketView { groups: gs, ..bv }),
{
    assert forall|g: int| 0 <= g < gs.len() implies lowercase_of((#[trigger] gs[g]).filename) == bv.name_key && gs[g].file_size == bv.size by {
        assert(same_but_hash(bv.groups[g], gs[g]));
    }
    assert forall|g1: int, g2: int| 0 <= g1 < g2 < gs.len() implies !path_equal((#[trigger] gs[g1]).canonical_path, (#[trigger] gs[g2]).canonical_path) by {
        assert(same_but_hash(bv.groups[g1], gs[g1]));
        assert(same_but_hash(bv.groups[g2], gs[g2]));
    }
}

proof fn lemma_updated_bucket_ok(bv: BucketView, j: int, x: UniqueView)
    requires
        bucket_ok(bv),
        0 <= j < bv.groups.len(),
        x.filename == bv.groups[j].filename,
        x.file_size == bv.groups[j].file_size,
        x.canonical_path == bv.groups[j].canonical_path,
    ensures
        bucket_ok(BucketView { groups: bv.groups.update(j, x), ..bv }),
{
    let gs = bv.groups.update(j, x);
    assert forall|g: int| 0 <= g < gs.len() implies lowercase_of((#[trigger] gs[g]).filename) == bv.name_key && gs[g].file_size == bv.size by {
        assert(bv.groups[g].filename == gs[g].filename);
    }
    assert forall|g1: int, g2: int| 0 <= g1 < g2 < gs.len() implies !path_equal((#[trigger] gs[g1]).canonical_path, (#[trigger] gs[g2]).canonical_path) by {
        assert(gs[g1].canonical_path == bv.groups[g1].canonical_path);
        assert(gs[g2].canonical_path == bv.groups[g2].canonical_path);
    }
}

/// Offering an occurrence keeps the buckets apart: every sample stays in
/// the bucket of its own lower-cased file name and size, no two buckets
/// share a name and size, and no two samples of a bucket are at the same
/// path. So samples whose lower-cased names or sizes differ are never one,
/// and one path is never two samples.
pub proof fn lemma_offer_keeps_buckets_apart(
    bs: Seq<BucketView>,
    c: ClassifiedOccurrence,
    f: FileFacts,
    flags: FilterFlags,
    hs: Seq<(String, Option<String>)>,
)
    requires
        buckets_ok(bs),
    ensures
        absorb(bs, c, f, flags, hs) matches Absorbed::Done(bs2) ==> buckets_ok(bs2),
{
    if kept(f, flags) {
        let key = lowercase_of(c.occurrence.filename@);
        lemma_find_bucket_bound(bs, key, f.size);
        match find_bucket(bs, key, f.size) {
            None => {
                let x = merged(fresh(c, f, None), c);
                let nb = BucketView { name_key: key, size: f.size, groups: seq![x] };
                let bs2 = bs.push(nb);
                assert(bucket_ok(nb));
                assert forall|b: int| 0 <= b < bs2.len() implies bucket_ok(#[trigger] bs2[b]) by {
                    if b < bs.len() {
                        assert(bs2[b] == bs[b]);
                    }
                }
                assert forall|b1: int, b2: int| 0 <= b1 < b2 < bs2.len() implies !((#[trigger] bs2[b1]).name_key == (#[trigger] bs2[b2]).name_key
                    && bs2[b1].size == bs2[b2].size) by {
                    assert(bs2[b1] == bs[b1]);
                    if b2 < bs.len() {
                        assert(bs2[b2] == bs[b2]);
                    }
                }
            },
            Some(b0) => {
                let bv = bs[b0];
                let gs = bv.groups;
                assert(bucket_ok(bv));
                lemma_find_group_bound(gs, f.canonical_path@);
                let xn = |h: Option<Seq<char>>| merged(fresh(c, f, h), c);
                match find_group(gs, f.canonical_path@) {
                    Some(j) => {
                        lemma_updated_bucket_ok(bv, j, merged(gs[j], c));
                        lemma_replace_groups_ok(bs, b0, gs.update(j, merged(gs[j], c)));
                    },
                    None => {
                        if gs.len() > 0 && f.exists {
                            match hash_lookup(hs, f.canonical_path@) {
                                Some(Some(h)) => {
                                    lemma_hash_pass_keeps(gs, h, hs);
                                    match hash_pass(gs, h, hs) {
                                        HashPass::Found(j, gs2) => {
                                            lemma_same_but_hash_bucket_ok(bv, gs2);
                                            let bv2 = BucketView { groups: gs2, ..bv };
                                            assert(same_but_hash(gs[j], gs2[j]));
                                            lemma_updated_bucket_ok(bv2, j, merged(gs2[j], c));
                                            lemma_replace_groups_ok(bs, b0, gs2.update(j, merged(gs2[j], c)));
                                        },
                                        HashPass::Missed(gs2) => {
                                            lemma_same_but_hash_bucket_ok(bv, gs2);
                                            let bv2 = BucketView { groups: gs2, ..bv };
                                            assert forall|g: int| 0 <= g < gs2.len() implies !path_equal(#[trigger] gs2[g].canonical_path, xn(Some(h)).canonical_path) by {
                                                assert(same_but_hash(gs[g], gs2[g]));
                                            }
                                            lemma_pushed_bucket_ok(bv2, xn(Some(h)));
                                            lemma_replace_groups_ok(bs, b0, gs2.push(xn(Some(h))));
                                        },
                                        HashPass::Need(_) => {},
                                    }
                                },
                                Some(None) => {
                                    lemma_pushed_bucket_ok(bv, xn(None));
                                    lemma_replace_groups_ok(bs, b0, gs.push(xn(None)));
                                },
                                None => {},
                            }
                        } else {
                            lemma_pushed_bucket_ok(bv, xn(None));
                            lemma_replace_groups_ok(bs, b0, gs.push(xn(None)));
                        }
                    },
                }
            },
        }
    }
}


// ---------------------------------------------------------------------------
// Clustering
// ---------------------------------------------------------------------------

/// The content hashes the caller reports are those of `content`, which
/// gives the hash of the file at a path (`None` when it cannot be read).
pub open spec fn reports_match(hs: Seq<(String, Option<String>)>, content: spec_fn(Seq<char>) -> Option<Seq<char>>) -> bool {
    forall|i: int| 0 <= i < hs.len() ==> opt_view((#[trigger] hs[i]).1) == content(hs[i].0@)
}

/// A sample's recorded hash, when it has one, is that of its file, which
/// exists.
pub open spec fn hash_sound(u: UniqueView, content: spec_fn(Seq<char>) -> Option<Seq<char>>) -> bool {
    u.content_hash is Some ==> !u.missing && u.content_hash == content(u.canonical_path)
}

/// Both files exist and have the same content.
pub open spec fn same_content(u: UniqueView, v: UniqueView, content: spec_fn(Seq<char>) -> Option<Seq<char>>) -> bool {
    &&& !u.missing
    &&& !v.missing
    &&& content(u.canonical_path) is Some
    &&& content(u.canonical_path) == content(v.canonical_path)
}

/// Every recorded hash is sound, and no two samples of a bucket are files
/// with the same content.
pub open spec fn hashes_ok(bs: Seq<BucketView>, content: spec_fn(Seq<char>) -> Option<Seq<char>>) -> bool {
    &&& forall|b: int, k: int| 0 <= b < bs.len() && 0 <= k < bs[b].groups.len() ==> hash_sound(#[trigger] bs[b].groups[k], content)
    &&& forall|b: int, k1: int, k2: int| 0 <= b < bs.len() && 0 <= k1 < bs[b].groups.len() && 0 <= k2 < bs[b].groups.len() && k1 != k2
        ==> !same_content(#[trigger] bs[b].groups[k1], #[trigger] bs[b].groups[k2], content)
}

/// An occurrence with the facts `f` has the same content as sample `u`:
/// both files exist and hash alike.
pub open spec fn content_joins(u: UniqueView, f: FileFacts, content: spec_fn(Seq<char>) -> Option<Seq<char>>) -> bool {
    &&& f.exists
    &&& !u.missing
    &&& content(f.canonical_path@) is Some
    &&& content(u.canonical_path) == content(f.canonical_path@)
}

proof fn lemma_lookup_matches(hs: Seq<(String, Option<String>)>, p: Seq<char>, content: spec_fn(Seq<char>) -> Option<Seq<char>>)
    requires
        reports_match(hs, content),
    ensures
        hash_lookup(hs, p) matches Some(x) ==> x == content(p),
    decreases hs.len(),
{
    if hs.len() > 0 {
        assert(opt_view(hs[0].1) == content(hs[0].0@));
        let t = hs.drop_first();
        assert forall|i: int| 0 <= i < t.len() implies opt_view((#[trigger] t[i]).1) == content(t[i].0@) by {
            assert(t[i] == hs[i + 1]);
        }
        lemma_lookup_matches(t, p, content);
    }
}

proof fn lemma_hash_pass_content(gs: Seq<UniqueView>, h: Seq<char>, hs: Seq<(String, Option<String>)>, content: spec_fn(Seq<char>) -> Option<Seq<char>>)
    requires
        reports_match(hs, content),
        forall|k: int| 0 <= k < gs.len() ==> hash_sound(#[trigger] gs[k], content),
    ensures
        match hash_pass(gs, h, hs) {
            HashPass::Found(j, r) => {
                &&& 0 <= j < gs.len()
                &&& r.len() == gs.len()
                &&& !gs[j].missing && content(gs[j].canonical_path) == Some(h)
                &&& forall|k: int| 0 <= k < j ==> !(!(#[trigger] gs[k]).missing && content(gs[k].canonical_path) == Some(h))
                &&& forall|k: int| 0 <= k < gs.len() ==> same_but_hash(gs[k], #[trigger] r[k]) && hash_sound(r[k], content)
            },
            HashPass::Missed(r) => {
                &&& r.len() == gs.len()
                &&& forall|k: int| 0 <= k < gs.len() ==> !(!(#[trigger] gs[k]).missing && content(gs[k].canonical_path) == Some(h))
                &&& forall|k: int| 0 <= k < gs.len() ==> same_but_hash(gs[k], #[trigger] r[k]) && hash_sound(r[k], content)
            },
            HashPass::Need(_) => true,
        },
    decreases gs.len(),
{
    if gs.len() > 0 {
        let t = gs.drop_first();
        assert forall|k: int| 0 <= k < t.len() implies hash_sound(#[trigger] t[k], content) by {
            assert(t[k] == gs[k + 1]);
        }
        lemma_hash_pass_content(t, h, hs, content);
        lemma_lookup_matches(hs, gs[0].canonical_path, content);
        assert(hash_sound(gs[0], content));
        match refreshed(gs[0], hs) {
            None => {},
            Some(g) => {
                assert(same_but_hash(gs[0], g));
                assert(hash_sound(g, content));
                assert((g.content_hash == Some(h)) == (!gs[0].missing && content(gs[0].canonical_path) == Some(h)));
                if g.content_hash == Some(h) {
                    let r = seq![g] + t;
                    assert forall|k: int| 0 <= k < gs.len() implies same_but_hash(gs[k], #[trigger] r[k]) && hash_sound(r[k], content) by {
                        if k > 0 {
                            assert(r[k] == t[k - 1]);
                            assert(t[k - 1] == gs[k]);
                        }
                    }
                } else {
                    match hash_pass(t, h, hs) {
                        HashPass::Found(j, r0) => {
                            let r = seq![g] + r0;
                            assert forall|k: int| 0 <= k < gs.len() implies same_but_hash(gs[k], #[trigger] r[k]) && hash_sound(r[k], content) by {
                                if k > 0 {
                                    assert(r[k] == r0[k - 1]);
                                    assert(t[k - 1] == gs[k]);
                                }
                            }
                            assert forall|k: int| 0 <= k < j + 1 implies !(!(#[trigger] gs[k]).missing && content(gs[k].canonical_path) == Some(h)) by {
                                if k > 0 {
                                    assert(t[k - 1] == gs[k]);
                                }
                            }
                            assert(t[j] == gs[j + 1]);
                        },
                        HashPass::Missed(r0) => {
                            let r = seq![g] + r0;
                            assert forall|k: int| 0 <= k < gs.len() implies same_but_hash(gs[k], #[trigger] r[k]) && hash_sound(r[k], content) by {
                                if k > 0 {
                                    assert(r[k] == r0[k - 1]);
                                    assert(t[k - 1] == gs[k]);
                                }
                            }
                            assert forall|k: int| 0 <= k < gs.len() implies !(!(#[trigger] gs[k]).missing && content(gs[k].canonical_path) == Some(h)) by {
                                if k > 0 {
                                    assert(t[k - 1] == gs[k]);
                                }
                            }
                        },
                        HashPass::Need(_) => {},
                    }
                }
            },
        }
    }
}

proof fn lemma_bucket_hashes_ok(bs: Seq<BucketView>, b0: int, gs: Seq<UniqueView>, content: spec_fn(Seq<char>) -> Option<Seq<char>>)
    requires
        0 <= b0 < bs.len(),
        hashes_ok(bs, content),
        forall|k: int| 0 <= k < gs.len() ==> hash_sound(#[trigger] gs[k], content),
        forall|k1: int, k2: int| 0 <= k1 < gs.len() && 0 <= k2 < gs.len() && k1 != k2 ==> !same_content(#[trigger] gs[k1], #[trigger] gs[k2], content),
    ensures
        hashes_ok(with_groups(bs, b0, gs), content),
{
    let bs2 = with_groups(bs, b0, gs);
    assert forall|b: int, k: int| 0 <= b < bs2.len() && 0 <= k < bs2[b].groups.len() implies hash_sound(#[trigger] bs2[b].groups[k], content) by {
        if b != b0 {
            assert(bs2[b] == bs[b]);
            assert(hash_sound(bs[b].groups[k], content));
        } else {
            assert(bs2[b].groups == gs);
        }
    }
    assert forall|b: int, k1: int, k2: int| 0 <= b < bs2.len() && 0 <= k1 < bs2[b].groups.len() && 0 <= k2 < bs2[b].groups.len() && k1 != k2
        implies !same_content(#[trigger] bs2[b].groups[k1], #[trigger] bs2[b].groups[k2], content) by {
        if b != b0 {
            assert(bs2[b] == bs[b]);
            assert(!same_content(bs[b].groups[k1], bs[b].groups[k2], content));
        } else {
            assert(bs2[b].groups == gs);
            assert(!same_content(gs[k1], gs[k2], content));
        }
    }
}

/// How an occurrence is clustered, in a state whose samples are apart (no
/// two samples of a bucket at one path, none with the same content) and
/// whose recorded hashes are those of `content`, when the caller reports
/// hashes of `content` too. Once it is placed:
/// - it joins the sample of its lower-cased file name and size at the same
///   path; failing one, the sample of that name and size whose file has
///   the same content; that sample counts one more clip and no sample is
///   added;
/// - failing both, it becomes a new sample;
/// - and the samples stay apart.
/// From the empty state on, this is the three-tier rule (path, then name
/// and size, then content) for every run.
pub proof fn lemma_offer_clusters(
    bs: Seq<BucketView>,
    c: ClassifiedOccurrence,
    f: FileFacts,
    flags: FilterFlags,
    hs: Seq<(String, Option<String>)>,
    content: spec_fn(Seq<char>) -> Option<Seq<char>>,
    m: nat,
)
    requires
        buckets_ok(bs),
        hashes_ok(bs, content),
        clips_at_most(bs, m),
        m < u32::MAX,
        reports_match(hs, content),
        kept(f, flags),
        absorb(bs, c, f, flags, hs) is Done,
    ensures
        absorb(bs, c, f, flags, hs) matches Absorbed::Done(bs2) && {
            let key = lowercase_of(c.occurrence.filename@);
            let at = |b: int| bs[b].name_key == key && bs[b].size == f.size;
            &&& hashes_ok(bs2, content)
            &&& forall|b: int, k: int| 0 <= b < bs.len() && 0 <= k < bs[b].groups.len() && at(b) && path_equal(
                (#[trigger] bs[b].groups[k]).canonical_path,
                f.canonical_path@,
            ) ==> joined(bs, bs2, b, k)
            &&& forall|b: int, k: int| 0 <= b < bs.len() && 0 <= k < bs[b].groups.len() && at(b) && (forall|k2: int|
                0 <= k2 < bs[b].groups.len() ==> !path_equal(#[trigger] bs[b].groups[k2].canonical_path, f.canonical_path@))
                && content_joins(#[trigger] bs[b].groups[k], f, content) ==> joined(bs, bs2, b, k)
            &&& (!exists|b: int, k: int| 0 <= b < bs.len() && 0 <= k < bs[b].groups.len() && at(b) && (path_equal(
                (#[trigger] bs[b].groups[k]).canonical_path,
                f.canonical_path@,
            ) || content_joins(bs[b].groups[k], f, content))) ==> sample_count(bs2) == sample_count(bs) + 1
        },
{
    let key = lowercase_of(c.occurrence.filename@);
    lemma_find_bucket_bound(bs, key, f.size);
    match find_bucket(bs, key, f.size) {
        None => {
            let x = merged(fresh(c, f, None), c);
            let nb = BucketView { name_key: key, size: f.size, groups: seq![x] };
            let bs2 = bs.push(nb);
            lemma_all_groups_push(bs, nb);
            assert forall|b: int, k: int| 0 <= b < bs2.len() && 0 <= k < bs2[b].groups.len() implies hash_sound(#[trigger] bs2[b].groups[k], content) by {
                if b < bs.len() {
                    assert(bs2[b] == bs[b]);
                }
            }
            assert forall|b: int, k1: int, k2: int| 0 <= b < bs2.len() && 0 <= k1 < bs2[b].groups.len() && 0 <= k2 < bs2[b].groups.len() && k1 != k2
                implies !same_content(#[trigger] bs2[b].groups[k1], #[trigger] bs2[b].groups[k2], content) by {
                assert(b < bs.len());
                assert(bs2[b] == bs[b]);
            }
        },
        Some(b0) => {
            let gs = bs[b0].groups;
            assert forall|b: int| 0 <= b < bs.len() && bs[b].name_key == key && bs[b].size == f.size implies b == b0 by {
                if b < b0 {
                    assert(!((bs[b]).name_key == (bs[b0]).name_key && bs[b].size == bs[b0].size));
                } else if b > b0 {
                    assert(!((bs[b0]).name_key == (bs[b]).name_key && bs[b0].size == bs[b].size));
                }
            }
            assert(bucket_ok(bs[b0]));
            assert forall|k: int| 0 <= k < gs.len() implies hash_sound(#[trigger] gs[k], content) && gs[k].clip_count <= m by {
                assert(hash_sound(bs[b0].groups[k], content));
                assert(bs[b0].groups[k].clip_count <= m);
            }
            assert forall|k1: int, k2: int| 0 <= k1 < gs.len() && 0 <= k2 < gs.len() && k1 != k2 implies !same_content(#[trigger] gs[k1], #[trigger] gs[k2], content) by {
                assert(!same_content(bs[b0].groups[k1], bs[b0].groups[k2], content));
            }
            lemma_find_group_bound(gs, f.canonical_path@);
            lemma_lookup_matches(hs, f.canonical_path@, content);
            match find_group(gs, f.canonical_path@) {
                Some(j) => {
                    let gs2 = gs.update(j, merged(gs[j], c));
                    let bs2 = with_groups(bs, b0, gs2);
                    assert forall|k: int| 0 <= k < gs.len() && path_equal(gs[k].canonical_path, f.canonical_path@) implies k == j by {
                        if k < j {
                            assert(!path_equal(gs[k].canonical_path, gs[j].canonical_path));
                        } else if k > j {
                            assert(!path_equal(gs[j].canonical_path, gs[k].canonical_path));
                        }
                    }
                    lemma_bucket_hashes_ok(bs, b0, gs2, content);
                    lemma_count_with_groups(bs, b0, gs2);
                    assert forall|i: int| 0 <= i < bs.len() && i != b0 implies #[trigger] bs2[i] == bs[i] by {}
                    assert forall|k: int| 0 <= k < gs.len() implies (#[trigger] gs2[k]).clip_count == gs[k].clip_count + if k == j { 1int } else { 0int } by {}
                    assert(joined(bs, bs2, b0, j));
                },
                None => {
                    if gs.len() > 0 && f.exists {
                        match hash_lookup(hs, f.canonical_path@) {
                            Some(Some(h)) => {
                                lemma_hash_pass_content(gs, h, hs, content);
                                match hash_pass(gs, h, hs) {
                                    HashPass::Found(j, gs2) => {
                                        let gs3 = gs2.update(j, merged(gs2[j], c));
                                        let bs2 = with_groups(bs, b0, gs3);
                                        assert forall|k: int| 0 <= k < gs3.len() implies hash_sound(#[trigger] gs3[k], content)
                                            && gs3[k].missing == gs[k].missing && gs3[k].canonical_path == gs[k].canonical_path by {
                                            assert(same_but_hash(gs[k], gs2[k]));
                                            assert(hash_sound(gs2[k], content));
                                        }
                                        assert forall|k1: int, k2: int| 0 <= k1 < gs3.len() && 0 <= k2 < gs3.len() && k1 != k2 implies !same_content(#[trigger] gs3[k1], #[trigger] gs3[k2], content) by {
                                            assert(gs3[k1].missing == gs[k1].missing && gs3[k1].canonical_path == gs[k1].canonical_path);
                                            assert(gs3[k2].missing == gs[k2].missing && gs3[k2].canonical_path == gs[k2].canonical_path);
                                            assert(!same_content(gs[k1], gs[k2], content));
                                        }
                                        lemma_count_with_groups(bs, b0, gs3);
                                        lemma_bucket_hashes_ok(bs, b0, gs3, content);
                                        assert forall|k: int| 0 <= k < gs.len() && content_joins(gs[k], f, content) implies k == j by {
                                            if k != j {
                                                assert(same_content(gs[k], gs[j], content));
                                            }
                                        }
                                        assert forall|k: int| 0 <= k < gs.len() implies (#[trigger] gs3[k]).clip_count == gs[k].clip_count + if k == j { 1int } else { 0int } by {
                                            assert(same_but_hash(gs[k], gs2[k]));
                                        }
                                        assert forall|i: int| 0 <= i < bs.len() && i != b0 implies #[trigger] bs2[i] == bs[i] by {}
                                        assert(joined(bs, bs2, b0, j));
                                    },
                                    HashPass::Missed(gs2) => {
                                        let x = merged(fresh(c, f, Some(h)), c);
                                        let gs3 = gs2.push(x);
                                        let bs2 = with_groups(bs, b0, gs3);
                                        assert forall|k: int| 0 <= k < gs3.len() implies hash_sound(#[trigger] gs3[k], content) by {
                                            if k < gs2.len() {
                                                assert(gs3[k] == gs2[k]);
                                            }
                                        }
                                        assert forall|k1: int, k2: int| 0 <= k1 < gs3.len() && 0 <= k2 < gs3.len() && k1 != k2 implies !same_content(#[trigger] gs3[k1], #[trigger] gs3[k2], content) by {
                                            if k1 < gs2.len() {
                                                assert(gs3[k1] == gs2[k1]);
                                                assert(same_but_hash(gs[k1], gs2[k1]));
                                            }
                                            if k2 < gs2.len() {
                                                assert(gs3[k2] == gs2[k2]);
                                                assert(same_but_hash(gs[k2], gs2[k2]));
                                            }
                                            if k1 < gs2.len() && k2 < gs2.len() {
                                                assert(!same_content(gs[k1], gs[k2], content));
                                            }
                                        }
                                        lemma_bucket_hashes_ok(bs, b0, gs3, content);
                                        assert(gs3.drop_last() =~= gs2);
                                        lemma_total_with_groups(bs, b0, gs3);
                                        lemma_count_with_groups(bs, b0, gs3);
                                    },
                                    HashPass::Need(_) => {},
                                }
                            },
                            Some(None) => {
                                let x = merged(fresh(c, f, None), c);
                                let gs3 = gs.push(x);
                                let bs2 = with_groups(bs, b0, gs3);
                                assert forall|k: int| 0 <= k < gs3.len() implies hash_sound(#[trigger] gs3[k], content) by {
                                    if k < gs.len() {
                                        assert(gs3[k] == gs[k]);
                                    }
                                }
                                assert forall|k1: int, k2: int| 0 <= k1 < gs3.len() && 0 <= k2 < gs3.len() && k1 != k2 implies !same_content(#[trigger] gs3[k1], #[trigger] gs3[k2], content) by {
                                    if k1 < gs.len() {
                                        assert(gs3[k1] == gs[k1]);
                                    }
                                    if k2 < gs.len() {
                                        assert(gs3[k2] == gs[k2]);
                                    }
                                }
                                lemma_bucket_hashes_ok(bs, b0, gs3, content);
                                lemma_count_with_groups(bs, b0, gs3);
                            },
                            None => {},
                        }
                    } else {
                        let x = merged(fresh(c, f, None), c);
                        let gs3 = gs.push(x);
                        let bs2 = with_groups(bs, b0, gs3);
                        assert forall|k: int| 0 <= k < gs3.len() implies hash_sound(#[trigger] gs3[k], content) by {
                            if k < gs.len() {
                                assert(gs3[k] == gs[k]);
                            }
                        }
                        assert forall|k1: int, k2: int| 0 <= k1 < gs3.len() && 0 <= k2 < gs3.len() && k1 != k2 implies !same_content(#[trigger] gs3[k1], #[trigger] gs3[k2], content) by {
                            if k1 < gs.len() {
                                assert(gs3[k1] == gs[k1]);
                            }
                            if k2 < gs.len() {
                                assert(gs3[k2] == gs[k2]);
                            }
                        }
                        lemma_bucket_hashes_ok(bs, b0, gs3, content);
                        lemma_count_with_groups(bs, b0, gs3);
                    }
                },
            }
        },
    }
}

/// Sample `k` of bucket `b` took one more clip and nothing else changed in
/// the count of samples: every bucket keeps its samples, and every other
/// sample its clips.
pub open spec fn joined(bs: Seq<BucketView>, bs2: Seq<BucketView>, b: int, k: int) -> bool {
    &&& bs2.len() == bs.len()
    &&& forall|i: int| 0 <= i < bs.len() && i != b ==> #[trigger] bs2[i] == bs[i]
    &&& bs2[b].groups.len() == bs[b].groups.len()
    &&& forall|k2: int| 0 <= k2 < bs[b].groups.len() ==> (#[trigger] bs2[b].groups[k2]).clip_count == bs[b].groups[k2].clip_count
        + if k2 == k { 1int } else { 0int }
    &&& sample_count(bs2) == sample_count(bs)
}

proof fn lemma_count_with_groups(bs: Seq<BucketView>, b: int, gs: Seq<UniqueView>)
    requires
        0 <= b < bs.len(),
    ensures
        sample_count(with_groups(bs, b, gs)) + bs[b].groups.len() == sample_count(bs) + gs.len(),
    decreases bs.len(),
{
    let nb = with_groups(bs, b, gs);
    if b < bs.len() - 1 {
        assert(nb.drop_last() =~= with_groups(bs.drop_last(), b, gs));
        lemma_count_with_groups(bs.drop_last(), b, gs);
    } else {
        assert(nb.drop_last() =~= bs.drop_last());
    }
}


/// The empty state is where every run starts: its samples are apart and
/// valid, and it counts no clip.
pub proof fn lemma_empty_state_ok(flags: FilterFlags, content: spec_fn(Seq<char>) -> Option<Seq<char>>)
    ensures
        buckets_ok(Seq::empty()),
        hashes_ok(Seq::empty(), content),
        samples_ok(Seq::empty(), flags),
        clips_at_most(Seq::empty(), 0),
        total_clips(Seq::empty()) == 0,
        sample_count(Seq::empty()) == 0,
{
}

} // verus!
