//! Laying out the output folder: where each copied sample goes.
//!
//! Samples are copied into a tree that mirrors the taxonomy, one folder per
//! category path. Two samples with the same file name in one folder get
//! numbered names: `name (2).ext`, `name (3).ext`, ... The copying itself,
//! and the checks of what already exists on disk, are the caller's part.

use vstd::prelude::*;
use crate::paths::{extension, extension_of, file_stem, file_stem_of, join_of, join_path, path_equal, paths_equal};
use crate::dedup::UniqueSample;
use crate::rank::CategoryReport;
use crate::text::{chars_of, concat_str, decimal, decimal_chars, push_char, string_of, views};

verus! {

/// A sample copied to the output folder.
#[derive(Debug, Clone)]
pub struct CopiedSample {
    pub source: String,
    pub destination: String,
    pub category: String,
    pub project_count: u32,
    pub clip_count: u32,
}

// ---------------------------------------------------------------------------
// Category folders
// ---------------------------------------------------------------------------

/// A name made safe as one path component: `/` and `\` become `_`.
pub open spec fn sanitize(c: Seq<char>) -> Seq<char> {
    c.map_values(|ch: char| if ch == '/' || ch == '\\' { '_' } else { ch })
}

/// The relative folder of a category: its sanitized names pushed one after
/// the other onto an empty path.
pub open spec fn joined_spec(cs: Seq<Seq<char>>) -> Seq<char>
    decreases cs.len(),
{
    if cs.len() == 0 {
        Seq::empty()
    } else {
        join_of(joined_spec(cs.drop_last()), sanitize(cs.last()))
    }
}

fn sanitize_component(c: &String) -> (r: String)
    ensures
        r@ == sanitize(c@),
{
    let cs = chars_of(c.as_str());
    let mut out = String::new();
    let mut i: usize = 0;
    while i < cs.len()
        invariant
            i <= cs@.len(),
            cs@ == c@,
            out@ == sanitize(c@).take(i as int),
        decreases cs.len() - i,
    {
        let ch = cs[i];
        let safe = if ch == '/' || ch == '\\' { '_' } else { ch };
        push_char(&mut out, safe);
        assert(sanitize(c@).take(i + 1) =~= sanitize(c@).take(i as int).push(safe));
        i = i + 1;
    }
    assert(sanitize(c@).take(cs@.len() as int) =~= sanitize(c@));
    out
}

/// The relative folder of a category with the given names.
pub fn joined_components(components: &Vec<String>) -> (r: String)
    ensures
        r@ == joined_spec(views(components@)),
{
    let ghost cs = views(components@);
    let mut p = String::new();
    let mut i: usize = 0;
    assert(cs.take(0) =~= Seq::<Seq<char>>::empty());
    while i < components.len()
        invariant
            i <= components@.len(),
            cs == views(components@),
            p@ == joined_spec(cs.take(i as int)),
        decreases components.len() - i,
    {
        let safe = sanitize_component(&components[i]);
        p = join_path(p.as_str(), safe.as_str());
        assert(cs.take(i + 1).drop_last() =~= cs.take(i as int));
        assert(cs.take(i + 1).last() == components@[i as int]@);
        i = i + 1;
    }
    assert(cs.take(components@.len() as int) =~= cs);
    p
}

/// The folder of a category under the output folder.
pub fn category_dir(output_root: &str, components: &Vec<String>) -> (r: String)
    ensures
        r@ == join_of(output_root@, joined_spec(views(components@))),
{
    let rel = joined_components(components);
    join_path(output_root, rel.as_str())
}

/// Some sample of the category is to be copied: one that is not missing.
pub open spec fn has_copiable(samples: Seq<UniqueSample>) -> bool {
    exists|i: int| 0 <= i < samples.len() && !(#[trigger] samples[i]).missing
}

/// The folder of a category under the output folder, when some sample of it
/// is to be copied: only populated branches of the taxonomy get a folder, so
/// a category whose samples are all missing gets none.
pub fn populated_dir(output_root: &str, category: &CategoryReport) -> (r: Option<String>)
    ensures
        match r {
            Some(d) => has_copiable(category.samples@) && d@ == join_of(output_root@, joined_spec(views(category.components@))),
            None => !has_copiable(category.samples@),
        },
{
    let mut i: usize = 0;
    while i < category.samples.len()
        invariant
            i <= category.samples@.len(),
            forall|k: int| 0 <= k < i ==> (#[trigger] category.samples@[k]).missing,
        decreases category.samples.len() - i,
    {
        if !category.samples[i].missing {
            assert(!category.samples@[i as int].missing);
            return Some(category_dir(output_root, &category.components));
        }
        i = i + 1;
    }
    None
}

// ---------------------------------------------------------------------------
// File-name collisions
// ---------------------------------------------------------------------------

/// A file name's stem (the name itself when it has none) and extension
/// (empty when it has none).
pub open spec fn split_spec(name: Seq<char>) -> (Seq<char>, Seq<char>) {
    (
        match file_stem_of(name) {
            Some(s) => s,
            None => name,
        },
        match extension_of(name) {
            Some(e) => e,
            None => Seq::empty(),
        },
    )
}

/// Splits a file name into its stem and extension.
pub fn split_filename(name: &str) -> (r: (String, String))
    ensures
        (r.0@, r.1@) == split_spec(name@),
{
    let stem = match file_stem(name) {
        Some(s) => s,
        None => String::from_str(name),
    };
    let ext = match extension(name) {
        Some(e) => e,
        None => String::new(),
    };
    (stem, ext)
}

/// The largest number tried before giving up on numbered names.
pub open spec fn max_attempt() -> nat {
    99999
}

/// The numbered file name `stem (n).ext`, or `stem (n)` without an
/// extension.
pub open spec fn numbered_name(name: Seq<char>, n: nat) -> Seq<char> {
    let (stem, ext) = split_spec(name);
    if ext.len() == 0 {
        stem + " ("@ + decimal(n) + ")"@
    } else {
        stem + " ("@ + decimal(n) + ")."@ + ext
    }
}

/// The path tried at attempt `n`: the file name itself first, then the
/// numbered names from 2 on.
pub open spec fn candidate_spec(dir: Seq<char>, name: Seq<char>, n: nat) -> Seq<char> {
    if n <= 1 {
        join_of(dir, name)
    } else {
        join_of(dir, numbered_name(name, n))
    }
}

/// The path tried at attempt `n` (1 is the file name itself).
pub fn collision_candidate(dir: &str, filename: &str, n: u32) -> (r: String)
    ensures
        r@ == candidate_spec(dir@, filename@, n as nat),
{
    if n <= 1 {
        return join_path(dir, filename);
    }
    let (stem, ext) = split_filename(filename);
    let digits = string_of(&decimal_chars(n as u64));
    let a = concat_str(stem.as_str(), " (");
    let b = concat_str(a.as_str(), digits.as_str());
    let name = if ext.as_str().is_empty() {
        concat_str(b.as_str(), ")")
    } else {
        let c = concat_str(b.as_str(), ").");
        concat_str(c.as_str(), ext.as_str())
    };
    join_path(dir, name.as_str())
}

/// `p` is already handed out: some path of `used` equals it.
pub open spec fn in_used(used: Seq<Seq<char>>, p: Seq<char>) -> bool {
    exists|i: int| 0 <= i < used.len() && path_equal(#[trigger] used[i], p)
}

fn used_contains(used: &Vec<String>, p: &String) -> (r: bool)
    ensures
        r == in_used(views(used@), p@),
{
    let mut i: usize = 0;
    while i < used.len()
        invariant
            i <= used@.len(),
            forall|k: int| 0 <= k < i ==> !path_equal(#[trigger] views(used@)[k], p@),
        decreases used.len() - i,
    {
        if paths_equal(used[i].as_str(), p.as_str()) {
            assert(path_equal(views(used@)[i as int], p@));
            return true;
        }
        i = i + 1;
    }
    false
}

/// What to do after trying one candidate path.
#[derive(Debug, PartialEq, Eq)]
pub enum CollisionStep {
    /// The candidate is free and now taken.
    Take(String),
    /// Try attempt `n` next.
    Next(u32),
    /// Every numbered name up to the limit is taken; fall back to a unique
    /// name made with attempt `n`.
    GiveUp(u32),
}

/// One step of the search for a free destination for `filename` in `dir`:
/// attempt `n`'s candidate (see `collision_candidate`) is free when it does
/// not exist on disk and was not handed out before; a free candidate is
/// taken and recorded in `used`. Otherwise the search goes on with the
/// numbered names from 2, up to the limit.
pub fn resolve_collision_step(dir: &str, filename: &str, n: u32, exists_on_disk: bool, used: &mut Vec<String>) -> (r: CollisionStep)
    requires
        1 <= n <= max_attempt(),
    ensures
        ({
            let cand = candidate_spec(dir@, filename@, n as nat);
            let free = !exists_on_disk && !in_used(views(old(used)@), cand);
            &&& free ==> (r matches CollisionStep::Take(p) && p@ == cand && views(final(used)@) == views(old(used)@).push(cand))
            &&& !free ==> final(used)@ == old(used)@
            &&& !free && n == 1 ==> r == CollisionStep::Next(2)
            &&& !free && 2 <= n < max_attempt() ==> r == CollisionStep::Next((n + 1) as u32)
            &&& !free && n == max_attempt() ==> r == CollisionStep::GiveUp((n + 1) as u32)
        }),
{
    let cand = collision_candidate(dir, filename, n);
    if !exists_on_disk && !used_contains(used, &cand) {
        let ghost cv = cand@;
        used.push(cand.clone());
        assert(views(used@) =~= views(old(used)@).push(cv));
        return CollisionStep::Take(cand);
    }
    if n == 1 {
        CollisionStep::Next(2)
    } else if n + 1 > 99999 {
        CollisionStep::GiveUp(n + 1)
    } else {
        CollisionStep::Next(n + 1)
    }
}

/// Attempt `n` is the first whose candidate is not among `used`: every
/// earlier attempt's candidate is, and `n` is within the limit.
pub open spec fn first_free(dir: Seq<char>, name: Seq<char>, used: Seq<Seq<char>>, n: nat) -> bool {
    &&& 1 <= n <= max_attempt()
    &&& !in_used(used, candidate_spec(dir, name, n))
    &&& forall|m: nat| 1 <= m < n ==> #[trigger] in_used(used, candidate_spec(dir, name, m))
}

/// The destination a copy run plans for `filename` in `dir`: the first
/// candidate (the file name itself, then the numbered names) that this run
/// has not handed out yet, which is then handed out. Numbering goes by what
/// the run handed out alone; whether the destination is already on disk is
/// decided afterwards (see `CopyRun::place`). `None`, with `used` unchanged,
/// when every numbered name up to the limit is handed out.
pub fn plan_destination(dir: &str, filename: &str, used: &mut Vec<String>) -> (r: Option<String>)
    ensures
        match r {
            Some(p) => {
                &&& exists|n: nat| first_free(dir@, filename@, views(old(used)@), n) && p@ == candidate_spec(dir@, filename@, n)
                &&& views(final(used)@) == views(old(used)@).push(p@)
            },
            None => {
                &&& forall|m: nat| 1 <= m <= max_attempt() ==> #[trigger] in_used(views(old(used)@), candidate_spec(dir@, filename@, m))
                &&& final(used)@ == old(used)@
            },
        },
{
    let ghost start = views(used@);
    let mut n: u32 = 1;
    loop
        invariant
            1 <= n <= max_attempt(),
            used@ == old(used)@,
            start == views(old(used)@),
            forall|m: nat| 1 <= m < n ==> #[trigger] in_used(start, candidate_spec(dir@, filename@, m)),
        decreases max_attempt() - n,
    {
        match resolve_collision_step(dir, filename, n, false, used) {
            CollisionStep::Take(p) => {
                assert(first_free(dir@, filename@, start, n as nat));
                return Some(p);
            },
            CollisionStep::Next(k) => {
                n = k;
            },
            CollisionStep::GiveUp(_) => {
                assert forall|m: nat| 1 <= m <= max_attempt() implies #[trigger] in_used(start, candidate_spec(dir@, filename@, m)) by {
                    if m < n {
                    }
                }
                return None;
            },
        }
    }
}

// ---------------------------------------------------------------------------
// Progress
// ---------------------------------------------------------------------------

/// Samples over the categories of a report.
pub open spec fn total_spec(report: Seq<CategoryReport>) -> nat
    decreases report.len(),
{
    if report.len() == 0 {
        0
    } else {
        total_spec(report.drop_last()) + report.last().samples@.len()
    }
}

proof fn lemma_total_prefix(report: Seq<CategoryReport>, k: int)
    requires
        0 <= k <= report.len(),
    ensures
        total_spec(report.take(k)) <= total_spec(report),
    decreases report.len() - k,
{
    if k < report.len() {
        lemma_total_prefix(report, k + 1);
        assert(report.take(k + 1).drop_last() =~= report.take(k));
    } else {
        assert(report.take(k) =~= report);
    }
}

/// The number of samples to copy, over all categories (the total that
/// progress counts up to).
pub fn copy_total(report: &Vec<CategoryReport>) -> (r: u32)
    requires
        total_spec(report@) <= u32::MAX,
    ensures
        r == total_spec(report@),
{
    let mut t: u32 = 0;
    let mut i: usize = 0;
    assert(report@.take(0) =~= Seq::<CategoryReport>::empty());
    while i < report.len()
        invariant
            i <= report@.len(),
            total_spec(report@) <= u32::MAX,
            t == total_spec(report@.take(i as int)),
        decreases report.len() - i,
    {
        assert(report@.take(i + 1).drop_last() =~= report@.take(i as int));
        proof {
            lemma_total_prefix(report@, i + 1);
        }
        t = t + report[i].samples.len() as u32;
        i = i + 1;
    }
    assert(report@.take(report@.len() as int) =~= report@);
    t
}

// ---------------------------------------------------------------------------
// The run
// ---------------------------------------------------------------------------

/// Mathematical form of a copied sample.
pub struct CopiedView {
    pub source: Seq<char>,
    pub destination: Seq<char>,
    pub category: Seq<char>,
    pub project_count: u32,
    pub clip_count: u32,
}

impl View for CopiedSample {
    type V = CopiedView;

    open spec fn view(&self) -> CopiedView {
        CopiedView {
            source: self.source@,
            destination: self.destination@,
            category: self.category@,
            project_count: self.project_count,
            clip_count: self.clip_count,
        }
    }
}

/// The views of a sequence of copied samples.
pub open spec fn copied_views(v: Seq<CopiedSample>) -> Seq<CopiedView> {
    v.map_values(|c: CopiedSample| c@)
}

/// The record of sample `s` of category `category` copied to `destination`.
pub open spec fn copy_record(category: CategoryReport, s: UniqueSample, destination: Seq<char>) -> CopiedView {
    CopiedView {
        source: s.canonical_path@,
        destination,
        category: category.path@,
        project_count: s.project_count,
        clip_count: s.clip_count,
    }
}

/// Progress and results of copying a report's samples: how many samples
/// there are, how many have been handled, and the copies made.
pub struct CopyRun {
    total: u32,
    done: u32,
    copied: Vec<CopiedSample>,
}

impl CopyRun {
    /// Samples to handle.
    pub closed spec fn total_view(&self) -> nat {
        self.total as nat
    }

    /// Samples handled so far.
    pub closed spec fn done_view(&self) -> nat {
        self.done as nat
    }

    /// Copies made so far, in order.
    pub closed spec fn copies(&self) -> Seq<CopiedView> {
        copied_views(self.copied@)
    }

    /// A run over every sample of the report, none handled yet.
    pub fn new(report: &Vec<CategoryReport>) -> (r: CopyRun)
        requires
            total_spec(report@) <= u32::MAX,
        ensures
            r.total_view() == total_spec(report@),
            r.done_view() == 0,
            r.copies().len() == 0,
    {
        let r = CopyRun { total: copy_total(report), done: 0, copied: Vec::new() };
        assert(r.copies() =~= Seq::<CopiedView>::empty());
        r
    }

    /// Samples handled so far.
    pub fn done(&self) -> (r: u32)
        ensures
            r == self.done_view(),
    {
        self.done
    }

    /// Samples to handle.
    pub fn total(&self) -> (r: u32)
        ensures
            r == self.total_view(),
    {
        self.total
    }

    /// Whether a sample is to be copied: a missing sample is only counted.
    pub fn wants(s: &UniqueSample) -> (r: bool)
        ensures
            r == !s.missing,
    {
        !s.missing
    }

    /// A missing sample: counted, not copied. Returns the progress, handled
    /// and total.
    pub fn pass(&mut self) -> (r: (u32, u32))
        requires
            old(self).done_view() < old(self).total_view(),
        ensures
            final(self).done_view() == old(self).done_view() + 1,
            final(self).total_view() == old(self).total_view(),
            final(self).copies() == old(self).copies(),
            r == (final(self).done_view() as u32, final(self).total_view() as u32),
    {
        self.done = self.done + 1;
        (self.done, self.total)
    }

    /// Sample `s` of `category`, planned for `destination`: counted, and
    /// recorded when the destination is not on disk yet. A file left at the
    /// destination by an earlier run is left alone: the sample gets no new
    /// file and no record. Returns the destination to copy the sample to,
    /// `None` when it is to be left alone.
    pub fn place(&mut self, category: &CategoryReport, s: &UniqueSample, destination: String, on_disk: bool) -> (r: Option<String>)
        requires
            old(self).done_view() < old(self).total_view(),
        ensures
            final(self).done_view() == old(self).done_view() + 1,
            final(self).total_view() == old(self).total_view(),
            on_disk ==> r is None && final(self).copies() == old(self).copies(),
            !on_disk ==> r == Some(destination) && final(self).copies() == old(self).copies().push(copy_record(*category, *s, destination@)),
    {
        if on_disk {
            self.done = self.done + 1;
            return None;
        }
        let c = CopiedSample {
            source: s.canonical_path.clone(),
            destination: destination.clone(),
            category: category.path.clone(),
            project_count: s.project_count,
            clip_count: s.clip_count,
        };
        let ghost cv = c@;
        self.copied.push(c);
        assert(copied_views(self.copied@) =~= copied_views(old(self).copied@).push(cv));
        self.done = self.done + 1;
        Some(destination)
    }

    /// The copies made, in order.
    pub fn finish(self) -> (r: Vec<CopiedSample>)
        ensures
            copied_views(r@) == self.copies(),
    {
        self.copied
    }
}

// ---------------------------------------------------------------------------
// Laws
// ---------------------------------------------------------------------------

/// A destination handed out is never handed out again in the run: once
/// taken it is among the used paths, so no later step finds any path equal
/// to it free.
pub proof fn lemma_taken_stays_taken(used: Seq<Seq<char>>, taken: Seq<char>, later: Seq<char>)
    requires
        path_equal(taken, later),
    ensures
        in_used(used.push(taken), later),
{
    assert(used.push(taken)[used.len() as int] == taken);
}

} // verus!
