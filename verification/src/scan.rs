//! The scan: its configuration, its checks, and the steps between the
//! stages that read the disk.
//!
//! A scan discovers projects, reads each set, classifies every sample
//! occurrence, drops artifact folders, de-duplicates, ranks the top samples
//! of each selected category, copies them and writes a report. Reading and
//! writing files, and reporting progress, are the caller's part; what is
//! decided between them is here.

use vstd::prelude::*;
use std::sync::Arc;
use crate::cancel::CancellationToken;
use crate::classify::{classify, classify_spec, ManualKeywords, MatchMode};
use crate::dedup::{ClassifiedOccurrence, FilterFlags, UniqueSample};
use crate::discover::DiscoveredProject;
use crate::error::ScanError;
use crate::parse::{copy_sample, ProjectAnalysis, SampleOccurrence, SampleView};
use crate::rank::{AnalysisReport, CategoryReport, ParseErrorEntry, Tiebreaker};
use crate::paths::{join_of, join_path};
use crate::readonly::{path_is_within, within_spec};
use crate::taxonomy::{FlatCategory, Taxonomy, flat_taxonomy, flat_views, is_bundled};
use crate::dedup::opt_view;
use crate::text::{copy_string, copy_strings, decimal, decimal_chars, string_eq, string_of, views};

verus! {

// ---------------------------------------------------------------------------
// Configuration
// ---------------------------------------------------------------------------

/// What to scan.
#[derive(Debug, Clone)]
pub enum ScanSource {
    /// One folder, walked for projects.
    Root(String),
    /// Specific project folders.
    Projects(Vec<String>),
}

/// The user's choices for a scan.
#[derive(Debug, Clone)]
pub struct ScanConfig {
    pub source: ScanSource,
    pub output_folder: String,
    pub selected_categories: Vec<String>,
    pub top_n: usize,
    pub match_mode: MatchMode,
    pub manual_keywords: ManualKeywords,
    pub include_freeze: bool,
    pub include_processed: bool,
    pub include_recorded: bool,
    pub include_missing: bool,
    pub tiebreaker: Tiebreaker,
}

/// Shared state of the application: the token that stops a running scan.
pub struct AppState {
    pub cancel: Arc<CancellationToken>,
}

impl AppState {
    /// State with a token that is not cancelled (see `CancellationToken::new`
    /// for why no clause states the flag's value).
    pub fn new() -> Self {
        AppState { cancel: Arc::new(CancellationToken::new()) }
    }
}

/// Progress of a scan, as reported to the user interface.
#[derive(Debug)]
pub enum ScanEvent {
    DiscoveryStarted { root: String },
    ProjectFound { path: String, total: u32 },
    ProjectParsed { path: String, index: u32, total: u32, samples_found: u32 },
    ParseError { path: String, error: String },
    DedupStarted { total_samples: u64 },
    DedupProgress { processed: u64, total: u64 },
    CopyStarted { total: u32 },
    CopyProgress { copied: u32, total: u32, current_filename: String },
    Complete { report: AnalysisReport },
    Cancelled,
}

/// The taxonomy as the user interface receives it.
#[derive(Debug)]
pub struct TaxonomyResponse {
    pub categories: Vec<FlatCategory>,
}

/// The bundled taxonomy, flattened.
pub fn load_taxonomy() -> (r: Result<TaxonomyResponse, ScanError>)
    ensures
        r matches Ok(t) && exists|tax: Taxonomy| #[trigger] is_bundled(tax) && flat_taxonomy(tax) == flat_views(t.categories@),
{
    let t = match Taxonomy::default_bundled() {
        Ok(t) => t,
        Err(e) => {
            return Err(e);
        },
    };
    let categories = t.flatten();
    Ok(TaxonomyResponse { categories })
}

/// The folders the scan reads: the root, or the chosen projects.
pub open spec fn inputs_spec(source: ScanSource) -> Seq<Seq<char>> {
    match source {
        ScanSource::Root(p) => seq![p@],
        ScanSource::Projects(ps) => views(ps@),
    }
}

/// The folders the scan reads.
pub fn inputs_of(source: &ScanSource) -> (r: Vec<String>)
    ensures
        views(r@) == inputs_spec(*source),
{
    match source {
        ScanSource::Root(p) => {
            let mut v: Vec<String> = Vec::new();
            v.push(p.clone());
            assert(views(v@) =~= seq![p@]);
            v
        },
        ScanSource::Projects(ps) => copy_strings(ps),
    }
}

/// The folder named in progress and errors: the root, else the first
/// chosen project, else the empty path.
pub open spec fn display_root_spec(source: ScanSource) -> Seq<char> {
    match source {
        ScanSource::Root(p) => p@,
        ScanSource::Projects(ps) => if ps@.len() > 0 {
            ps@[0]@
        } else {
            Seq::empty()
        },
    }
}

/// The folder named in progress and errors.
pub fn input_root_display(source: &ScanSource) -> (r: String)
    ensures
        r@ == display_root_spec(*source),
{
    match source {
        ScanSource::Root(p) => p.clone(),
        ScanSource::Projects(ps) => if ps.len() > 0 {
            ps[0].clone()
        } else {
            String::new()
        },
    }
}

/// The filter flags a configuration sets.
pub fn filter_flags(config: &ScanConfig) -> (r: FilterFlags)
    ensures
        r == (FilterFlags {
            include_freeze: config.include_freeze,
            include_processed: config.include_processed,
            include_recorded: config.include_recorded,
            include_missing: config.include_missing,
        }),
{
    FilterFlags {
        include_freeze: config.include_freeze,
        include_processed: config.include_processed,
        include_recorded: config.include_recorded,
        include_missing: config.include_missing,
    }
}

// ---------------------------------------------------------------------------
// The pre-flight check
// ---------------------------------------------------------------------------

/// What the disk says of one input folder: whether it exists, and its
/// canonical form (the path itself where it cannot be canonicalized).
#[derive(Debug, Clone)]
pub struct InputCheck {
    pub exists: bool,
    pub canonical: String,
}

/// The first failing input check at or after `i`, if any.
pub open spec fn input_error_from(inputs: Seq<Seq<char>>, checks: Seq<InputCheck>, output: Seq<char>, i: int) -> Option<ScanErrorKind>
    decreases inputs.len() - i,
{
    if i < 0 || i >= inputs.len() {
        None
    } else if !checks[i].exists {
        Some(ScanErrorKind::PathNotFound(inputs[i]))
    } else if within_spec(output, checks[i].canonical@) {
        Some(ScanErrorKind::OutputInsideInput(inputs[i]))
    } else {
        input_error_from(inputs, checks, output, i + 1)
    }
}

/// The errors the pre-flight check gives, by kind and path.
pub enum ScanErrorKind {
    NoCategoriesSelected,
    PathNotFound(Seq<char>),
    OutputInsideInput(Seq<char>),
}

/// What the pre-flight check finds, if anything.
pub open spec fn validate_spec(
    config: ScanConfig,
    output_exists: bool,
    missing_parent: Option<Seq<char>>,
    output_canonical: Seq<char>,
    checks: Seq<InputCheck>,
) -> Option<ScanErrorKind> {
    if config.selected_categories@.len() == 0 {
        Some(ScanErrorKind::NoCategoriesSelected)
    } else if !output_exists && missing_parent is Some {
        Some(ScanErrorKind::PathNotFound(missing_parent->0))
    } else {
        input_error_from(inputs_spec(config.source), checks, output_canonical, 0)
    }
}

/// The error matches the kind found.
pub open spec fn error_is(e: ScanError, k: ScanErrorKind) -> bool {
    match k {
        ScanErrorKind::NoCategoriesSelected => e is NoCategoriesSelected,
        ScanErrorKind::PathNotFound(p) => e matches ScanError::PathNotFound(q) && q@ == p,
        ScanErrorKind::OutputInsideInput(p) => e matches ScanError::OutputInsideInput(q) && q@ == p,
    }
}

/// `base` with the names `rest` joined on, one after another.
pub open spec fn join_all(base: Seq<char>, rest: Seq<Seq<char>>) -> Seq<char>
    decreases rest.len(),
{
    if rest.len() == 0 {
        base
    } else {
        join_of(join_all(base, rest.drop_last()), rest.last())
    }
}

/// The form in which a folder that may not exist yet is compared with the
/// canonical input folders: the canonical form of its nearest existing
/// ancestor, with the names below that ancestor joined on in order. A
/// folder that exists is its own nearest existing ancestor, with no names
/// below it. So a folder to be created under a scanned folder reached
/// through a link is still seen inside it.
pub fn output_form(ancestor_canonical: &str, rest: &Vec<String>) -> (r: String)
    ensures
        r@ == join_all(ancestor_canonical@, views(rest@)),
{
    let mut p = String::from_str(ancestor_canonical);
    let mut i: usize = 0;
    assert(views(rest@).take(0) =~= Seq::<Seq<char>>::empty());
    while i < rest.len()
        invariant
            i <= rest@.len(),
            p@ == join_all(ancestor_canonical@, views(rest@).take(i as int)),
        decreases rest.len() - i,
    {
        p = join_path(p.as_str(), rest[i].as_str());
        assert(views(rest@).take(i + 1).drop_last() =~= views(rest@).take(i as int));
        assert(views(rest@).take(i + 1).last() == rest@[i as int]@);
        i = i + 1;
    }
    assert(views(rest@).take(rest@.len() as int) =~= views(rest@));
    p
}

/// The pre-flight check of a configuration, given what the disk says:
/// whether the output folder exists, its parent when that parent does not
/// exist either (`None` when it exists or there is none), the output
/// folder's canonical form, and the check of each input folder (in the
/// order of `inputs_of`). In order: no category selected gives
/// `NoCategoriesSelected`; a missing output folder whose parent is missing
/// gives `PathNotFound` with the parent; then for each input folder, one
/// that does not exist gives `PathNotFound`, and one that holds the output
/// folder (or equals it) gives `OutputInsideInput`. The output folder's
/// form is that of `output_form`.
pub fn validate_config(
    config: &ScanConfig,
    output_exists: bool,
    missing_parent: &Option<String>,
    output_canonical: &str,
    checks: &Vec<InputCheck>,
) -> (r: Result<(), ScanError>)
    requires
        checks@.len() == inputs_spec(config.source).len(),
    ensures
        match validate_spec(
            *config,
            output_exists,
            match missing_parent {
                Some(p) => Some(p@),
                None => None,
            },
            output_canonical@,
            checks@,
        ) {
            None => r is Ok,
            Some(k) => r matches Err(e) && error_is(e, k),
        },
{
    if config.selected_categories.len() == 0 {
        return Err(ScanError::NoCategoriesSelected);
    }
    if !output_exists {
        match missing_parent {
            Some(p) => {
                return Err(ScanError::PathNotFound(p.clone()));
            },
            None => {},
        }
    }
    let inputs = inputs_of(&config.source);
    let ghost ins = inputs_spec(config.source);
    let mut i: usize = 0;
    while i < inputs.len()
        invariant
            i <= inputs@.len(),
            config.selected_categories@.len() > 0,
            output_exists || missing_parent is None,
            ins == inputs_spec(config.source),
            views(inputs@) == ins,
            checks@.len() == ins.len(),
            input_error_from(ins, checks@, output_canonical@, 0) == input_error_from(
                ins,
                checks@,
                output_canonical@,
                i as int,
            ),
        decreases inputs.len() - i,
    {
        assert(ins[i as int] == inputs@[i as int]@);
        if !checks[i].exists {
            return Err(ScanError::PathNotFound(inputs[i].clone()));
        }
        if path_is_within(output_canonical, checks[i].canonical.as_str()) {
            return Err(ScanError::OutputInsideInput(inputs[i].clone()));
        }
        i = i + 1;
    }
    Ok(())
}

// ---------------------------------------------------------------------------
// After discovery and reading
// ---------------------------------------------------------------------------

/// No project found is an error naming the scanned folder.
pub fn require_projects(projects: &Vec<DiscoveredProject>, display_root: &String) -> (r: Result<(), ScanError>)
    ensures
        projects@.len() == 0 ==> (r matches Err(ScanError::NoProjectsFound(p)) && p@ == display_root@),
        projects@.len() > 0 ==> r is Ok,
{
    if projects.len() == 0 {
        Err(ScanError::NoProjectsFound(display_root.clone()))
    } else {
        Ok(())
    }
}

/// The analyses read, in project order (reading outcomes paired with the
/// projects, as far as both go).
pub open spec fn ok_analyses(results: Seq<Result<ProjectAnalysis, (String, String)>>) -> Seq<ProjectAnalysis>
    decreases results.len(),
{
    if results.len() == 0 {
        Seq::empty()
    } else {
        let rest = ok_analyses(results.drop_last());
        match results.last() {
            Ok(a) => rest.push(a),
            Err(_) => rest,
        }
    }
}

/// The errors of the failed reads: the project folder and the message.
pub open spec fn read_errors(
    projects: Seq<DiscoveredProject>,
    results: Seq<Result<ProjectAnalysis, (String, String)>>,
) -> Seq<(Seq<char>, Seq<char>)>
    decreases results.len(),
{
    if results.len() == 0 {
        Seq::empty()
    } else {
        let rest = read_errors(projects, results.drop_last());
        match results.last() {
            Ok(_) => rest,
            Err(e) => rest.push((projects[results.len() - 1].project_dir@, e.1@)),
        }
    }
}

/// Splits the reading outcomes, paired with the projects in order, into
/// the analyses read and an error entry (project folder, message) for each
/// project that failed.
pub fn collect_parsed(
    projects: &Vec<DiscoveredProject>,
    results: Vec<Result<ProjectAnalysis, (String, String)>>,
) -> (r: (Vec<ProjectAnalysis>, Vec<ParseErrorEntry>))
    ensures
        ({
            let m = if projects@.len() < results@.len() { projects@.len() } else { results@.len() };
            &&& r.0@ == ok_analyses(results@.take(m as int))
            &&& r.1@.map_values(|e: ParseErrorEntry| (e.project_path@, e.message@)) == read_errors(
                projects@,
                results@.take(m as int),
            )
        }),
{
    let ghost all = results@;
    let m = if projects.len() < results.len() { projects.len() } else { results.len() };
    // Reverse, so that popping yields the outcomes in order.
    let mut rest = results;
    let mut rev: Vec<Result<ProjectAnalysis, (String, String)>> = Vec::new();
    while rest.len() > 0
        invariant
            rest@.len() + rev@.len() == all.len(),
            rest@ == all.take(rest@.len() as int),
            forall|k: int| 0 <= k < rev@.len() ==> #[trigger] rev@[k] == all[all.len() - 1 - k],
        decreases rest@.len(),
    {
        let ghost r0 = rest@;
        let x = rest.pop().unwrap();
        assert(r0 =~= rest@.push(x));
        assert(rest@ =~= all.take(rest@.len() as int));
        rev.push(x);
    }
    let mut analyses: Vec<ProjectAnalysis> = Vec::new();
    let mut errors: Vec<ParseErrorEntry> = Vec::new();
    let mut i: usize = 0;
    assert(all.take(0) =~= Seq::<Result<ProjectAnalysis, (String, String)>>::empty());
    while i < m
        invariant
            m <= projects@.len(),
            m <= all.len(),
            i <= m,
            rev@.len() == all.len() - i,
            forall|k: int| 0 <= k < rev@.len() ==> #[trigger] rev@[k] == all[all.len() - 1 - k],
            analyses@ == ok_analyses(all.take(i as int)),
            errors@.map_values(|e: ParseErrorEntry| (e.project_path@, e.message@)) == read_errors(
                projects@,
                all.take(i as int),
            ),
        decreases m - i,
    {
        let ghost r0 = rev@;
        let x = rev.pop().unwrap();
        assert(x == all[i as int]);
        assert(all.take(i + 1).drop_last() =~= all.take(i as int));
        assert(all.take(i + 1).last() == x);
        match x {
            Ok(a) => {
                analyses.push(a);
            },
            Err(e) => {
                let ghost before = errors@.map_values(|e: ParseErrorEntry| (e.project_path@, e.message@));
                errors.push(ParseErrorEntry { project_path: projects[i].project_dir.clone(), message: e.1 });
                assert(errors@.map_values(|e: ParseErrorEntry| (e.project_path@, e.message@)) =~= before.push(
                    (projects@[i as int].project_dir@, e.1@),
                ));
            },
        }
        i = i + 1;
    }
    (analyses, errors)
}

// ---------------------------------------------------------------------------
// Classification of every occurrence
// ---------------------------------------------------------------------------

/// Every sample occurrence of the analyses, in order.
pub open spec fn all_samples(analyses: Seq<ProjectAnalysis>) -> Seq<SampleOccurrence>
    decreases analyses.len(),
{
    if analyses.len() == 0 {
        Seq::empty()
    } else {
        all_samples(analyses.drop_last()) + analyses.last().samples@
    }
}

/// The occurrences that classify into a selected category, each with its
/// category, in order.
pub open spec fn classified_spec(
    samples: Seq<SampleOccurrence>,
    selected: Seq<String>,
    categories: Seq<FlatCategory>,
    mode: MatchMode,
    manual: ManualKeywords,
) -> Seq<(SampleView, Seq<char>)>
    decreases samples.len(),
{
    if samples.len() == 0 {
        Seq::empty()
    } else {
        let rest = classified_spec(samples.drop_last(), selected, categories, mode, manual);
        match classify_spec(samples.last(), selected, categories, mode, manual) {
            Some(p) => rest.push((samples.last()@, p)),
            None => rest,
        }
    }
}

/// An occurrence and its category, as values.
pub open spec fn classified_pairs(v: Seq<ClassifiedOccurrence>) -> Seq<(SampleView, Seq<char>)> {
    v.map_values(|c: ClassifiedOccurrence| (c.occurrence@, c.category@))
}

/// Classifies every occurrence of the analyses and keeps those that fall
/// into a selected category, in order.
pub fn classify_all(
    analyses: &Vec<ProjectAnalysis>,
    config: &ScanConfig,
    categories: &Vec<FlatCategory>,
) -> (r: Vec<ClassifiedOccurrence>)
    ensures
        classified_pairs(r@) == classified_spec(
            all_samples(analyses@),
            config.selected_categories@,
            categories@,
            config.match_mode,
            config.manual_keywords,
        ),
{
    let ghost sel = config.selected_categories@;
    let ghost cats = categories@;
    let ghost mode = config.match_mode;
    let ghost manual = config.manual_keywords;
    let mut out: Vec<ClassifiedOccurrence> = Vec::new();
    let mut i: usize = 0;
    assert(analyses@.take(0) =~= Seq::<ProjectAnalysis>::empty());
    while i < analyses.len()
        invariant
            i <= analyses@.len(),
            sel == config.selected_categories@,
            cats == categories@,
            mode == config.match_mode,
            manual == config.manual_keywords,
            classified_pairs(out@) == classified_spec(all_samples(analyses@.take(i as int)), sel, cats, mode, manual),
        decreases analyses.len() - i,
    {
        let a = &analyses[i];
        let ghost base = all_samples(analyses@.take(i as int));
        assert(analyses@.take(i + 1).drop_last() =~= analyses@.take(i as int));
        assert(all_samples(analyses@.take(i + 1)) == base + a.samples@);
        let mut j: usize = 0;
        assert(base + a.samples@.take(0) =~= base);
        while j < a.samples.len()
            invariant
                j <= a.samples@.len(),
                sel == config.selected_categories@,
                cats == categories@,
                mode == config.match_mode,
                manual == config.manual_keywords,
                classified_pairs(out@) == classified_spec(base + a.samples@.take(j as int), sel, cats, mode, manual),
            decreases a.samples.len() - j,
        {
            let occ = &a.samples[j];
            let ghost cur = base + a.samples@.take(j + 1);
            assert(cur.drop_last() =~= base + a.samples@.take(j as int));
            assert(cur.last() == *occ);
            let ghost before = classified_pairs(out@);
            match classify(
                occ,
                config.selected_categories.as_slice(),
                categories.as_slice(),
                config.match_mode,
                &config.manual_keywords,
            ) {
                Some(cat) => {
                    let ghost cv = cat@;
                    out.push(ClassifiedOccurrence { occurrence: copy_sample(occ), category: cat });
                    assert(classified_pairs(out@) =~= before.push((occ@, cv)));
                },
                None => {},
            }
            j = j + 1;
        }
        assert(a.samples@.take(a.samples@.len() as int) =~= a.samples@);
        i = i + 1;
    }
    assert(analyses@.take(analyses@.len() as int) =~= analyses@);
    out
}

// ---------------------------------------------------------------------------
// Ranking and the report
// ---------------------------------------------------------------------------

/// The last category with the given path, if any.
pub open spec fn last_with_path(categories: Seq<FlatCategory>, key: Seq<char>) -> Option<FlatCategory>
    decreases categories.len(),
{
    if categories.len() == 0 {
        None
    } else if categories.last().path@ == key {
        Some(categories.last())
    } else {
        last_with_path(categories.drop_last(), key)
    }
}

/// Each key of the index once, with the value of the first entry for it.
pub open spec fn index_lookup(index: Seq<(String, (String, Vec<String>))>, key: Seq<char>) -> Option<(Seq<char>, Seq<Seq<char>>)>
    decreases index.len(),
{
    if index.len() == 0 {
        None
    } else if index[0].0@ == key {
        Some((index[0].1.0@, views(index[0].1.1@)))
    } else {
        index_lookup(index.drop_first(), key)
    }
}

/// The category index: each category path with the name and components of
/// the last category that has it, as a map would keep them.
pub fn category_index(categories: &Vec<FlatCategory>) -> (r: Vec<(String, (String, Vec<String>))>)
    ensures
        forall|key: Seq<char>| #[trigger] index_lookup(r@, key) == match last_with_path(categories@, key) {
            Some(c) => Some((c.name@, views(c.components@))),
            None => None,
        },
{
    let mut out: Vec<(String, (String, Vec<String>))> = Vec::new();
    let mut i: usize = 0;
    assert(categories@.take(0) =~= Seq::<FlatCategory>::empty());
    while i < categories.len()
        invariant
            i <= categories@.len(),
            forall|key: Seq<char>| #[trigger] index_lookup(out@, key) == match last_with_path(categories@.take(i as int), key) {
                Some(c) => Some((c.name@, views(c.components@))),
                None => None,
            },
        decreases categories.len() - i,
    {
        let c = &categories[i];
        let entry = (c.path.clone(), (c.name.clone(), copy_strings(&c.components)));
        let ghost old_out = out@;
        let mut k: usize = 0;
        let mut found = false;
        while k < out.len() && !found
            invariant
                k <= out@.len(),
                out@ == old_out,
                !found ==> forall|m: int| 0 <= m < k ==> #[trigger] out@[m].0@ != c.path@,
                found ==> k < out@.len() && out@[k as int].0@ == c.path@ && forall|m: int| 0 <= m < k ==> #[trigger] out@[m].0@ != c.path@,
            decreases out@.len() - k + (if found { 0int } else { 1int }),
        {
            if string_eq(&out[k].0, &c.path) {
                found = true;
            } else {
                k = k + 1;
            }
        }
        let ghost ev = (entry.0@, (entry.1.0@, views(entry.1.1@)));
        if found {
            out.set(k, entry);
        } else {
            out.push(entry);
        }
        proof {
            assert(categories@.take(i + 1).drop_last() =~= categories@.take(i as int));
            assert(categories@.take(i + 1).last() == *c);
            assert forall|key: Seq<char>| #[trigger] index_lookup(out@, key) == match last_with_path(categories@.take(i + 1), key) {
                Some(c) => Some((c.name@, views(c.components@))),
                None => None,
            } by {
                lemma_index_lookup_update(old_out, out@, k as int, found, c.path@, key);
            }
        }
        i = i + 1;
    }
    assert(categories@.take(categories@.len() as int) =~= categories@);
    out
}

proof fn lemma_index_lookup_update(
    old: Seq<(String, (String, Vec<String>))>,
    new: Seq<(String, (String, Vec<String>))>,
    k: int,
    found: bool,
    path: Seq<char>,
    key: Seq<char>,
)
    requires
        found ==> 0 <= k < old.len() && old[k].0@ == path && new.len() == old.len() && new[k].0@ == path
            && forall|m: int| 0 <= m < new.len() && m != k ==> new[m] == old[m],
        found ==> forall|m: int| 0 <= m < k ==> #[trigger] old[m].0@ != path,
        !found ==> forall|m: int| 0 <= m < old.len() ==> #[trigger] old[m].0@ != path,
        !found ==> new.len() == old.len() + 1 && new[old.len() as int].0@ == path && forall|m: int|
            0 <= m < old.len() ==> new[m] == old[m],
    ensures
        key != path ==> index_lookup(new, key) == index_lookup(old, key),
        key == path ==> index_lookup(new, key) == Some((new[if found { k } else { old.len() as int }].1.0@, views(new[if found { k } else { old.len() as int }].1.1@))),
    decreases old.len(),
{
    if old.len() > 0 {
        if found && k == 0 {
            if key != path {
                assert(new.drop_first() =~= old.drop_first());
            }
        } else {
            assert(new[0] == old[0]);
            let k2 = if found { k - 1 } else { k };
            assert forall|m: int| 0 <= m < old.drop_first().len() && (!found || m != k2) implies new.drop_first()[m] == old.drop_first()[m] by {}
            if !found {
                assert(new.drop_first()[old.drop_first().len() as int] == new[old.len() as int]);
            }
            lemma_index_lookup_update(old.drop_first(), new.drop_first(), k2, found, path, key);
        }
    } else if !found {
        assert(new.drop_first().len() == 0);
        assert(index_lookup(new.drop_first(), key) is None);
    }
}

/// Samples kept over the categories.
pub open spec fn unique_total(cats: Seq<CategoryReport>) -> nat
    decreases cats.len(),
{
    if cats.len() == 0 {
        0
    } else {
        unique_total(cats.drop_last()) + cats.last().samples@.len()
    }
}

/// Clip-level occurrences over the categories.
pub open spec fn occurrence_total(cats: Seq<CategoryReport>) -> nat
    decreases cats.len(),
{
    if cats.len() == 0 {
        0
    } else {
        occurrence_total(cats.drop_last()) + cats.last().total_occurrences as nat
    }
}

proof fn lemma_totals_prefix(cats: Seq<CategoryReport>, k: int)
    requires
        0 <= k <= cats.len(),
    ensures
        unique_total(cats.take(k)) <= unique_total(cats),
        occurrence_total(cats.take(k)) <= occurrence_total(cats),
    decreases cats.len() - k,
{
    if k < cats.len() {
        lemma_totals_prefix(cats, k + 1);
        assert(cats.take(k + 1).drop_last() =~= cats.take(k));
    } else {
        assert(cats.take(k) =~= cats);
    }
}

/// The report of a finished scan: the ranked categories, the read errors,
/// the output folder, the number of projects read, the totals of kept
/// samples and of their occurrences over the categories, the version and
/// the time of the run.
pub fn build_report(
    categories: Vec<CategoryReport>,
    parse_errors: Vec<ParseErrorEntry>,
    output_root: String,
    projects_scanned: u32,
    app_version: String,
    run_timestamp: String,
) -> (r: AnalysisReport)
    requires
        unique_total(categories@) <= u32::MAX,
        occurrence_total(categories@) <= u64::MAX,
    ensures
        r.categories@ == categories@,
        r.parse_errors@ == parse_errors@,
        r.output_root@ == output_root@,
        r.projects_scanned == projects_scanned,
        r.unique_samples == unique_total(categories@),
        r.total_occurrences == occurrence_total(categories@),
        r.app_version@ == app_version@,
        r.run_timestamp@ == run_timestamp@,
{
    let mut unique: u32 = 0;
    let mut occurrences: u64 = 0;
    let mut i: usize = 0;
    assert(categories@.take(0) =~= Seq::<CategoryReport>::empty());
    while i < categories.len()
        invariant
            i <= categories@.len(),
            unique_total(categories@) <= u32::MAX,
            occurrence_total(categories@) <= u64::MAX,
            unique == unique_total(categories@.take(i as int)),
            occurrences == occurrence_total(categories@.take(i as int)),
        decreases categories.len() - i,
    {
        assert(categories@.take(i + 1).drop_last() =~= categories@.take(i as int));
        proof {
            lemma_totals_prefix(categories@, i + 1);
        }
        unique = unique + categories[i].samples.len() as u32;
        occurrences = occurrences + categories[i].total_occurrences;
        i = i + 1;
    }
    assert(categories@.take(categories@.len() as int) =~= categories@);
    AnalysisReport {
        categories,
        parse_errors,
        output_root,
        projects_scanned,
        unique_samples: unique,
        total_occurrences: occurrences,
        app_version,
        run_timestamp,
    }
}

// ---------------------------------------------------------------------------
// The time of the run
// ---------------------------------------------------------------------------

/// What the `time` crate gives for the instant `secs` seconds after the
/// Unix epoch: `None` when the instant is out of its range, else the
/// outcome of formatting it (UTC) in its default ISO 8601 form.
pub uninterp spec fn iso8601_of(secs: i64) -> Option<Option<Seq<char>>>;

/// `OffsetDateTime::from_unix_timestamp`, then `format` with
/// `Iso8601::DEFAULT`, from the `time` crate. The result is named
/// `iso8601_of`; nothing more is claimed of it.
#[verifier::external_body]
fn iso8601_utc(secs: i64) -> (r: Option<Option<String>>)
    ensures
        match r {
            None => iso8601_of(secs) is None,
            Some(f) => iso8601_of(secs) == Some(opt_view(f)),
        },
{
    match time::OffsetDateTime::from_unix_timestamp(secs) {
        Ok(dt) => Some(dt.format(&time::format_description::well_known::Iso8601::DEFAULT).ok()),
        Err(_) => None,
    }
}

/// The text of the run's time, `secs` seconds after the Unix epoch: the
/// ISO 8601 form of that instant (of the epoch itself when the instant is
/// out of range, the seconds taken as a signed number), or the decimal
/// seconds when formatting fails.
pub open spec fn timestamp_spec(secs: u64) -> Seq<char> {
    let formatted = match iso8601_of(secs as i64) {
        Some(f) => f,
        None => match iso8601_of(0) {
            Some(f) => f,
            None => None,
        },
    };
    match formatted {
        Some(t) => t,
        None => decimal(secs as nat),
    }
}

/// The text of the run's time, from the seconds since the Unix epoch.
pub fn format_timestamp(secs: u64) -> (r: String)
    ensures
        r@ == timestamp_spec(secs),
{
    #[verifier::truncate]
    let signed = secs as i64;
    let formatted = match iso8601_utc(signed) {
        Some(f) => f,
        None => match iso8601_utc(0) {
            Some(f) => f,
            None => None,
        },
    };
    match formatted {
        Some(t) => t,
        None => string_of(&decimal_chars(secs)),
    }
}

// ---------------------------------------------------------------------------
// Progress throttling
// ---------------------------------------------------------------------------

/// De-duplication reports progress every 32 occurrences.
pub fn dedup_progress_due(processed: u64) -> (r: bool)
    ensures
        r == (processed % 32 == 0),
{
    processed % 32 == 0
}

/// A de-duplication progress report is passed on to the user interface
/// when at least 1% of the total (and at least one occurrence) has been
/// processed since the last one passed on, or at the end.
pub fn dedup_progress_emits(processed: u64, last: u64, total: u64) -> (r: bool)
    requires
        last <= processed,
    ensures
        r == (processed - last >= (if total / 100 > 1 { total / 100 } else { 1 }) || processed == total),
{
    let step = if total / 100 > 1 { total / 100 } else { 1 };
    processed - last >= step || processed == total
}

} // verus!
