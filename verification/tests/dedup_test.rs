use soundvault_lib::dedup::{
    filter_artifact_folders, is_excluded_artifact, is_factory_path, record_hash, ClassifiedOccurrence, DedupState,
    DedupStep, FileFacts, FilterFlags, UniqueSample,
};
use soundvault_lib::parse::{SampleContext, SampleOccurrence};

fn make_occurrence(path: &str, project: &str, category: &str) -> ClassifiedOccurrence {
    let filename = path.rsplit('/').next().unwrap_or("").to_string();
    ClassifiedOccurrence {
        occurrence: SampleOccurrence {
            path: path.to_string(),
            filename,
            declared_size: None,
            declared_crc: None,
            original_path: None,
            track_name: None,
            group_path: vec![],
            project_name: project.to_string(),
            project_root: format!("/{}", project),
            context: SampleContext::AudioClip,
        },
        category: category.to_string(),
    }
}

/// Runs de-duplication over occurrences whose files are `files` (path and
/// content); any other path is missing.
fn run_dedup(occurrences: Vec<ClassifiedOccurrence>, files: &[(&str, &[u8])], flags: &FilterFlags) -> Vec<UniqueSample> {
    let filtered = filter_artifact_folders(occurrences, flags);
    let mut state = DedupState::new();
    let mut hashes: Vec<(String, Option<String>)> = Vec::new();
    let content = |p: &str| files.iter().find(|(q, _)| *q == p).map(|(_, d)| *d);
    for c in &filtered {
        let p = c.occurrence.path.clone();
        let data = content(&p);
        let facts = FileFacts { canonical_path: p.clone(), size: data.map(|d| d.len() as u64), exists: data.is_some() };
        loop {
            match state.offer(c, &facts, flags, &hashes) {
                DedupStep::Placed => break,
                DedupStep::NeedHash(q) => {
                    let data = content(&q);
                    record_hash(&mut hashes, q, data);
                },
            }
        }
    }
    state.finish()
}

const KICKS: &str = "Drums / Kicks & Bassdrums";

#[test]
fn identical_files_at_different_paths_collapse() {
    let files: [(&str, &[u8]); 2] = [("/t/a/foo.wav", b"hello world"), ("/t/b/foo.wav", b"hello world")];
    let occurrences = vec![
        make_occurrence("/t/a/foo.wav", "ProjectA", KICKS),
        make_occurrence("/t/b/foo.wav", "ProjectB", KICKS),
    ];
    let uniques = run_dedup(occurrences, &files, &FilterFlags::default());
    assert_eq!(uniques.len(), 1, "expected dedup to collapse identical content");
    assert_eq!(uniques[0].project_count, 2);
    assert_eq!(uniques[0].clip_count, 2);
}

#[test]
fn multiple_uses_in_one_project_count_as_one_project() {
    let files: [(&str, &[u8]); 1] = [("/t/foo.wav", b"abc")];
    let occurrences = vec![
        make_occurrence("/t/foo.wav", "ProjectX", KICKS),
        make_occurrence("/t/foo.wav", "ProjectX", KICKS),
        make_occurrence("/t/foo.wav", "ProjectX", KICKS),
    ];
    let uniques = run_dedup(occurrences, &files, &FilterFlags::default());
    assert_eq!(uniques.len(), 1);
    assert_eq!(uniques[0].project_count, 1);
    assert_eq!(uniques[0].clip_count, 3);
}

#[test]
fn missing_files_dropped_by_default() {
    let occurrences = vec![make_occurrence("/nope/missing.wav", "ProjectZ", KICKS)];
    let uniques = run_dedup(occurrences, &[], &FilterFlags::default());
    assert!(uniques.is_empty());
}

#[test]
fn missing_files_kept_when_opted_in() {
    let occurrences = vec![make_occurrence("/nope/missing.wav", "ProjectZ", KICKS)];
    let mut flags = FilterFlags::default();
    flags.include_missing = true;
    let uniques = run_dedup(occurrences, &[], &flags);
    assert_eq!(uniques.len(), 1);
    assert!(uniques[0].missing);
}

#[test]
fn same_name_and_size_but_different_content_stay_apart() {
    let files: [(&str, &[u8]); 2] = [("/t/a/foo.wav", b"aaaa"), ("/t/b/foo.wav", b"bbbb")];
    let occurrences = vec![
        make_occurrence("/t/a/foo.wav", "ProjectA", KICKS),
        make_occurrence("/t/b/foo.wav", "ProjectB", KICKS),
    ];
    let uniques = run_dedup(occurrences, &files, &FilterFlags::default());
    assert_eq!(uniques.len(), 2);
    assert_eq!(uniques[0].canonical_path, "/t/a/foo.wav");
    assert_eq!(uniques[1].canonical_path, "/t/b/foo.wav");
    assert!(uniques[0].content_hash.is_some());
    assert!(uniques[1].content_hash.is_some());
    assert_ne!(uniques[0].content_hash, uniques[1].content_hash);
}

#[test]
fn projects_are_listed_sorted_and_once() {
    let files: [(&str, &[u8]); 1] = [("/t/foo.wav", b"abc")];
    let occurrences = vec![
        make_occurrence("/t/foo.wav", "Zeta", KICKS),
        make_occurrence("/t/foo.wav", "Alpha", KICKS),
        make_occurrence("/t/foo.wav", "Zeta", KICKS),
    ];
    let uniques = run_dedup(occurrences, &files, &FilterFlags::default());
    assert_eq!(uniques.len(), 1);
    assert_eq!(uniques[0].projects, vec!["Alpha".to_string(), "Zeta".to_string()]);
    assert_eq!(uniques[0].project_count, 2);
    assert_eq!(uniques[0].clip_count, 3);
    assert_eq!(uniques[0].file_size, Some(3));
    assert_eq!(uniques[0].category.as_deref(), Some(KICKS));
}

#[test]
fn excludes_freeze_by_default() {
    let f = FilterFlags::default();
    assert!(is_excluded_artifact("/Users/x/Project/Samples/Processed/Freeze/foo.wav", &f));
}

#[test]
fn freeze_opt_in_keeps_it() {
    let mut f = FilterFlags::default();
    f.include_freeze = true;
    assert!(!is_excluded_artifact("/Users/x/Project/Samples/Processed/Freeze/foo.wav", &f));
}

#[test]
fn excludes_processed_by_default() {
    let f = FilterFlags::default();
    assert!(is_excluded_artifact("/Users/x/Project/Samples/Processed/Crop/foo.wav", &f));
}

#[test]
fn excludes_recorded_by_default() {
    let f = FilterFlags::default();
    assert!(is_excluded_artifact("/Users/x/Project/Samples/Recorded/foo.wav", &f));
}

#[test]
fn keeps_imported() {
    let f = FilterFlags::default();
    assert!(!is_excluded_artifact("/Users/x/Project/Samples/Imported/foo.wav", &f));
}

#[test]
fn all_opt_ins_keep_artifacts() {
    let f = FilterFlags { include_freeze: true, include_processed: true, include_recorded: true, include_missing: true };
    assert!(!is_excluded_artifact("/Users/x/Project/Samples/Processed/Freeze/foo.wav", &f));
    assert!(!is_excluded_artifact("/Users/x/Project/Samples/Processed/Crop/foo.wav", &f));
    assert!(!is_excluded_artifact("/Users/x/Project/Samples/Recorded/foo.wav", &f));
}

#[test]
fn artifact_names_are_case_insensitive_and_need_samples() {
    let f = FilterFlags::default();
    assert!(is_excluded_artifact("/P/samples/PROCESSED/crop/foo.wav", &f));
    assert!(!is_excluded_artifact("/P/Audio/Processed/Crop/foo.wav", &f));
}

#[test]
fn filter_keeps_order_of_survivors() {
    let occurrences = vec![
        make_occurrence("/P/Samples/Imported/a.wav", "P", KICKS),
        make_occurrence("/P/Samples/Recorded/b.wav", "P", KICKS),
        make_occurrence("/P/Samples/Imported/c.wav", "P", KICKS),
    ];
    let kept = filter_artifact_folders(occurrences, &FilterFlags::default());
    let names: Vec<&str> = kept.iter().map(|c| c.occurrence.filename.as_str()).collect();
    assert_eq!(names, vec!["a.wav", "c.wav"]);
}

#[test]
fn factory_content_is_recognised() {
    assert!(is_factory_path("/Users/x/Music/Ableton/Factory Packs/kick.wav"));
    assert!(is_factory_path("/Users/x/Live Packs/Drums/kick.wav"));
    assert!(!is_factory_path("/Users/x/Samples/kick.wav"));
}

#[test]
fn content_hash_is_blake3_hex() {
    let mut hs = Vec::new();
    record_hash(&mut hs, "/e".to_string(), Some(b""));
    record_hash(&mut hs, "/a".to_string(), Some(b"a"));
    record_hash(&mut hs, "/b".to_string(), Some(b"b"));
    record_hash(&mut hs, "/gone".to_string(), None);
    assert_eq!(hs[0].0, "/e");
    assert_eq!(hs[0].1.as_deref(), Some("af1349b9f5f9a1a6a0404dea36dcc9499bcb25c9adc112b7cc9a93cae41f3262"));
    assert_ne!(hs[1].1, hs[2].1);
    assert_eq!(hs[1].1.as_ref().unwrap().len(), 64);
    assert_eq!(hs[3].1, None);
}

#[test]
fn reported_samples_count_every_kept_clip() {
    let files: [(&str, &[u8]); 3] =
        [("/t/a/kick.wav", b"one"), ("/t/b/kick.wav", b"one"), ("/t/snare.wav", b"two")];
    let occurrences = vec![
        make_occurrence("/t/a/kick.wav", "Zeta", KICKS),
        make_occurrence("/t/b/kick.wav", "Alpha", KICKS),
        make_occurrence("/t/a/kick.wav", "Zeta", KICKS),
        make_occurrence("/t/snare.wav", "Alpha", "Drums / Snares"),
        make_occurrence("/t/gone.wav", "Alpha", KICKS),
    ];
    for include_missing in [false, true] {
        let flags = FilterFlags { include_missing, ..FilterFlags::default() };
        let uniques = run_dedup(occurrences.clone(), &files, &flags);
        let clips: u32 = uniques.iter().map(|u| u.clip_count).sum();
        assert_eq!(clips, if include_missing { 5 } else { 4 });
        for u in &uniques {
            assert!(u.category.is_some());
            assert_eq!(u.project_count as usize, u.projects.len());
            assert!(u.projects.windows(2).all(|w| w[0] < w[1]));
            assert!(1 <= u.project_count && u.project_count <= u.clip_count);
            assert!(include_missing || !u.missing);
        }
    }
}

#[test]
fn names_differing_in_case_or_size_are_apart_by_size_only() {
    let files: [(&str, &[u8]); 3] = [("/t/a/KICK.wav", b"same"), ("/t/b/kick.wav", b"same"), ("/t/c/kick.wav", b"longer")];
    let occurrences = vec![
        make_occurrence("/t/a/KICK.wav", "A", KICKS),
        make_occurrence("/t/b/kick.wav", "B", KICKS),
        make_occurrence("/t/c/kick.wav", "C", KICKS),
    ];
    let uniques = run_dedup(occurrences, &files, &FilterFlags::default());
    assert_eq!(uniques.len(), 2);
    assert_eq!(uniques[0].clip_count, 2);
    assert_eq!(uniques[0].projects, vec!["A".to_string(), "B".to_string()]);
    assert_eq!(uniques[1].canonical_path, "/t/c/kick.wav");
    assert_eq!(uniques[1].clip_count, 1);
}

#[test]
fn a_copy_joins_a_bucket_that_already_holds_samples() {
    let files: [(&str, &[u8]); 4] = [
        ("/t/a/hat.wav", b"aaaa"),
        ("/t/b/hat.wav", b"bbbb"),
        ("/t/c/hat.wav", b"bbbb"),
        ("/t/d/hat.wav", b"cccc"),
    ];
    let occurrences = vec![
        make_occurrence("/t/a/hat.wav", "P1", KICKS),
        make_occurrence("/t/b/hat.wav", "P2", KICKS),
        make_occurrence("/t/a/hat.wav", "P3", KICKS),
        make_occurrence("/t/c/hat.wav", "P4", KICKS),
        make_occurrence("/t/d/hat.wav", "P5", KICKS),
    ];
    let uniques = run_dedup(occurrences, &files, &FilterFlags::default());
    assert_eq!(uniques.len(), 3);
    assert_eq!(uniques[0].canonical_path, "/t/a/hat.wav");
    assert_eq!(uniques[0].clip_count, 2);
    assert_eq!(uniques[1].canonical_path, "/t/b/hat.wav");
    assert_eq!(uniques[1].projects, vec!["P2".to_string(), "P4".to_string()]);
    assert_eq!(uniques[2].canonical_path, "/t/d/hat.wav");
    assert_eq!(uniques[2].clip_count, 1);
}
