use soundvault_lib::cancel::CancellationToken;
use soundvault_lib::classify::{ManualKeywords, MatchMode};
use soundvault_lib::discover::DiscoveredProject;
use soundvault_lib::error::ScanError;
use soundvault_lib::parse::{ProjectAnalysis, SampleContext, SampleOccurrence};
use soundvault_lib::rank::{CategoryReport, ParseErrorEntry, Tiebreaker};
use soundvault_lib::scan::{
    build_report, category_index, classify_all, collect_parsed, dedup_progress_due, dedup_progress_emits,
    filter_flags, format_timestamp, input_root_display, inputs_of, load_taxonomy, require_projects, AppState,
    ScanConfig, ScanSource,
};
use soundvault_lib::taxonomy::Taxonomy;

fn config(source: ScanSource, selected: Vec<String>) -> ScanConfig {
    ScanConfig {
        source,
        output_folder: "/out".to_string(),
        selected_categories: selected,
        top_n: 5,
        match_mode: MatchMode::AutoDetect,
        manual_keywords: ManualKeywords::default(),
        include_freeze: true,
        include_processed: false,
        include_recorded: true,
        include_missing: false,
        tiebreaker: Tiebreaker::ProjectThenClip,
    }
}

fn sample(filename: &str) -> SampleOccurrence {
    SampleOccurrence {
        path: format!("/s/{filename}"),
        filename: filename.to_string(),
        declared_size: None,
        declared_crc: None,
        original_path: None,
        track_name: None,
        group_path: vec![],
        project_name: "P".to_string(),
        project_root: "/p".to_string(),
        context: SampleContext::AudioClip,
    }
}

fn analysis(samples: Vec<SampleOccurrence>) -> ProjectAnalysis {
    ProjectAnalysis {
        project_name: "P".to_string(),
        project_root: "/p".to_string(),
        als_path: "/p/P.als".to_string(),
        samples,
    }
}

#[test]
fn cancellation_token_flips() {
    let t = CancellationToken::new();
    assert!(!t.is_cancelled());
    t.cancel();
    t.cancel();
    assert!(t.is_cancelled());
    t.reset();
    assert!(!t.is_cancelled());
    let s = AppState::new();
    assert!(!s.cancel.is_cancelled());
}

#[test]
fn load_taxonomy_gives_the_flat_categories() {
    let r = load_taxonomy().unwrap();
    assert_eq!(r.categories[0].path, "Drums");
    assert!(r.categories.iter().any(|c| c.path == "Drums / Toms"));
}

#[test]
fn source_inputs_and_display_root() {
    let root = ScanSource::Root("/music".to_string());
    assert_eq!(inputs_of(&root), vec!["/music".to_string()]);
    assert_eq!(input_root_display(&root), "/music");
    let ps = ScanSource::Projects(vec!["/a".to_string(), "/b".to_string()]);
    assert_eq!(inputs_of(&ps), vec!["/a".to_string(), "/b".to_string()]);
    assert_eq!(input_root_display(&ps), "/a");
    assert_eq!(input_root_display(&ScanSource::Projects(vec![])), "");
}

#[test]
fn flags_follow_the_config() {
    let f = filter_flags(&config(ScanSource::Root("/m".to_string()), vec![]));
    assert!(f.include_freeze && !f.include_processed && f.include_recorded && !f.include_missing);
}

#[test]
fn no_projects_is_an_error() {
    match require_projects(&Vec::new(), &"/m".to_string()) {
        Err(ScanError::NoProjectsFound(p)) => assert_eq!(p, "/m"),
        _ => panic!("expected NoProjectsFound"),
    }
    let one = vec![DiscoveredProject { project_dir: "/m/a".to_string(), als_path: "/m/a/a.als".to_string() }];
    assert!(require_projects(&one, &"/m".to_string()).is_ok());
}

#[test]
fn parsed_results_split_into_analyses_and_errors() {
    let projects = vec![
        DiscoveredProject { project_dir: "/m/a".to_string(), als_path: "/m/a/a.als".to_string() },
        DiscoveredProject { project_dir: "/m/b".to_string(), als_path: "/m/b/b.als".to_string() },
        DiscoveredProject { project_dir: "/m/c".to_string(), als_path: "/m/c/c.als".to_string() },
    ];
    let results = vec![
        Ok(analysis(vec![sample("kick.wav")])),
        Err(("/m/b/b.als".to_string(), "broken".to_string())),
        Ok(analysis(vec![])),
    ];
    let (analyses, errors) = collect_parsed(&projects, results);
    assert_eq!(analyses.len(), 2);
    assert_eq!(analyses[0].samples.len(), 1);
    assert_eq!(errors.len(), 1);
    assert_eq!(errors[0].project_path, "/m/b");
    assert_eq!(errors[0].message, "broken");
}

#[test]
fn every_occurrence_is_classified_in_order() {
    let t = Taxonomy::default_bundled().unwrap();
    let cats = t.flatten();
    let all: Vec<String> = cats.iter().map(|c| c.path.clone()).collect();
    let cfg = config(ScanSource::Root("/m".to_string()), all);
    let analyses = vec![
        analysis(vec![sample("kick 1.wav"), sample("pad.wav")]),
        analysis(vec![sample("snare.wav")]),
    ];
    let out = classify_all(&analyses, &cfg, &cats);
    assert_eq!(out.len(), 2);
    assert_eq!(out[0].occurrence.filename, "kick 1.wav");
    assert_eq!(out[0].category, "Drums / Kicks & Bassdrums");
    assert_eq!(out[1].category, "Drums / Snares, Claps, & Rims / Snares");
}

#[test]
fn category_index_keeps_the_last_entry_per_path() {
    let t = Taxonomy::default_bundled().unwrap();
    let mut cats = t.flatten();
    let mut dup = t.find("Drums / Hats").unwrap();
    dup.name = "Hi-hats".to_string();
    cats.push(dup);
    let idx = category_index(&cats);
    let hats: Vec<_> = idx.iter().filter(|(p, _)| p == "Drums / Hats").collect();
    assert_eq!(hats.len(), 1);
    assert_eq!(hats[0].1 .0, "Hi-hats");
    assert_eq!(idx.len(), cats.len() - 1);
}

#[test]
fn report_totals_add_up() {
    let cat = |n: u64| CategoryReport {
        path: "C".to_string(),
        display_name: "C".to_string(),
        components: vec!["C".to_string()],
        samples: Vec::new(),
        total_occurrences: n,
        project_count: 0,
    };
    let errors = vec![ParseErrorEntry { project_path: "/x".to_string(), message: "m".to_string() }];
    let r = build_report(vec![cat(3), cat(4)], errors, "/out".to_string(), 7, "1.0".to_string(), "t".to_string());
    assert_eq!(r.total_occurrences, 7);
    assert_eq!(r.unique_samples, 0);
    assert_eq!(r.projects_scanned, 7);
    assert_eq!(r.parse_errors.len(), 1);
    assert_eq!(r.output_root, "/out");
}

#[test]
fn timestamps_are_iso8601() {
    assert_eq!(format_timestamp(0), "1970-01-01T00:00:00.000000000Z");
    assert_eq!(format_timestamp(86400), "1970-01-02T00:00:00.000000000Z");
}

#[test]
fn progress_is_throttled() {
    assert!(dedup_progress_due(64));
    assert!(!dedup_progress_due(65));
    assert!(dedup_progress_emits(10, 9, 50));
    assert!(!dedup_progress_emits(250, 249, 1000));
    assert!(dedup_progress_emits(259, 249, 1000));
    assert!(dedup_progress_emits(1000, 999, 1000));
}
