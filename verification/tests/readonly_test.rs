use soundvault_lib::classify::{ManualKeywords, MatchMode};
use soundvault_lib::error::ScanError;
use soundvault_lib::rank::Tiebreaker;
use soundvault_lib::readonly::{path_is_within, ReadOnlyProject};
use soundvault_lib::scan::{output_form, validate_config, InputCheck, ScanConfig, ScanSource};

fn config(source: ScanSource, output: &str, selected: Vec<String>) -> ScanConfig {
    ScanConfig {
        source,
        output_folder: output.to_string(),
        selected_categories: selected,
        top_n: 25,
        match_mode: MatchMode::AutoDetect,
        manual_keywords: ManualKeywords::default(),
        include_freeze: false,
        include_processed: false,
        include_recorded: false,
        include_missing: false,
        tiebreaker: Tiebreaker::ProjectThenClip,
    }
}

#[test]
fn output_inside_input_is_rejected_at_validate_time() {
    let projects_root = "/tmp/t/projects";
    let bad_output = "/tmp/t/projects/Track A/oops";
    let cfg = config(ScanSource::Root(projects_root.to_string()), bad_output, vec!["Drums".to_string()]);
    // The output folder does not exist yet (its parent does), so it keeps its
    // own path as its canonical form.
    let checks = vec![InputCheck { exists: true, canonical: projects_root.to_string() }];
    let err = validate_config(&cfg, false, &None, bad_output, &checks).unwrap_err();
    assert!(matches!(err, ScanError::OutputInsideInput(_)));
}

#[test]
fn output_equal_to_input_is_rejected() {
    let cfg = config(ScanSource::Projects(vec!["/a".to_string(), "/b".to_string()]), "/b", vec!["Drums".to_string()]);
    let checks = vec![
        InputCheck { exists: true, canonical: "/a".to_string() },
        InputCheck { exists: true, canonical: "/b".to_string() },
    ];
    match validate_config(&cfg, true, &None, "/b", &checks) {
        Err(ScanError::OutputInsideInput(p)) => assert_eq!(p, "/b"),
        _ => panic!("expected OutputInsideInput"),
    }
}

#[test]
fn validation_order_of_errors() {
    let cfg = config(ScanSource::Root("/in".to_string()), "/out/new", vec![]);
    let checks = vec![InputCheck { exists: false, canonical: "/in".to_string() }];
    assert!(matches!(validate_config(&cfg, false, &Some("/out".to_string()), "/out/new", &checks), Err(ScanError::NoCategoriesSelected)));
    let cfg = config(ScanSource::Root("/in".to_string()), "/out/new", vec!["Drums".to_string()]);
    match validate_config(&cfg, false, &Some("/out".to_string()), "/out/new", &checks) {
        Err(ScanError::PathNotFound(p)) => assert_eq!(p, "/out"),
        _ => panic!("expected the missing parent"),
    }
    match validate_config(&cfg, false, &None, "/out/new", &checks) {
        Err(ScanError::PathNotFound(p)) => assert_eq!(p, "/in"),
        _ => panic!("expected the missing input"),
    }
    let ok = vec![InputCheck { exists: true, canonical: "/in".to_string() }];
    assert!(validate_config(&cfg, false, &None, "/out/new", &ok).is_ok());
}

#[test]
fn within_is_by_components() {
    assert!(path_is_within("/a/b", "/a"));
    assert!(path_is_within("/a", "/a"));
    assert!(path_is_within("/a/b/", "/a/b"));
    assert!(!path_is_within("/ab", "/a"));
    assert!(!path_is_within("/a", "/a/b"));
}

#[test]
fn project_handle_is_read_only_and_checks_containment() {
    let p = ReadOnlyProject::new("/p".to_string(), "/p/p.als".to_string());
    assert_eq!(p.root(), "/p");
    assert_eq!(p.als_path(), "/p/p.als");
    assert!(p.check_within("/p/Samples/a.wav", "/p/Samples/a.wav", "/p").is_ok());
    match p.check_within("/etc/passwd", "/etc/passwd", "/p") {
        Err(ScanError::Other(m)) => {
            assert_eq!(m, "attempted to open a path outside the project root: /etc/passwd (root: /p)")
        },
        _ => panic!("expected a refusal"),
    }
}

#[test]
fn a_new_output_under_a_linked_input_is_rejected() {
    // The input is reached through a link: its canonical form differs from
    // the path the user gave, and the output folder does not exist yet.
    let form = output_form("/private/tmp/t/projects", &vec!["Track A".to_string(), "oops".to_string()]);
    assert_eq!(form, "/private/tmp/t/projects/Track A/oops");
    let cfg = config(ScanSource::Root("/tmp/t/projects".to_string()), "/tmp/t/projects/Track A/oops", vec!["Drums".to_string()]);
    let checks = vec![InputCheck { exists: true, canonical: "/private/tmp/t/projects".to_string() }];
    let err = validate_config(&cfg, false, &None, &form, &checks).unwrap_err();
    assert!(matches!(err, ScanError::OutputInsideInput(_)));
    assert_eq!(output_form("/out", &Vec::new()), "/out");
}
