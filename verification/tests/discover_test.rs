use soundvault_lib::discover::{
    discover_from_many, discover_projects, first_root_als, is_backup_dir, DiscoveredProject,
};
use soundvault_lib::error::ScanError;

fn dp(dir: &str, als: &str) -> DiscoveredProject {
    DiscoveredProject { project_dir: dir.to_string(), als_path: als.to_string() }
}

/// A folder tree: each folder with the entries directly in it (path, is a
/// file).
fn tree() -> Vec<(&'static str, Vec<(&'static str, bool)>)> {
    vec![
        ("/r", vec![("/r/Track A", false), ("/r/Track B", false)]),
        ("/r/Track A", vec![("/r/Track A/Track A.als", true), ("/r/Track A/Samples", false), ("/r/Track A/Backup", false)]),
        ("/r/Track A/Samples", vec![]),
        ("/r/Track A/Backup", vec![("/r/Track A/Backup/old.als", true)]),
        ("/r/Track B", vec![("/r/Track B/Track B.als", true), ("/r/Track B/Samples", false), ("/r/Track B/Backup", false)]),
        ("/r/Track B/Samples", vec![]),
        ("/r/Track B/Backup", vec![("/r/Track B/Backup/old.als", true)]),
    ]
}

#[test]
fn finds_project_skipping_backup() {
    let mut found = Vec::new();
    for (dir, entries) in tree() {
        let name = dir.rsplit('/').next().map(|s| s.to_string());
        if is_backup_dir(true, &name) {
            continue;
        }
        let es: Vec<(String, bool)> = entries.iter().map(|(p, f)| (p.to_string(), *f)).collect();
        if let Some(als) = first_root_als(dir, &es) {
            found.push(dp(dir, &als));
        }
    }
    let found = discover_projects("/r", true, true, &found).unwrap();
    assert_eq!(found.len(), 2);
    for p in &found {
        assert!(!p.als_path.contains("Backup"));
    }
}

#[test]
fn backup_folders_match_in_any_case() {
    assert!(is_backup_dir(true, &Some("backup".to_string())));
    assert!(is_backup_dir(true, &Some("BACKUP".to_string())));
    assert!(!is_backup_dir(false, &Some("Backup".to_string())));
    assert!(!is_backup_dir(true, &Some("Backups".to_string())));
    assert!(!is_backup_dir(true, &None));
}

#[test]
fn set_named_after_folder_is_preferred() {
    let es = vec![
        ("/p/Song/a.als".to_string(), true),
        ("/p/Song/song.ALS".to_string(), true),
        ("/p/Song/z.als".to_string(), true),
        ("/p/Song/notes.txt".to_string(), true),
        ("/p/Song/dir.als".to_string(), false),
    ];
    assert_eq!(first_root_als("/p/Song", &es).as_deref(), Some("/p/Song/song.ALS"));
}

#[test]
fn otherwise_first_set_by_path() {
    let es = vec![("/p/X/b.als".to_string(), true), ("/p/X/a.als".to_string(), true)];
    assert_eq!(first_root_als("/p/X", &es).as_deref(), Some("/p/X/a.als"));
    assert_eq!(first_root_als("/p/X", &vec![("/p/X/readme".to_string(), true)]), None);
}

#[test]
fn nested_and_duplicate_projects_are_dropped() {
    let found = vec![
        dp("/r/B", "/r/B/B.als"),
        dp("/r/A/Inner", "/r/A/Inner/Inner.als"),
        dp("/r/A", "/r/A/A.als"),
        dp("/r/A/", "/r/A/other.als"),
    ];
    let r = discover_projects("/r", true, true, &found).unwrap();
    let dirs: Vec<&str> = r.iter().map(|p| p.project_dir.as_str()).collect();
    assert_eq!(dirs, vec!["/r/A", "/r/B"]);
    assert_eq!(r[0].als_path, "/r/A/A.als");
}

#[test]
fn missing_root_and_file_root_are_errors() {
    match discover_projects("/nope", false, false, &Vec::new()) {
        Err(ScanError::PathNotFound(p)) => assert_eq!(p, "/nope"),
        _ => panic!("expected PathNotFound"),
    }
    match discover_projects("/file", true, false, &Vec::new()) {
        Err(ScanError::NotADirectory(p)) => assert_eq!(p, "/file"),
        _ => panic!("expected NotADirectory"),
    }
}

#[test]
fn many_roots_merge_sorted_and_once() {
    let per_root = vec![Ok(vec![dp("/b", "/b/b.als"), dp("/a", "/a/a.als")]), Ok(vec![dp("/a", "/a/x.als")])];
    let r = discover_from_many(per_root).unwrap();
    let dirs: Vec<&str> = r.iter().map(|p| p.project_dir.as_str()).collect();
    assert_eq!(dirs, vec!["/a", "/b"]);
    assert_eq!(r[0].als_path, "/a/a.als");
}

#[test]
fn many_roots_stop_at_first_error() {
    let per_root = vec![
        Ok(vec![dp("/a", "/a/a.als")]),
        Err(ScanError::NotADirectory("/f".to_string())),
        Err(ScanError::PathNotFound("/g".to_string())),
    ];
    match discover_from_many(per_root) {
        Err(ScanError::NotADirectory(p)) => assert_eq!(p, "/f"),
        _ => panic!("expected the first error"),
    }
}
