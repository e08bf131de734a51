use soundvault_lib::copy::{
    category_dir, collision_candidate, copy_total, joined_components, plan_destination, populated_dir,
    resolve_collision_step,
    split_filename, CollisionStep, CopyRun,
};
use soundvault_lib::dedup::UniqueSample;
use soundvault_lib::rank::CategoryReport;

/// Finds a free destination for `name` in `dir`, given the paths that exist
/// on disk.
fn resolve(dir: &str, name: &str, on_disk: &[String], used: &mut Vec<String>) -> String {
    let mut n: u32 = 1;
    loop {
        let cand = collision_candidate(dir, name, n);
        let exists = on_disk.contains(&cand);
        match resolve_collision_step(dir, name, n, exists, used) {
            CollisionStep::Take(p) => return p,
            CollisionStep::Next(m) => n = m,
            CollisionStep::GiveUp(_) => panic!("no free name"),
        }
    }
}

#[test]
fn collision_suffixes_2_then_3() {
    let on_disk = vec!["/out/a.wav".to_string()];
    let mut used = Vec::new();
    let p1 = resolve("/out", "a.wav", &on_disk, &mut used);
    let p2 = resolve("/out", "a.wav", &on_disk, &mut used);
    assert!(p1.rsplit('/').next().unwrap().contains("(2)"));
    assert!(p2.rsplit('/').next().unwrap().contains("(3)"));
}

#[test]
fn free_names_are_taken_as_they_are() {
    let mut used = Vec::new();
    assert_eq!(resolve("/out", "a.wav", &[], &mut used), "/out/a.wav");
    assert_eq!(resolve("/out", "a.wav", &[], &mut used), "/out/a (2).wav");
    assert_eq!(resolve("/out", "noext", &[], &mut used), "/out/noext");
    assert_eq!(resolve("/out", "noext", &[], &mut used), "/out/noext (2)");
    assert_eq!(used.len(), 4);
}

#[test]
fn collision_steps_count_up_and_give_up() {
    let mut used = vec!["/out/a.wav".to_string()];
    assert_eq!(resolve_collision_step("/out", "a.wav", 1, false, &mut used), CollisionStep::Next(2));
    assert_eq!(resolve_collision_step("/out", "a.wav", 2, true, &mut used), CollisionStep::Next(3));
    assert_eq!(resolve_collision_step("/out", "a.wav", 99999, true, &mut used), CollisionStep::GiveUp(100000));
    assert_eq!(used.len(), 1);
    assert_eq!(collision_candidate("/out", "a.b.wav", 12), "/out/a.b (12).wav");
}

#[test]
fn category_folders_are_sanitized() {
    let cs = vec!["Drums".to_string(), "Snares/Claps\\Rims".to_string()];
    assert_eq!(joined_components(&cs), "Drums/Snares_Claps_Rims");
    assert_eq!(category_dir("/out", &cs), "/out/Drums/Snares_Claps_Rims");
    assert_eq!(joined_components(&Vec::new()), "");
}

#[test]
fn split_filename_parts() {
    assert_eq!(split_filename("kick.wav"), ("kick".to_string(), "wav".to_string()));
    assert_eq!(split_filename("archive.tar.gz"), ("archive.tar".to_string(), "gz".to_string()));
    assert_eq!(split_filename(".hidden"), (".hidden".to_string(), "".to_string()));
    assert_eq!(split_filename("noext"), ("noext".to_string(), "".to_string()));
}

#[test]
fn copy_total_counts_every_sample() {
    let empty = CategoryReport {
        path: "A".to_string(),
        display_name: "A".to_string(),
        components: vec!["A".to_string()],
        samples: Vec::new(),
        total_occurrences: 0,
        project_count: 0,
    };
    assert_eq!(copy_total(&vec![empty]), 0);
    assert_eq!(copy_total(&Vec::new()), 0);
}

fn sample(name: &str, missing: bool) -> UniqueSample {
    UniqueSample {
        canonical_path: format!("/lib/{name}"),
        filename: name.to_string(),
        file_size: None,
        content_hash: None,
        original_path: None,
        track_name: None,
        category: Some("Drums / Toms".to_string()),
        project_count: 2,
        clip_count: 5,
        projects: vec!["a".to_string(), "b".to_string()],
        missing,
        factory: false,
    }
}

#[test]
fn copy_run_counts_and_records() {
    let cat = CategoryReport {
        path: "Drums / Toms".to_string(),
        display_name: "Toms".to_string(),
        components: vec!["Drums".to_string(), "Toms".to_string()],
        samples: vec![sample("t1.wav", false), sample("t2.wav", true)],
        total_occurrences: 10,
        project_count: 2,
    };
    let report = vec![cat];
    assert_eq!(populated_dir("/out", &report[0]).as_deref(), Some("/out/Drums/Toms"));
    let mut run = CopyRun::new(&report);
    assert_eq!((run.done(), run.total()), (0, 2));
    assert!(CopyRun::wants(&report[0].samples[0]));
    assert!(!CopyRun::wants(&report[0].samples[1]));
    assert_eq!(
        run.place(&report[0], &report[0].samples[0], "/out/Drums/Toms/t1.wav".to_string(), false),
        Some("/out/Drums/Toms/t1.wav".to_string())
    );
    assert_eq!((run.done(), run.total()), (1, 2));
    assert_eq!(run.pass(), (2, 2));
    let copied = run.finish();
    assert_eq!(copied.len(), 1);
    assert_eq!(copied[0].source, "/lib/t1.wav");
    assert_eq!(copied[0].destination, "/out/Drums/Toms/t1.wav");
    assert_eq!(copied[0].category, "Drums / Toms");
    assert_eq!((copied[0].project_count, copied[0].clip_count), (2, 5));
}

#[test]
fn empty_categories_get_no_folder() {
    let cat = CategoryReport {
        path: "A".to_string(),
        display_name: "A".to_string(),
        components: vec!["A".to_string()],
        samples: Vec::new(),
        total_occurrences: 0,
        project_count: 0,
    };
    assert_eq!(populated_dir("/out", &cat), None);
}

#[test]
fn categories_with_only_missing_samples_get_no_folder() {
    let cat = CategoryReport {
        path: "Drums / Toms".to_string(),
        display_name: "Toms".to_string(),
        components: vec!["Drums".to_string(), "Toms".to_string()],
        samples: vec![sample("t1.wav", true), sample("t2.wav", true)],
        total_occurrences: 4,
        project_count: 2,
    };
    assert_eq!(populated_dir("/out", &cat), None);
    let mixed = CategoryReport { samples: vec![sample("t1.wav", true), sample("t2.wav", false)], ..cat };
    assert_eq!(populated_dir("/out", &mixed).as_deref(), Some("/out/Drums/Toms"));
}

#[test]
fn planned_destinations_number_within_the_run() {
    let mut used = Vec::new();
    assert_eq!(plan_destination("/out", "a.wav", &mut used).as_deref(), Some("/out/a.wav"));
    assert_eq!(plan_destination("/out", "a.wav", &mut used).as_deref(), Some("/out/a (2).wav"));
    assert_eq!(plan_destination("/out", "b", &mut used).as_deref(), Some("/out/b"));
    assert_eq!(plan_destination("/out", "a.wav", &mut used).as_deref(), Some("/out/a (3).wav"));
    assert_eq!(used.len(), 4);
}

#[test]
fn a_destination_left_by_an_earlier_run_is_left_alone() {
    let cat = CategoryReport {
        path: "Drums / Toms".to_string(),
        display_name: "Toms".to_string(),
        components: vec!["Drums".to_string(), "Toms".to_string()],
        samples: vec![sample("t1.wav", false), sample("t1.wav", false)],
        total_occurrences: 10,
        project_count: 2,
    };
    let report = vec![cat];
    let mut run = CopyRun::new(&report);
    let mut used = Vec::new();
    // An earlier run copied both: the first to its own name, the second numbered.
    let on_disk = ["/out/Drums/Toms/t1.wav".to_string(), "/out/Drums/Toms/t1 (2).wav".to_string()];
    for s in &report[0].samples {
        let dest = plan_destination("/out/Drums/Toms", &s.filename, &mut used).unwrap();
        let exists = on_disk.contains(&dest);
        assert_eq!(run.place(&report[0], s, dest, exists), None);
    }
    assert_eq!((run.done(), run.total()), (2, 2));
    assert!(run.finish().is_empty());
}
