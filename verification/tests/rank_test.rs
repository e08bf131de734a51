use soundvault_lib::dedup::UniqueSample;
use soundvault_lib::rank::{rank, sort_samples, Tiebreaker};

fn u(name: &str, projects: u32, clips: u32, cat: &str) -> UniqueSample {
    UniqueSample {
        canonical_path: name.to_string(),
        filename: name.to_string(),
        file_size: None,
        content_hash: None,
        original_path: None,
        track_name: None,
        category: Some(cat.to_string()),
        project_count: projects,
        clip_count: clips,
        projects: (0..projects).map(|i| format!("p{}", i)).collect(),
        missing: false,
        factory: false,
    }
}

fn snares_index() -> Vec<(String, (String, Vec<String>))> {
    vec![("Drums / Snares".to_string(), ("Snares".to_string(), vec!["Drums".to_string(), "Snares".to_string()]))]
}

#[test]
fn ranks_project_then_clip() {
    let idx = snares_index();
    let uniques = vec![
        u("a.wav", 1, 100, "Drums / Snares"),
        u("b.wav", 5, 5, "Drums / Snares"),
        u("c.wav", 3, 3, "Drums / Snares"),
    ];
    let r = rank(uniques, &["Drums / Snares".to_string()], 10, Tiebreaker::ProjectThenClip, &idx);
    assert_eq!(r[0].samples[0].filename, "b.wav");
    assert_eq!(r[0].samples[1].filename, "c.wav");
    assert_eq!(r[0].samples[2].filename, "a.wav");
}

#[test]
fn ranks_clip_then_project() {
    let idx = snares_index();
    let uniques = vec![u("a.wav", 1, 100, "Drums / Snares"), u("b.wav", 5, 5, "Drums / Snares")];
    let r = rank(uniques, &["Drums / Snares".to_string()], 10, Tiebreaker::ClipThenProject, &idx);
    assert_eq!(r[0].samples[0].filename, "a.wav");
    assert_eq!(r[0].samples[1].filename, "b.wav");
}

#[test]
fn top_n_keeps_the_best_and_counts_all() {
    let idx = snares_index();
    let uniques = vec![
        u("a.wav", 1, 1, "Drums / Snares"),
        u("b.wav", 4, 2, "Drums / Snares"),
        u("c.wav", 2, 7, "Drums / Snares"),
    ];
    let r = rank(uniques, &["Drums / Snares".to_string()], 2, Tiebreaker::ProjectThenClip, &idx);
    assert_eq!(r.len(), 1);
    assert_eq!(r[0].path, "Drums / Snares");
    assert_eq!(r[0].display_name, "Snares");
    assert_eq!(r[0].components, vec!["Drums".to_string(), "Snares".to_string()]);
    assert_eq!(r[0].samples.len(), 2);
    assert_eq!(r[0].samples[0].filename, "b.wav");
    assert_eq!(r[0].samples[1].filename, "c.wav");
    assert_eq!(r[0].total_occurrences, 10);
    assert_eq!(r[0].project_count, 4);
}

#[test]
fn unselected_and_uncategorized_samples_are_left_out() {
    let idx = snares_index();
    let mut none = u("x.wav", 9, 9, "Drums / Snares");
    none.category = None;
    let uniques = vec![u("a.wav", 1, 1, "Drums / Hats"), none, u("b.wav", 1, 1, "Drums / Snares")];
    let r = rank(uniques, &["Drums / Snares".to_string()], 5, Tiebreaker::ProjectThenClip, &idx);
    assert_eq!(r.len(), 1);
    assert_eq!(r[0].samples.len(), 1);
    assert_eq!(r[0].samples[0].filename, "b.wav");
}

#[test]
fn categories_come_in_path_order_with_fallback_names() {
    let uniques = vec![u("a.wav", 1, 1, "Zed"), u("b.wav", 1, 1, "Alpha")];
    let r = rank(uniques, &["Zed".to_string(), "Alpha".to_string()], 5, Tiebreaker::ProjectThenClip, &Vec::new());
    assert_eq!(r.len(), 2);
    assert_eq!(r[0].path, "Alpha");
    assert_eq!(r[0].display_name, "Alpha");
    assert_eq!(r[0].components, vec!["Alpha".to_string()]);
    assert_eq!(r[1].path, "Zed");
}

#[test]
fn ties_break_on_lowercased_name() {
    let s = sort_samples(
        vec![u("b.wav", 1, 1, "C"), u("A.wav", 1, 1, "C"), u("c.wav", 1, 1, "C")],
        Tiebreaker::ProjectThenClip,
    );
    let names: Vec<&str> = s.iter().map(|x| x.filename.as_str()).collect();
    assert_eq!(names, vec!["A.wav", "b.wav", "c.wav"]);
}
