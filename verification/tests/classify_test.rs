use soundvault_lib::classify::{classify, normalize, ManualKeywords, MatchMode};
use soundvault_lib::parse::{SampleContext, SampleOccurrence};
use soundvault_lib::taxonomy::Taxonomy;

fn make_sample(filename: &str, track: Option<&str>, group: Vec<&str>) -> SampleOccurrence {
    SampleOccurrence {
        path: format!("/x/{}", filename),
        filename: filename.to_string(),
        declared_size: None,
        declared_crc: None,
        original_path: None,
        track_name: track.map(|s| s.to_string()),
        group_path: group.into_iter().map(|s| s.to_string()).collect(),
        project_name: "p".to_string(),
        project_root: "/p".to_string(),
        context: SampleContext::AudioClip,
    }
}

fn all_selected(t: &Taxonomy) -> Vec<String> {
    t.flatten().into_iter().map(|c| c.path).collect()
}

fn run(filename: &str, track: Option<&str>, group: Vec<&str>, mode: MatchMode) -> Option<String> {
    let t = Taxonomy::default_bundled().unwrap();
    let cats = t.flatten();
    let s = make_sample(filename, track, group);
    classify(&s, &all_selected(&t), &cats, mode, &ManualKeywords::default())
}

#[test]
fn filename_keyword_match_bd() {
    let result = run("001 BD-Dark.wav", None, vec![], MatchMode::AutoDetect);
    assert_eq!(result.as_deref(), Some("Drums / Kicks & Bassdrums"));
}

#[test]
fn track_name_fallback_for_unrecognizable_filename() {
    let result = run("bdj_clk.wav", Some("CLAP"), vec![], MatchMode::AutoDetect);
    assert_eq!(result.as_deref(), Some("Drums / Snares, Claps, & Rims / Claps"));
}

#[test]
fn use_groups_innermost_wins() {
    let result = run("anything_random.wav", Some("Lead"), vec!["DRUMS", "CLAP"], MatchMode::UseGroups);
    assert_eq!(result.as_deref(), Some("Drums / Snares, Claps, & Rims / Claps"));
}

#[test]
fn ch_matches_hats() {
    let result = run("606 CH.wav", None, vec![], MatchMode::AutoDetect);
    assert_eq!(result.as_deref(), Some("Drums / Hats"));
}

#[test]
fn longest_match_wins_sidestick() {
    let result = run("LiquidGold_sidestick_SP_01.wav", None, vec![], MatchMode::AutoDetect);
    assert_eq!(result.as_deref(), Some("Drums / Snares, Claps, & Rims / Rims"));
}

#[test]
fn nothing_selected_classifies_nothing() {
    let t = Taxonomy::default_bundled().unwrap();
    let cats = t.flatten();
    let s = make_sample("kick.wav", None, vec![]);
    assert_eq!(classify(&s, &[], &cats, MatchMode::AutoDetect, &ManualKeywords::default()), None);
}

#[test]
fn only_selected_categories_are_candidates() {
    let t = Taxonomy::default_bundled().unwrap();
    let cats = t.flatten();
    let s = make_sample("kick snare.wav", None, vec![]);
    let sel = vec!["Drums / Hats".to_string()];
    assert_eq!(classify(&s, &sel, &cats, MatchMode::AutoDetect, &ManualKeywords::default()), None);
    let sel = vec!["Drums / Snares, Claps, & Rims / Snares".to_string()];
    assert_eq!(
        classify(&s, &sel, &cats, MatchMode::AutoDetect, &ManualKeywords::default()).as_deref(),
        Some("Drums / Snares, Claps, & Rims / Snares")
    );
}

#[test]
fn unrecognizable_sample_is_unclassified() {
    assert_eq!(run("zzz_qqq.wav", Some("Lead"), vec!["Synths"], MatchMode::UseGroups), None);
}

#[test]
fn manual_keywords_extend_a_category() {
    let t = Taxonomy::default_bundled().unwrap();
    let cats = t.flatten();
    let s = make_sample("thwack.wav", None, vec![]);
    let manual = ManualKeywords {
        per_category: vec![("Drums / Toms".to_string(), vec!["Thwack".to_string()])],
    };
    assert_eq!(
        classify(&s, &all_selected(&t), &cats, MatchMode::Manual, &manual).as_deref(),
        Some("Drums / Toms")
    );
    assert_eq!(classify(&s, &all_selected(&t), &cats, MatchMode::AutoDetect, &manual), None);
}

#[test]
fn normalize_lowercases_and_strips_punctuation() {
    assert_eq!(normalize("  Kick (Hard), v2!  "), "kick  hard   v2");
}

#[test]
fn normalized_names_are_clean() {
    for s in ["  Kick (Hard).WAV ", "[Snare], \"Tight\"!", "?!", "Hat 01"] {
        let r = normalize(s);
        assert!(!r.chars().any(|c| ",.!?'\"()[]".contains(c)));
        assert_eq!(r.trim(), r);
    }
    assert_eq!(normalize("  Kick (Hard).WAV "), "kick  hard  wav");
}

#[test]
fn results_are_selected_categories_only() {
    let t = Taxonomy::default_bundled().unwrap();
    let cats = t.flatten();
    let s = make_sample("001 BD-Dark.wav", Some("Snare Bus"), vec!["Drums"]);
    let none = vec!["Not / A / Category".to_string()];
    for mode in [MatchMode::AutoDetect, MatchMode::UseGroups, MatchMode::Manual] {
        assert_eq!(classify(&s, &none, &cats, mode, &ManualKeywords::default()), None);
    }
    let toms = vec!["Drums / Toms".to_string()];
    assert_eq!(classify(&s, &toms, &cats, MatchMode::AutoDetect, &ManualKeywords::default()), None);
    let drums = vec!["Drums".to_string()];
    assert_eq!(classify(&s, &drums, &cats, MatchMode::AutoDetect, &ManualKeywords::default()).as_deref(), Some("Drums"));
}
