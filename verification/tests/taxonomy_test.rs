use soundvault_lib::taxonomy::{Taxonomy, TaxonomyNode};

#[test]
fn default_bundled_parses() {
    let t = Taxonomy::default_bundled().unwrap();
    let flat = t.flatten();
    assert!(flat.iter().any(|c| c.name == "Snares"));
    assert!(flat.iter().any(|c| c.name == "Kicks & Bassdrums"));
}

#[test]
fn parent_aggregates_child_keywords() {
    let t = Taxonomy::default_bundled().unwrap();
    let drums = t.find("Drums").expect("Drums root");
    assert!(drums.keywords.iter().any(|k| k == "snare"));
    assert!(drums.keywords.iter().any(|k| k == "kick"));
}

#[test]
fn flatten_is_preorder_with_paths_and_depths() {
    let t = Taxonomy::default_bundled().unwrap();
    let flat = t.flatten();
    assert_eq!(flat[0].path, "Drums");
    assert_eq!(flat[0].depth, 1);
    let claps = flat.iter().position(|c| c.path == "Drums / Snares, Claps, & Rims / Claps").unwrap();
    let group = flat.iter().position(|c| c.path == "Drums / Snares, Claps, & Rims").unwrap();
    assert!(group < claps);
    assert_eq!(flat[claps].depth, 3);
    assert_eq!(flat[claps].components, vec!["Drums".to_string(), "Snares, Claps, & Rims".to_string(), "Claps".to_string()]);
    assert_eq!(flat[claps].name, "Claps");
}

#[test]
fn parent_keywords_are_sorted_and_distinct() {
    let leaf_a = TaxonomyNode::Leaf(vec!["Kick".to_string(), "bd".to_string()]);
    let leaf_b = TaxonomyNode::Leaf(vec!["kick".to_string(), "Snare".to_string()]);
    let t = Taxonomy {
        roots: vec![(
            "Root".to_string(),
            TaxonomyNode::Parent(vec![("A".to_string(), leaf_a), ("B".to_string(), leaf_b)]),
        )],
    };
    let flat = t.flatten();
    assert_eq!(flat.len(), 3);
    assert_eq!(flat[0].keywords, vec!["bd".to_string(), "kick".to_string(), "snare".to_string()]);
    assert_eq!(flat[1].path, "Root / A");
    assert_eq!(flat[1].keywords, vec!["kick".to_string(), "bd".to_string()]);
    assert_eq!(flat[2].path, "Root / B");
}

#[test]
fn find_misses_unknown_paths() {
    let t = Taxonomy::default_bundled().unwrap();
    assert!(t.find("Drums / Nope").is_none());
    assert_eq!(t.find("Drums / Hats").unwrap().name, "Hats");
}

#[test]
fn flattened_entries_agree_with_their_names() {
    let t = Taxonomy::default_bundled().unwrap();
    let flat = t.flatten();
    for (k, c) in flat.iter().enumerate() {
        assert!(!c.components.is_empty());
        assert_eq!(c.depth, c.components.len());
        assert_eq!(c.path, c.components.join(" / "));
        assert_eq!(&c.name, c.components.last().unwrap());
        if c.components.len() > 1 {
            let parent = &c.components[..c.components.len() - 1];
            assert!(flat[..k].iter().any(|p| p.components == parent));
        }
        assert!(flat[..k].iter().all(|p| p.components != c.components));
    }
}
