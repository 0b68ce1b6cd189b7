use std::collections::HashMap;

use gw2_overlay::legendary::{
    aggregate_needs, compute_progress, needed_of, progress_fits, recipe_fits, Component, LeafKind,
    LegendaryRecipe, RecipeCatalog, RecipeLeaf,
};

fn leaf(kind: LeafKind, id: u32, qty: i64, name: &str, group: Option<&str>) -> RecipeLeaf {
    RecipeLeaf {
        kind,
        id,
        quantity: qty,
        name: name.into(),
        notes: None,
        group: group.map(|s| s.to_string()),
    }
}

fn cat() -> RecipeCatalog {
    let mut c = RecipeCatalog::new(vec![LegendaryRecipe {
        collection_key: "bolt".into(),
        components: vec!["test_gift".into()],
        leaves: vec![leaf(LeafKind::Item, 200, 1, "Zap", None)],
        notes: None,
    }]);
    c.insert_component(
        "test_gift".to_string(),
        Component {
            name: "Test Gift".into(),
            description: None,
            leaves: vec![
                leaf(LeafKind::Item, 100, 250, "Ecto", None),
                leaf(LeafKind::Currency, 1, 50000, "Coin", None),
            ],
        },
    );
    c
}

#[test]
fn aggregate_sums_components_and_direct_leaves() {
    let c = cat();
    let r = &c.legendaries[0];
    let needs = aggregate_needs(&c, r);
    assert_eq!(needs.len(), 3);
    assert_eq!(needed_of(&needs, LeafKind::Item, 100), Some(250));
    assert_eq!(needed_of(&needs, LeafKind::Currency, 1), Some(50000));
    assert_eq!(needed_of(&needs, LeafKind::Item, 200), Some(1));
}

#[test]
fn groups_follow_component_then_direct_order() {
    let c = cat();
    let p = compute_progress(&c, &c.legendaries[0], &HashMap::new(), &HashMap::new());
    assert_eq!(p.groups.len(), 2);
    assert_eq!(p.groups[0].name, "Test Gift");
    assert_eq!(p.groups[1].name, "Specific");
    assert_eq!(p.groups[1].leaves.len(), 1);
    assert_eq!(p.groups[1].leaves[0].id, 200);
}

#[test]
fn header_totals_match_dedup_aggregate() {
    let c = cat();
    let owned_items: HashMap<u32, i64> = [(100, 999), (200, 0)].into_iter().collect();
    let owned_currencies: HashMap<u32, i64> = [(1, 25000)].into_iter().collect();
    let p = compute_progress(&c, &c.legendaries[0], &owned_items, &owned_currencies);
    // ecto 250 (complete), coin 25000/50000, zap 0/1
    assert_eq!(p.total_needed, 250 + 50000 + 1);
    assert_eq!(p.total_owned, 250 + 25000);
    assert_eq!(p.leaves_total, 3);
    assert_eq!(p.leaves_complete, 1);
    let group_owned: i64 = p.groups.iter().map(|g| g.total_owned).sum();
    assert_eq!(group_owned, p.total_owned, "per-group owned must reconcile with header");
}

#[test]
fn direct_leaves_group_by_label_first_seen_order() {
    let cat = RecipeCatalog::new(vec![LegendaryRecipe {
        collection_key: "x".into(),
        components: vec![],
        leaves: vec![
            leaf(LeafKind::Item, 1, 10, "A", Some("Living World S3")),
            leaf(LeafKind::Item, 2, 10, "B", None),
            leaf(LeafKind::Item, 3, 10, "C", Some("Living World S3")),
        ],
        notes: None,
    }]);
    let p = compute_progress(&cat, &cat.legendaries[0], &HashMap::new(), &HashMap::new());
    assert_eq!(p.groups.len(), 2);
    assert_eq!(p.groups[0].name, "Living World S3");
    assert_eq!(p.groups[0].leaves.len(), 2);
    assert_eq!(p.groups[1].name, "Specific");
    assert_eq!(p.groups[1].leaves.len(), 1);
}

#[test]
fn owned_allocated_greedily_across_groups_in_order() {
    let mut cat = RecipeCatalog::new(vec![LegendaryRecipe {
        collection_key: "x".into(),
        components: vec!["g".into()],
        leaves: vec![leaf(LeafKind::Item, 100, 60, "Shared", Some("Extra"))],
        notes: None,
    }]);
    cat.insert_component(
        "g".into(),
        Component {
            name: "G".into(),
            description: None,
            leaves: vec![leaf(LeafKind::Item, 100, 60, "Shared", None)],
        },
    );
    let owned: HashMap<u32, i64> = [(100, 80)].into_iter().collect();
    let p = compute_progress(&cat, &cat.legendaries[0], &owned, &HashMap::new());
    let g = p.groups.iter().find(|x| x.name == "G").unwrap();
    let e = p.groups.iter().find(|x| x.name == "Extra").unwrap();
    assert_eq!(g.leaves[0].owned, 60, "first group filled first");
    assert_eq!(g.leaves[0].missing, 0);
    assert_eq!(e.leaves[0].owned, 20, "second group gets the remainder");
    assert_eq!(e.leaves[0].missing, 40);
    assert_eq!(p.total_needed, 120);
    assert_eq!(p.total_owned, 80);
    assert_eq!(g.total_owned + e.total_owned, 80);
}

#[test]
fn group_leaves_sorted_missing_desc_complete_last() {
    let cat = RecipeCatalog::new(vec![LegendaryRecipe {
        collection_key: "x".into(),
        components: vec![],
        leaves: vec![
            leaf(LeafKind::Item, 1, 10, "small", Some("G")),
            leaf(LeafKind::Item, 2, 1000, "big", Some("G")),
            leaf(LeafKind::Item, 3, 5, "done", Some("G")),
        ],
        notes: None,
    }]);
    let owned: HashMap<u32, i64> = [(3, 5)].into_iter().collect();
    let p = compute_progress(&cat, &cat.legendaries[0], &owned, &HashMap::new());
    let g = &p.groups[0];
    assert_eq!(g.leaves[0].id, 2);
    assert_eq!(g.leaves[1].id, 1);
    assert_eq!(g.leaves[2].id, 3);
    assert!(g.leaves[2].complete);
    assert_eq!(g.leaves_complete, 1);
    assert_eq!(g.leaves_total, 3);
}

#[test]
fn unknown_component_keys_are_skipped() {
    let cat = RecipeCatalog::new(vec![LegendaryRecipe {
        collection_key: "k".into(),
        components: vec!["nope".into()],
        leaves: vec![leaf(LeafKind::Currency, 2, 7, "Karma", None)],
        notes: None,
    }]);
    let p = compute_progress(&cat, &cat.legendaries[0], &HashMap::new(), &[(2, 9)].into_iter().collect());
    assert_eq!(p.groups.len(), 1);
    assert_eq!(p.collection_key, "k");
    assert_eq!(p.total_needed, 7);
    assert_eq!(p.total_owned, 7);
    assert_eq!(p.leaves_complete, 1);
    assert!(p.groups[0].leaves[0].complete);
}

#[test]
fn shared_leaf_counts_once_in_header() {
    let mut cat = RecipeCatalog::new(vec![LegendaryRecipe {
        collection_key: "x".into(),
        components: vec!["a".into(), "b".into()],
        leaves: vec![],
        notes: None,
    }]);
    for key in ["a", "b"] {
        cat.insert_component(
            key.into(),
            Component {
                name: key.to_uppercase(),
                description: None,
                leaves: vec![leaf(LeafKind::Item, 5, 10, "Clover", None)],
            },
        );
    }
    let owned: HashMap<u32, i64> = [(5, 15)].into_iter().collect();
    let p = compute_progress(&cat, &cat.legendaries[0], &owned, &HashMap::new());
    assert_eq!(p.leaves_total, 1);
    assert_eq!(p.total_needed, 20);
    assert_eq!(p.total_owned, 15);
    assert_eq!(p.leaves_complete, 0);
    assert_eq!(p.groups[0].total_owned, 10);
    assert_eq!(p.groups[1].total_owned, 5);
    assert_eq!(p.groups[0].leaves_complete, 1);
    assert_eq!(p.groups[1].leaves_complete, 0);
}

#[test]
fn recipe_fits_checks_absolute_total() {
    let c = cat();
    assert!(recipe_fits(&c, &c.legendaries[0]));
    let negative = LegendaryRecipe {
        collection_key: "neg".into(),
        components: vec![],
        leaves: vec![leaf(LeafKind::Item, 1, -1, "Minus", None)],
        notes: None,
    };
    assert!(recipe_fits(&c, &negative));
    let huge = LegendaryRecipe {
        collection_key: "huge".into(),
        components: vec!["test_gift".into()],
        leaves: vec![leaf(LeafKind::Item, 1, i64::MAX - 100, "Huge", None)],
        notes: None,
    };
    assert!(!recipe_fits(&c, &huge));
    let exact = LegendaryRecipe {
        collection_key: "exact".into(),
        components: vec![],
        leaves: vec![leaf(LeafKind::Item, 1, i64::MAX, "Max", None)],
        notes: None,
    };
    assert!(recipe_fits(&c, &exact));
    let over = LegendaryRecipe {
        collection_key: "over".into(),
        components: vec![],
        leaves: vec![leaf(LeafKind::Item, 1, i64::MAX, "Max", None), leaf(LeafKind::Item, 1, -1, "Minus", None)],
        notes: None,
    };
    assert!(!recipe_fits(&c, &over));
    let min = LegendaryRecipe {
        collection_key: "min".into(),
        components: vec![],
        leaves: vec![leaf(LeafKind::Item, 1, i64::MIN, "Min", None)],
        notes: None,
    };
    assert!(!recipe_fits(&c, &min));
}

fn signed_catalog() -> RecipeCatalog {
    RecipeCatalog::new(vec![LegendaryRecipe {
        collection_key: "signed".into(),
        components: vec![],
        leaves: vec![
            leaf(LeafKind::Item, 1, 4, "A", None),
            leaf(LeafKind::Item, 1, -2, "B", None),
            leaf(LeafKind::Item, 2, 3, "C", None),
        ],
        notes: None,
    }])
}

#[test]
fn negative_quantities_and_counts_are_computed() {
    let cat = signed_catalog();
    let owned: HashMap<u32, i64> = [(1, 0), (2, -5)].into_iter().collect();
    let needs = aggregate_needs(&cat, &cat.legendaries[0]);
    assert_eq!(needed_of(&needs, LeafKind::Item, 1), Some(2));
    assert_eq!(needed_of(&needs, LeafKind::Item, 2), Some(3));
    let p = compute_progress(&cat, &cat.legendaries[0], &owned, &HashMap::new());
    assert_eq!(p.total_needed, 5);
    assert_eq!(p.total_owned, -5);
    assert_eq!(p.leaves_total, 2);
    assert_eq!(p.leaves_complete, 0);
    assert_eq!(p.groups.len(), 1);
    let g = &p.groups[0];
    assert_eq!(g.total_needed, 5);
    assert_eq!(g.total_owned, -7);
    assert_eq!(g.leaves_complete, 1);
    let got: Vec<(&str, i64, i64, bool)> =
        g.leaves.iter().map(|l| (l.name.as_str(), l.owned, l.missing, l.complete)).collect();
    assert_eq!(got, vec![("C", -5, 8, false), ("A", 0, 4, false), ("B", -2, 0, true)]);
}

#[test]
fn progress_fits_bounds_quantities_and_counts() {
    let cat = signed_catalog();
    let r = &cat.legendaries[0];
    let none: HashMap<u32, i64> = HashMap::new();
    let owned: HashMap<u32, i64> = [(1, 0), (2, -5)].into_iter().collect();
    assert!(progress_fits(&cat, r, &owned, &none));
    let near: HashMap<u32, i64> = [(2, -(i64::MAX - 10))].into_iter().collect();
    assert!(progress_fits(&cat, r, &near, &none));
    let over: HashMap<u32, i64> = [(2, -(i64::MAX - 8))].into_iter().collect();
    assert!(!progress_fits(&cat, r, &over, &none));
    let min: HashMap<u32, i64> = [(2, i64::MIN)].into_iter().collect();
    assert!(!progress_fits(&cat, r, &min, &none));
    // a currency with the same id is another key
    assert!(progress_fits(&cat, r, &none, &min));
}

#[test]
fn unlabelled_leaf_listed_first_still_trails() {
    let cat = RecipeCatalog::new(vec![LegendaryRecipe {
        collection_key: "y".into(),
        components: vec![],
        leaves: vec![
            leaf(LeafKind::Item, 1, 1, "P", None),
            leaf(LeafKind::Item, 2, 1, "Q", Some("LW")),
            leaf(LeafKind::Item, 3, 1, "R", Some("Season 4")),
        ],
        notes: None,
    }]);
    let p = compute_progress(&cat, &cat.legendaries[0], &HashMap::new(), &HashMap::new());
    let names: Vec<&str> = p.groups.iter().map(|g| g.name.as_str()).collect();
    assert_eq!(names, vec!["LW", "Season 4", "Specific"]);
    assert_eq!(p.groups[2].leaves[0].id, 1);
}
