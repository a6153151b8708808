use dx_styles::id::{
    apply_updates, determine_css_entities_and_updates, resolve_entities, split_whitespace_names,
    ElementInfo, IdApplier, InfoCollector, PosClasses,
};

fn element(position: u64, classes: &[&str], current: Option<&str>) -> ElementInfo {
    ElementInfo {
        position,
        class_names: classes.iter().map(|s| s.to_string()).collect(),
        current_id: current.map(|s| s.to_string()),
    }
}

#[test]
fn collector_splits_sorts_and_dedups() {
    let mut col = InfoCollector::new();
    col.visit_element(1, Some("beta  alpha beta"), None);
    assert_eq!(col.elements.len(), 1);
    assert_eq!(col.elements[0].class_names, vec!["alpha", "beta"]);
    assert_eq!(col.elements[0].current_id, None);
}

#[test]
fn collector_drops_bare_elements() {
    let mut col = InfoCollector::new();
    col.visit_element(1, None, None);
    col.visit_element(2, Some("   "), None);
    col.visit_element(3, Some(""), Some(""));
    assert_eq!(col.elements.len(), 0);
    col.visit_element(4, None, Some("kept"));
    assert_eq!(col.elements.len(), 1);
    assert_eq!(col.elements[0].position, 4);
    assert_eq!(col.elements[0].current_id.as_deref(), Some("kept"));
}

#[test]
fn split_whitespace_drops_blanks() {
    let parts = split_whitespace_names(" a\t b \n c ");
    assert_eq!(parts, vec!["a", "b", "c"]);
    let empty = split_whitespace_names("   ");
    assert!(empty.is_empty());
}

#[test]
fn two_trigger_elements_get_numbered_identifiers() {
    // two elements both carrying the trigger class and `flex`
    let els = vec![
        element(1, &["flex", "id"], None),
        element(2, &["flex", "id"], None),
    ];
    let (classes, ids, updates) = resolve_entities(&els);
    assert!(classes.contains_name("id"));
    assert!(classes.contains_name("flex"));
    assert_eq!(classes.len(), 2);
    assert!(ids.contains_name("F1"));
    assert!(ids.contains_name("F2"));
    assert_eq!(ids.len(), 2);
    assert_eq!(updates.len(), 2);
    assert_eq!(updates[0].position, 1);
    assert_eq!(updates[0].new_identifier, "F1");
    assert_eq!(updates[1].position, 2);
    assert_eq!(updates[1].new_identifier, "F2");
}

#[test]
fn three_way_collision_is_numbered_in_encounter_order() {
    let els = vec![
        element(7, &["alpha", "beta", "id"], None),
        element(8, &["alpha", "beta", "id"], None),
        element(9, &["alpha", "beta", "id"], None),
    ];
    let (_classes, ids, updates) = resolve_entities(&els);
    assert!(ids.contains_name("AB1"));
    assert!(ids.contains_name("AB2"));
    assert!(ids.contains_name("AB3"));
    assert!(!ids.contains_name("AB"));
    assert_eq!(ids.len(), 3);
    assert_eq!(updates.len(), 3);
    assert_eq!(updates[0].new_identifier, "AB1");
    assert_eq!(updates[1].new_identifier, "AB2");
    assert_eq!(updates[2].new_identifier, "AB3");
}

#[test]
fn lone_element_keeps_bare_base_identifier() {
    let els = vec![element(7, &["alpha", "beta", "id"], None)];
    let (_classes, ids, updates) = resolve_entities(&els);
    assert!(ids.contains_name("AB"));
    assert_eq!(ids.len(), 1);
    assert_eq!(updates.len(), 1);
    assert_eq!(updates[0].new_identifier, "AB");
}

#[test]
fn trigger_only_element_collapses_to_g() {
    let els = vec![element(1, &["id"], None), element(2, &["id"], None)];
    let (_classes, ids, _updates) = resolve_entities(&els);
    assert!(ids.contains_name("G1"));
    assert!(ids.contains_name("G2"));
}

#[test]
fn base_identifier_samples_five_of_many_classes() {
    // eight non-trigger classes: first, second, middle, second-to-last, last
    // are sampled: apple, brick, east, grape, hazel.
    let els = vec![element(
        1,
        &[
            "apple", "brick", "cedar", "dune", "east", "fig", "grape", "hazel", "id",
        ],
        None,
    )];
    let (_c, ids, _u) = resolve_entities(&els);
    assert!(ids.contains_name("ABEGH"));
}

#[test]
fn unmanaged_identifier_is_kept_as_is() {
    let els = vec![element(1, &["plain"], Some("existing"))];
    let (classes, ids, updates) = resolve_entities(&els);
    assert!(classes.contains_name("plain"));
    assert!(ids.contains_name("existing"));
    assert_eq!(updates.len(), 0);
}

#[test]
fn matching_current_identifier_yields_no_update() {
    let els = vec![element(1, &["flex", "id"], Some("F"))];
    let (_c, ids, updates) = resolve_entities(&els);
    assert!(ids.contains_name("F"));
    assert_eq!(updates.len(), 0);
}

#[test]
fn resolver_is_idempotent() {
    let els = vec![
        element(1, &["flex", "id"], None),
        element(2, &["flex", "id"], Some("stale")),
        element(3, &["grid", "id"], None),
        element(4, &["plain"], Some("kept")),
    ];
    let (_c1, ids1, updates1) = resolve_entities(&els);
    assert!(!updates1.is_empty());
    let applier = IdApplier { id_map: updates1 };
    let updated = apply_updates(&els, &applier);
    let (_c2, ids2, updates2) = resolve_entities(&updated);
    assert_eq!(updates2.len(), 0);
    assert!(ids1.set_eq(&ids2));
}

#[test]
fn resolution_is_deterministic() {
    let els = vec![
        element(1, &["flex", "id"], None),
        element(2, &["grid", "id"], Some("x")),
    ];
    let els_again = vec![
        element(1, &["flex", "id"], None),
        element(2, &["grid", "id"], Some("x")),
    ];
    let (c1, i1, u1) = resolve_entities(&els);
    let (c2, i2, u2) = resolve_entities(&els_again);
    assert!(c1.set_eq(&c2));
    assert!(i1.set_eq(&i2));
    assert_eq!(u1.len(), u2.len());
    for (a, b) in u1.iter().zip(u2.iter()) {
        assert_eq!(a.position, b.position);
        assert_eq!(a.new_identifier, b.new_identifier);
    }
}

#[test]
fn applying_no_updates_changes_nothing() {
    let els = vec![element(1, &["flex", "id"], Some("F"))];
    let applier = IdApplier { id_map: Vec::new() };
    let updated = apply_updates(&els, &applier);
    assert_eq!(updated.len(), 1);
    assert_eq!(updated[0].position, 1);
    assert_eq!(updated[0].class_names, vec!["flex", "id"]);
    assert_eq!(updated[0].current_id.as_deref(), Some("F"));
}

#[test]
fn resolved_class_overrides_take_precedence() {
    // the element's own list has no trigger class, the override does
    let els = vec![element(5, &["plain"], None)];
    let overrides = vec![PosClasses {
        position: 5,
        class_names: vec!["id".to_string(), "flex".to_string()],
    }];
    let (classes, ids, updates) = determine_css_entities_and_updates(&els, &overrides);
    assert!(classes.contains_name("id"));
    assert!(classes.contains_name("flex"));
    assert!(!classes.contains_name("plain"));
    assert!(ids.contains_name("F"));
    assert_eq!(updates.len(), 1);
    assert_eq!(updates[0].position, 5);
    assert_eq!(updates[0].new_identifier, "F");
}

#[test]
fn applier_looks_up_by_position() {
    let els = vec![
        element(1, &["flex", "id"], None),
        element(2, &["grid", "id"], None),
    ];
    let (_c, _i, updates) = resolve_entities(&els);
    let applier = IdApplier { id_map: updates };
    assert_eq!(applier.new_id_for(1).map(|s| s.as_str()), Some("F"));
    assert_eq!(applier.new_id_for(2).map(|s| s.as_str()), Some("G"));
    assert_eq!(applier.new_id_for(3), None);
}
