use dx_styles::agg::{calculate_global_classnames_and_ids, delta_counts, globals_changed};
use dx_styles::cache::{content_hash, DirCache, FileEntry};
use dx_styles::codec::{decode_dir_cache, encode_dir_cache};
use dx_styles::css::{parse_existing_css, render_css};
use dx_styles::group::GroupTransformer;
use dx_styles::strset::NameSet;

fn name_set(names: &[&str]) -> NameSet {
    let mut s = NameSet::new();
    for n in names {
        s.insert(n.to_string());
    }
    s
}

fn entry(path: &str, hash: u64, classes: &[&str], ids: &[&str]) -> FileEntry {
    FileEntry {
        path: path.to_string(),
        content_hash: hash,
        classes: name_set(classes),
        ids: name_set(ids),
    }
}

#[test]
fn name_set_insert_dedups_and_sorts() {
    let s = name_set(&["beta", "alpha", "beta"]);
    assert_eq!(s.len(), 2);
    assert_eq!(s.sorted_items().as_slice(), ["alpha", "beta"]);
    assert!(s.contains_name("alpha"));
    assert!(!s.contains_name("gamma"));
}

#[test]
fn merge_is_set_union() {
    let a = name_set(&["a", "b"]);
    let b = name_set(&["b", "c"]);
    let u = a.merge(&b);
    assert_eq!(u.sorted_items().as_slice(), ["a", "b", "c"]);
    // union is order-independent
    let v = b.merge(&a);
    assert!(u.set_eq(&v));
}

#[test]
fn minus_is_set_difference() {
    let a = name_set(&["a", "b", "c"]);
    let b = name_set(&["b"]);
    let d = a.minus(&b);
    assert_eq!(d.sorted_items().as_slice(), ["a", "c"]);
}

#[test]
fn grouped_class_attribute_expands() {
    let mut t = GroupTransformer::new();
    let rewritten = t.visit_class_attr(10, "box(a+b+c)");
    assert_eq!(rewritten.as_deref(), Some("box(ABC+)"));
    let bindings = t.take_bindings();
    assert_eq!(bindings.len(), 1);
    assert_eq!(bindings[0].name, "box");
    assert_eq!(bindings[0].value, "a b c");
    assert_eq!(t.resolved_classes.len(), 1);
    assert_eq!(t.resolved_classes[0].position, 10);
    assert_eq!(t.resolved_classes[0].class_names, vec!["a", "b", "c"]);
}

#[test]
fn empty_prefix_gets_fresh_names() {
    let mut t = GroupTransformer::new();
    let first = t.visit_class_attr(1, "(a+b)");
    assert_eq!(first.as_deref(), Some("_1(AB+)"));
    let second = t.visit_class_attr(2, "(c)");
    assert_eq!(second.as_deref(), Some("_2(C+)"));
    assert_eq!(t.serializer_count, 2);
    let bindings = t.take_bindings();
    assert_eq!(bindings.len(), 2);
    assert_eq!(bindings[0].name, "_1");
    assert_eq!(bindings[0].value, "a b");
    assert_eq!(bindings[1].name, "_2");
    assert_eq!(bindings[1].value, "c");
}

#[test]
fn plain_classes_around_a_group_are_kept() {
    let mut t = GroupTransformer::new();
    let rewritten = t.visit_class_attr(3, "lead box(a+b) tail");
    assert_eq!(rewritten.as_deref(), Some("lead box(AB+) tail"));
    assert_eq!(
        t.resolved_classes[0].class_names,
        vec!["a", "b", "lead", "tail"]
    );
}

#[test]
fn attribute_without_group_is_untouched() {
    let mut t = GroupTransformer::new();
    assert_eq!(t.visit_class_attr(4, "just plain names"), None);
    assert_eq!(t.visit_class_attr(5, "empty()"), None);
    assert_eq!(t.serializer_count, 0);
    assert!(t.new_vars.is_empty());
    assert!(t.resolved_classes.is_empty());
}

#[test]
fn group_interior_is_trimmed() {
    let mut t = GroupTransformer::new();
    let rewritten = t.visit_class_attr(6, "w( a + b +)");
    assert_eq!(rewritten.as_deref(), Some("w(AB+)"));
    let bindings = t.take_bindings();
    assert_eq!(bindings[0].value, "a b");
}

#[test]
fn abbreviation_samples_five_of_many() {
    let mut t = GroupTransformer::new();
    // first, second, middle, second-to-last, last of seven: a, b, d, f, g
    let rewritten = t.visit_class_attr(7, "x(a+b+c+d+e+f+g)");
    assert_eq!(rewritten.as_deref(), Some("x(ABDFG+)"));
    // but the binding and the classes keep the whole group
    let bindings = t.take_bindings();
    assert_eq!(bindings[0].value, "a b c d e f g");
}

#[test]
fn render_writes_sorted_skeleton() {
    let classes = name_set(&["flex", "box"]);
    let ids = name_set(&["F1"]);
    let text = render_css(&classes, &ids);
    assert_eq!(text, ".box {}\n.flex {}\n#F1 {}\n");
}

#[test]
fn parse_reads_skeleton_back() {
    let (classes, ids) = parse_existing_css(".box {}\n.flex {}\n#F1 {}\n");
    assert_eq!(classes.sorted_items().as_slice(), ["box", "flex"]);
    assert_eq!(ids.sorted_items().as_slice(), ["F1"]);
}

#[test]
fn render_then_parse_round_trips() {
    let classes = name_set(&["alpha", "beta-2", "under_score"]);
    let ids = name_set(&["AB", "G1"]);
    let (c2, i2) = parse_existing_css(&render_css(&classes, &ids));
    assert!(classes.set_eq(&c2));
    assert!(ids.set_eq(&i2));
}

#[test]
fn parse_skips_foreign_lines_and_whitespace() {
    let text = "/* banner */\n  .indented {}\nbody { margin: 0; }\n\n#the-id {}\n";
    let (classes, ids) = parse_existing_css(text);
    assert_eq!(classes.sorted_items().as_slice(), ["indented"]);
    assert_eq!(ids.sorted_items().as_slice(), ["the-id"]);
}

#[test]
fn content_hash_matches_fnv1a_reference_values() {
    assert_eq!(content_hash(b""), 0xcbf29ce484222325);
    assert_eq!(content_hash(b"a"), 0xaf63dc4c8601ec8c);
}

#[test]
fn cache_hit_only_on_matching_hash() {
    let mut cache = DirCache::new();
    let bytes = b"component source";
    let hash = content_hash(bytes);
    cache.upsert(entry("src/app.tsx", hash, &["flex"], &["F"]));
    // unchanged bytes: the entry is served, nothing needs reparsing
    let hit = cache.lookup("src/app.tsx", hash).expect("expected a cache hit");
    assert!(hit.classes.contains_name("flex"));
    assert!(hit.ids.contains_name("F"));
    // changed bytes: the stale entry is never served
    let new_hash = content_hash(b"component source v2");
    assert_ne!(hash, new_hash);
    assert!(cache.lookup("src/app.tsx", new_hash).is_none());
    // unknown path
    assert!(cache.lookup("src/other.tsx", hash).is_none());
}

#[test]
fn upsert_replaces_and_remove_drops() {
    let mut cache = DirCache::new();
    cache.upsert(entry("a.tsx", 1, &["x"], &[]));
    cache.upsert(entry("b.tsx", 2, &["y"], &[]));
    cache.upsert(entry("a.tsx", 3, &["z"], &[]));
    assert_eq!(cache.entries.len(), 2);
    let e = cache.lookup("a.tsx", 3).expect("replaced entry");
    assert!(e.classes.contains_name("z"));
    cache.remove_path("a.tsx");
    assert!(cache.lookup("a.tsx", 3).is_none());
    assert!(cache.lookup("b.tsx", 2).is_some());
}

#[test]
fn global_merge_is_union_of_files() {
    let mut cache = DirCache::new();
    cache.upsert(entry("a.tsx", 1, &["a", "b"], &["A1"]));
    cache.upsert(entry("b.tsx", 2, &["b", "c"], &["B1"]));
    let (classes, ids) = calculate_global_classnames_and_ids(&cache);
    assert_eq!(classes.sorted_items().as_slice(), ["a", "b", "c"]);
    assert_eq!(ids.sorted_items().as_slice(), ["A1", "B1"]);
}

#[test]
fn removal_delta_is_exactly_the_lost_contribution() {
    let mut cache = DirCache::new();
    cache.upsert(entry("a.tsx", 1, &["a", "b"], &[]));
    cache.upsert(entry("b.tsx", 2, &["b", "c"], &[]));
    let (before, _ids) = calculate_global_classnames_and_ids(&cache);
    cache.remove_path("b.tsx");
    let (after, _ids) = calculate_global_classnames_and_ids(&cache);
    let (added, removed) = delta_counts(&before, &after);
    assert_eq!(added, 0);
    // only "c" leaves: "b" is still contributed by a.tsx
    assert_eq!(removed, 1);
    let gone = before.minus(&after);
    assert_eq!(gone.sorted_items().as_slice(), ["c"]);
}

#[test]
fn globals_changed_detects_any_difference() {
    let c1 = name_set(&["a"]);
    let i1 = name_set(&["x"]);
    let c2 = name_set(&["a"]);
    let i2 = name_set(&["x", "y"]);
    assert!(!globals_changed(&c1, &i1, &c2, &i1));
    assert!(globals_changed(&c1, &i1, &c2, &i2));
}

#[test]
fn cache_blob_round_trips() {
    let mut cache = DirCache::new();
    cache.upsert(entry("a.tsx", 11, &["flex", "box"], &["F1"]));
    cache.upsert(entry("b.tsx", 22, &[], &["G"]));
    let blob = encode_dir_cache(&cache);
    let decoded = decode_dir_cache(&blob).expect("a fresh blob must decode");
    assert_eq!(decoded.entries.len(), 2);
    let a = decoded.lookup("a.tsx", 11).expect("entry for a.tsx");
    assert!(a.classes.contains_name("flex"));
    assert!(a.classes.contains_name("box"));
    assert!(a.ids.contains_name("F1"));
    let b = decoded.lookup("b.tsx", 22).expect("entry for b.tsx");
    assert_eq!(b.classes.len(), 0);
    assert!(b.ids.contains_name("G"));
    // decoding is exact: the decoded cache re-encodes to the same bytes
    assert_eq!(encode_dir_cache(&decoded), blob);
}

#[test]
fn corrupted_blob_is_rejected() {
    let mut cache = DirCache::new();
    cache.upsert(entry("a.tsx", 11, &["flex"], &[]));
    let blob = encode_dir_cache(&cache);
    // flip one payload byte: the checksum no longer matches
    let mut corrupted = blob.clone();
    let last = corrupted.len() - 1;
    corrupted[last] ^= 0xff;
    assert!(decode_dir_cache(&corrupted).is_none());
    // flip one checksum byte
    let mut bad_sum = blob.clone();
    bad_sum[0] ^= 0xff;
    assert!(decode_dir_cache(&bad_sum).is_none());
    // truncation is rejected too
    let short = blob[..blob.len() - 1].to_vec();
    assert!(decode_dir_cache(&short).is_none());
}

#[test]
fn blob_with_unsorted_names_is_rejected() {
    // a stored name set must be strictly sorted; a blob that lists names
    // out of order is no cache's encoding and must not decode
    let unsorted = NameSet {
        items: vec!["beta".to_string(), "alpha".to_string()],
    };
    let cache = DirCache {
        entries: vec![FileEntry {
            path: "a.tsx".to_string(),
            content_hash: 1,
            classes: unsorted,
            ids: NameSet::new(),
        }],
    };
    let blob = encode_dir_cache(&cache);
    assert!(decode_dir_cache(&blob).is_none());
}

#[test]
fn blob_with_duplicate_paths_is_rejected() {
    let cache = DirCache {
        entries: vec![
            entry("a.tsx", 1, &["x"], &[]),
            entry("a.tsx", 2, &["y"], &[]),
        ],
    };
    let blob = encode_dir_cache(&cache);
    assert!(decode_dir_cache(&blob).is_none());
}

#[test]
fn empty_cache_round_trips() {
    let cache = DirCache::new();
    let blob = encode_dir_cache(&cache);
    let decoded = decode_dir_cache(&blob).expect("empty blob decodes");
    assert_eq!(decoded.entries.len(), 0);
}
