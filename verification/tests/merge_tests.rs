use easyenv::merge::{merge_layers, origin_of, EnvLayer};
use indexmap::IndexMap;

fn vars(ps: &[(&str, &str)]) -> IndexMap<String, String> {
    ps.iter().map(|(k, v)| (k.to_string(), v.to_string())).collect()
}

fn layer(ps: &[(&str, &str)]) -> EnvLayer {
    EnvLayer { source: "test".to_string(), vars: vars(ps) }
}

#[test]
fn child_overrides_parent_on_conflict() {
    let layers = vec![layer(&[("FOO", "parent")]), layer(&[("FOO", "child")])];
    let merged = merge_layers(&layers);
    assert_eq!(merged.get("FOO"), Some(&"child".to_string()));
}

#[test]
fn non_conflicting_keys_from_all_layers_survive() {
    let layers = vec![layer(&[("FOO", "parent"), ("SHARED", "parent")]), layer(&[("FOO", "child")])];
    let merged = merge_layers(&layers);
    assert_eq!(merged.get("FOO"), Some(&"child".to_string()));
    assert_eq!(merged.get("SHARED"), Some(&"parent".to_string()));
}

#[test]
fn origin_of_reports_the_closest_defining_layer() {
    let layers = vec![
        EnvLayer { source: "/parent/.env".to_string(), vars: vars(&[("FOO", "parent"), ("SHARED", "parent")]) },
        EnvLayer { source: "/child/.env".to_string(), vars: vars(&[("FOO", "child")]) },
    ];
    assert_eq!(origin_of(&layers, "FOO"), Some("/child/.env"));
    assert_eq!(origin_of(&layers, "SHARED"), Some("/parent/.env"));
    assert_eq!(origin_of(&layers, "MISSING"), None);
}

#[test]
fn empty_layers_yields_empty_map() {
    let merged = merge_layers(&[]);
    assert!(merged.is_empty());
}

#[test]
fn merged_keys_keep_first_appearance_order() {
    let layers = vec![layer(&[("A", "1"), ("B", "1")]), layer(&[("C", "2"), ("A", "2")])];
    let merged = merge_layers(&layers);
    let keys: Vec<&str> = merged.keys().map(|k| k.as_str()).collect();
    assert_eq!(keys, vec!["A", "B", "C"]);
    assert_eq!(merged.get("A"), Some(&"2".to_string()));
}
