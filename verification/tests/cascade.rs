use cargo_features_manager::dependency::{Dependency, DependencyType};
use cargo_features_manager::error::Error;
use cargo_features_manager::feature::{EnabledState, FeatureData, SubFeature, SubFeatureType};
use cargo_features_manager::feature_map::FeatureMap;

fn feature(subs: &[&str], is_default: bool) -> FeatureData {
    FeatureData {
        sub_features: subs.iter().map(|name| SubFeature::new(name)).collect(),
        is_default,
        enabled_state: EnabledState::Normal(false),
    }
}

fn dependency(features: &[(&str, &[&str], bool)]) -> Dependency {
    let mut map = FeatureMap::new();
    for (name, subs, is_default) in features {
        map.insert(name.to_string(), feature(subs, *is_default));
    }
    Dependency {
        name: "D".to_string(),
        rename: None,
        comment: None,
        version: "1.0".to_string(),
        workspace: false,
        kind: DependencyType::Normal,
        target: None,
        features: map,
    }
}

fn enabled(dep: &Dependency, name: &str) -> bool {
    dep.get_feature(name).unwrap().is_enabled()
}

fn states(dep: &Dependency) -> Vec<EnabledState> {
    dep.features.states()
}

fn graph() -> Dependency {
    dependency(&[("a", &[], true), ("b", &["a"], false), ("default", &["a"], false)])
}

#[test]
fn enabling_carries_over_to_implied_features() {
    let mut dep = graph();
    dep.enable_feature("b").unwrap();
    assert!(enabled(&dep, "a"));
    assert!(enabled(&dep, "b"));
    assert!(!enabled(&dep, "default"));
}

#[test]
fn disabling_carries_over_to_dependents() {
    let mut dep = graph();
    dep.enable_feature("b").unwrap();
    dep.disable_feature("a").unwrap();
    assert!(!enabled(&dep, "a"));
    assert!(!enabled(&dep, "b"));
}

#[test]
fn enabling_twice_is_enabling_once() {
    let mut dep = graph();
    dep.enable_feature("b").unwrap();
    let once = states(&dep);
    dep.enable_feature("b").unwrap();
    assert_eq!(states(&dep), once);
}

#[test]
fn disabling_twice_is_disabling_once() {
    let mut dep = graph();
    dep.enable_feature("b").unwrap();
    dep.disable_feature("a").unwrap();
    let once = states(&dep);
    dep.disable_feature("a").unwrap();
    assert_eq!(states(&dep), once);
}

#[test]
fn enabling_goes_through_several_features() {
    let mut dep = dependency(&[
        ("top", &["middle"], false),
        ("middle", &["bottom"], false),
        ("bottom", &[], false),
        ("aside", &[], false),
    ]);
    dep.enable_feature("top").unwrap();
    assert!(enabled(&dep, "top"));
    assert!(enabled(&dep, "middle"));
    assert!(enabled(&dep, "bottom"));
    assert!(!enabled(&dep, "aside"));
    dep.disable_feature("bottom").unwrap();
    assert!(!enabled(&dep, "top"));
    assert!(!enabled(&dep, "middle"));
    assert!(!enabled(&dep, "bottom"));
}

#[test]
fn a_cycle_of_features_ends() {
    let mut dep = dependency(&[("x", &["y"], false), ("y", &["z"], false), ("z", &["x"], false)]);
    dep.enable_feature("x").unwrap();
    assert!(enabled(&dep, "x"));
    assert!(enabled(&dep, "y"));
    assert!(enabled(&dep, "z"));
    dep.disable_feature("y").unwrap();
    assert!(!enabled(&dep, "x"));
    assert!(!enabled(&dep, "y"));
    assert!(!enabled(&dep, "z"));
}

#[test]
fn a_feature_that_lists_itself_ends() {
    let mut dep = dependency(&[("x", &["x"], false)]);
    dep.enable_feature("x").unwrap();
    assert!(enabled(&dep, "x"));
    dep.disable_feature("x").unwrap();
    assert!(!enabled(&dep, "x"));
}

#[test]
fn optional_dependencies_are_not_followed_when_enabling() {
    let mut dep = dependency(&[
        ("with", &["dep:serde", "other/feature"], false),
        ("dep:serde", &[], false),
    ]);
    dep.enable_feature("with").unwrap();
    assert!(enabled(&dep, "with"));
    assert!(!enabled(&dep, "dep:serde"));
}

#[test]
fn entries_of_any_kind_are_followed_when_disabling() {
    let mut dep = dependency(&[("with", &["dep:serde"], false), ("dep:serde", &[], false)]);
    dep.enable_feature("with").unwrap();
    dep.enable_feature("dep:serde").unwrap();
    dep.disable_feature("dep:serde").unwrap();
    assert!(!enabled(&dep, "with"));
}

#[test]
fn a_missing_feature_is_reported() {
    let mut dep = graph();
    assert!(matches!(dep.enable_feature("none"), Err(Error::FeatureNotFound(name)) if name == "none"));
    assert!(matches!(dep.disable_feature("none"), Err(Error::FeatureNotFound(name)) if name == "none"));
    assert!(matches!(dep.toggle_feature("none"), Err(Error::FeatureNotFound(name)) if name == "none"));
    assert!(matches!(
        dep.set_feature_to_workspace("none"),
        Err(Error::FeatureNotFound(name)) if name == "none"
    ));
    assert_eq!(states(&dep), vec![EnabledState::Normal(false); 3]);
}

#[test]
fn a_missing_sub_feature_stops_the_cascade() {
    let mut dep = dependency(&[("a", &["b", "gone", "c"], false), ("b", &[], false), ("c", &[], false)]);
    assert!(matches!(dep.enable_feature("a"), Err(Error::FeatureNotFound(name)) if name == "gone"));
    assert!(enabled(&dep, "a"));
    assert!(enabled(&dep, "b"));
    assert!(!enabled(&dep, "c"));
    let stopped = states(&dep);
    assert!(dep.enable_feature("a").is_ok());
    assert_eq!(states(&dep), stopped);
}

#[test]
fn toggling_switches_to_the_other_side() {
    let mut dep = graph();
    dep.toggle_feature("b").unwrap();
    assert!(enabled(&dep, "a"));
    assert!(enabled(&dep, "b"));
    dep.toggle_feature("a").unwrap();
    assert!(!enabled(&dep, "a"));
    assert!(!enabled(&dep, "b"));
}

#[test]
fn an_inherited_feature_is_not_toggled() {
    let mut dep = graph();
    dep.set_feature_to_workspace("a").unwrap();
    assert_eq!(dep.get_feature("a").unwrap().enabled_state, EnabledState::Workspace);
    assert!(!dep.get_feature("a").unwrap().is_toggleable());
    dep.toggle_feature("a").unwrap();
    assert_eq!(dep.get_feature("a").unwrap().enabled_state, EnabledState::Workspace);
    assert!(enabled(&dep, "a"));
}

#[test]
fn disabling_detaches_an_inherited_feature() {
    let mut dep = graph();
    dep.set_feature_to_workspace("a").unwrap();
    dep.disable_feature("a").unwrap();
    assert_eq!(dep.get_feature("a").unwrap().enabled_state, EnabledState::Normal(false));
}

#[test]
fn the_default_set_is_usable_when_all_of_it_is_enabled() {
    let mut dep = dependency(&[("a", &[], true), ("b", &[], true), ("c", &[], false)]);
    assert!(!dep.can_use_default());
    dep.enable_feature("a").unwrap();
    assert!(!dep.can_use_default());
    dep.enable_feature("b").unwrap();
    assert!(dep.can_use_default());
    dep.workspace = true;
    assert!(!dep.can_use_default());
}

#[test]
fn a_dependency_without_defaults_can_use_the_default_set() {
    let dep = dependency(&[("c", &[], false)]);
    assert!(dep.can_use_default());
}

#[test]
fn the_manifest_names_what_nothing_else_implies() {
    let mut dep = graph();
    dep.enable_feature("b").unwrap();
    assert_eq!(dep.get_features_to_enable(), vec!["b".to_string()]);
}

#[test]
fn the_manifest_leaves_out_a_default_that_is_disabled_elsewhere() {
    let mut dep = dependency(&[("a", &[], true), ("z", &[], true), ("m", &[], false), ("c", &[], false)]);
    dep.enable_feature("z").unwrap();
    dep.enable_feature("m").unwrap();
    dep.enable_feature("c").unwrap();
    assert!(!dep.can_use_default());
    assert_eq!(
        dep.get_features_to_enable(),
        vec!["c".to_string(), "m".to_string(), "z".to_string()]
    );
    dep.enable_feature("a").unwrap();
    assert_eq!(dep.get_features_to_enable(), vec!["c".to_string(), "m".to_string()]);
}

#[test]
fn the_manifest_names_neither_default_nor_inherited_features() {
    let mut dep = dependency(&[("default", &[], false), ("w", &[], false), ("n", &[], false)]);
    dep.enable_feature("default").unwrap();
    dep.enable_feature("w").unwrap();
    dep.set_feature_to_workspace("w").unwrap();
    dep.enable_feature("n").unwrap();
    assert_eq!(dep.get_features_to_enable(), vec!["n".to_string()]);
}

#[test]
fn names_are_ordered_by_code_point() {
    let mut dep = dependency(&[("b", &[], false), ("B", &[], false), ("a-b", &[], false), ("a", &[], false), ("ab", &[], false)]);
    for name in ["b", "B", "a-b", "a", "ab"] {
        dep.enable_feature(name).unwrap();
    }
    assert_eq!(
        dep.get_features_to_enable(),
        vec!["B".to_string(), "a".to_string(), "a-b".to_string(), "ab".to_string(), "b".to_string()]
    );
}

#[test]
fn dependents_are_the_features_that_list_a_name() {
    let mut dep = dependency(&[("a", &[], false), ("b", &["a"], false), ("c", &["dep:a", "a"], false), ("d", &["b"], false)]);
    assert_eq!(dep.get_dependent_features("a"), vec!["b".to_string(), "c".to_string()]);
    assert!(dep.get_currently_dependent_features("a").is_empty());
    dep.enable_feature("c").unwrap();
    assert_eq!(dep.get_currently_dependent_features("a"), vec!["c".to_string()]);
    assert!(dep.get_dependent_features("d").is_empty());
}

#[test]
fn the_kind_of_a_sub_feature_follows_from_its_name() {
    assert_eq!(SubFeatureType::from_name("dep:gif"), SubFeatureType::Dependency);
    assert_eq!(SubFeatureType::from_name("jpeg-decoder/rayon"), SubFeatureType::DependencyFeature);
    assert_eq!(SubFeatureType::from_name("std"), SubFeatureType::Normal);
    assert_eq!(SubFeatureType::from_name("dep:a/b"), SubFeatureType::Dependency);
    assert_eq!(SubFeatureType::from_name("dep"), SubFeatureType::Normal);
    assert_eq!(SubFeatureType::from_name(""), SubFeatureType::Normal);
    assert_eq!(SubFeatureType::from_name("/"), SubFeatureType::DependencyFeature);
    assert_eq!(SubFeatureType::from("dep:x"), SubFeatureType::Dependency);
}

#[test]
fn a_feature_with_an_optional_dependency_has_dependency_features() {
    assert!(feature(&["a", "dep:b"], false).has_dependency_features());
    assert!(feature(&["a/b"], false).has_dependency_features());
    assert!(!feature(&["a", "b"], false).has_dependency_features());
    assert!(!feature(&[], false).has_dependency_features());
}

#[test]
fn inserting_a_name_again_replaces_the_record() {
    let mut map = FeatureMap::new();
    assert!(map.is_empty());
    assert!(map.insert("a".to_string(), feature(&[], false)).is_none());
    assert!(map.insert("b".to_string(), feature(&[], false)).is_none());
    let earlier = map.insert("a".to_string(), feature(&["b"], true));
    assert!(earlier.is_some());
    assert!(!earlier.unwrap().is_default);
    assert_eq!(map.len(), 2);
    assert_eq!(map.names(), vec!["a".to_string(), "b".to_string()]);
    assert!(map.get("a").unwrap().is_default);
    assert!(map.contains_key("b"));
    assert!(!map.contains_key("c"));
}

#[test]
fn a_feature_that_lists_itself_is_named_in_the_manifest() {
    let mut dep = dependency(&[("x", &["x"], false), ("y", &["x"], false)]);
    dep.enable_feature("x").unwrap();
    assert_eq!(dep.get_features_to_enable(), vec!["x".to_string()]);
    dep.enable_feature("y").unwrap();
    assert_eq!(dep.get_features_to_enable(), vec!["y".to_string()]);
    assert_eq!(dep.get_currently_dependent_features("x"), vec!["x".to_string(), "y".to_string()]);
}
