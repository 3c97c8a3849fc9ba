use cargo_features_manager::dependency::{Dependency, DependencyType};
use cargo_features_manager::error::Error;
use cargo_features_manager::feature::{starts_with_dep, EnabledState, SubFeature, SubFeatureType};
use cargo_features_manager::save::{manifest_entry, ManifestEntry};
use cargo_features_manager::feature_map::FeatureMap;
use cargo_features_manager::name_map::NameMap;
use cargo_features_manager::resolve::{declare_features, keep_normal_names, make_sub_features, set_features};

fn declared(features: &[(&str, &[&str])]) -> NameMap<Vec<String>> {
    let mut table = NameMap::new();
    for (name, subs) in features {
        table.insert(name.to_string(), subs.iter().map(|sub| sub.to_string()).collect());
    }
    table
}

fn bare(name: &str) -> Dependency {
    Dependency {
        name: name.to_string(),
        rename: None,
        comment: None,
        version: "1.0".to_string(),
        workspace: false,
        kind: DependencyType::Normal,
        target: None,
        features: FeatureMap::new(),
    }
}

fn strings(names: &[&str]) -> Vec<String> {
    names.iter().map(|name| name.to_string()).collect()
}

fn enabled(dep: &Dependency, name: &str) -> bool {
    dep.get_feature(name).unwrap().is_enabled()
}

#[test]
fn the_default_set_and_an_asked_feature_are_enabled() {
    let mut dep = bare("D");
    let table = declared(&[("a", &[]), ("b", &["a"]), ("default", &["a"])]);
    set_features(&mut dep, &table, true, &strings(&["b"])).unwrap();
    assert!(enabled(&dep, "a"));
    assert!(enabled(&dep, "b"));
    assert!(!enabled(&dep, "default"));
    assert!(dep.get_feature("a").unwrap().is_default);
    assert!(!dep.get_feature("b").unwrap().is_default);
    assert!(dep.can_use_default());
    assert_eq!(dep.get_features_to_enable(), strings(&["b"]));
}

#[test]
fn disabling_a_feature_disables_what_requires_it() {
    let mut dep = bare("D");
    let table = declared(&[("a", &[]), ("b", &["a"]), ("default", &["a"])]);
    set_features(&mut dep, &table, true, &strings(&["b"])).unwrap();
    dep.disable_feature("a").unwrap();
    assert!(!enabled(&dep, "a"));
    assert!(!enabled(&dep, "b"));
}

#[test]
fn without_the_default_set_only_what_is_asked_for_is_enabled() {
    let mut dep = bare("D");
    let table = declared(&[("a", &[]), ("b", &[]), ("default", &["a"])]);
    set_features(&mut dep, &table, false, &strings(&["b"])).unwrap();
    assert!(!enabled(&dep, "a"));
    assert!(enabled(&dep, "b"));
    assert!(!dep.can_use_default());
    assert_eq!(dep.get_features_to_enable(), strings(&["b"]));
}

#[test]
fn names_of_other_kinds_are_not_enabled() {
    let mut dep = bare("D");
    let table = declared(&[("a", &["dep:x", "y/z", "b"]), ("b", &[]), ("default", &["dep:x", "b"])]);
    set_features(&mut dep, &table, true, &strings(&["dep:x", "y/z"])).unwrap();
    assert!(!enabled(&dep, "a"));
    assert!(enabled(&dep, "b"));
    let subs = &dep.get_feature("a").unwrap().sub_features;
    assert_eq!(subs.len(), 3);
    assert_eq!(subs[0].name, "dep:x");
    assert_eq!(subs[0].kind, SubFeatureType::Dependency);
    assert_eq!(subs[1].name, "y/z");
    assert_eq!(subs[1].kind, SubFeatureType::DependencyFeature);
    assert_eq!(subs[2].name, "b");
    assert_eq!(subs[2].kind, SubFeatureType::Normal);
    assert!(dep.get_feature("a").unwrap().has_dependency_features());
}

#[test]
fn a_feature_that_is_not_declared_is_reported() {
    let mut dep = bare("D");
    let table = declared(&[("a", &[])]);
    let result = set_features(&mut dep, &table, true, &strings(&["a", "gone"]));
    assert!(matches!(result, Err(Error::FeatureNotFound(name)) if name == "gone"));
    assert!(enabled(&dep, "a"));
}

#[test]
fn declared_features_start_switched_off() {
    let features = declare_features(&declared(&[("x", &["y"]), ("y", &[]), ("default", &["y"])]));
    assert_eq!(features.names(), strings(&["x", "y", "default"]));
    assert_eq!(features.states(), vec![EnabledState::Normal(false); 3]);
    assert!(features.get("y").unwrap().is_default);
    assert!(!features.get("x").unwrap().is_default);
    assert!(!features.get("default").unwrap().is_default);
}

#[test]
fn entries_are_made_for_names_of_every_kind() {
    let subs = make_sub_features(&strings(&["a", "b/c", "dep:d"]));
    assert_eq!(subs.len(), 3);
    assert_eq!(subs[0].name, "a");
    assert_eq!(subs[1].kind, SubFeatureType::DependencyFeature);
    assert_eq!(subs[2].name, "dep:d");
    assert_eq!(keep_normal_names(&strings(&["a", "b/c", "dep:d", "e"])), strings(&["a", "e"]));
}

#[test]
fn an_optional_dependency_is_shown_with_a_mark() {
    let shown = SubFeature::new("dep:serde").shown();
    assert!(shown == "📦serde" || shown == "dep:serde");
    let shown = SubFeature::new("dep:dep:x").shown();
    assert!(shown == "📦x" || shown == "dep:x");
    let shown = SubFeature::new("dep:").shown();
    assert!(shown == "📦" || shown == "dep:");
    assert_eq!(SubFeature::new("serde/derive").shown(), "serde/derive");
    assert_eq!(SubFeature::new("std").shown(), "std");
    assert!(starts_with_dep("a dep:b", 2));
    assert!(!starts_with_dep("a dep:b", 0));
    assert!(!starts_with_dep("dep", 0));
    assert!(!starts_with_dep("dep:", 1));
    assert!(!starts_with_dep("dep:", 9));
}

#[test]
fn the_manifest_holds_the_version_alone_where_nothing_else_is_to_be_said() {
    let mut dep = bare("D");
    let table = declared(&[("a", &[]), ("b", &["a"]), ("c", &[]), ("default", &["a"])]);
    set_features(&mut dep, &table, true, &vec![]).unwrap();
    assert!(matches!(manifest_entry(&dep, false, false), ManifestEntry::Version(version) if version == "1.0"));
    assert!(matches!(
        manifest_entry(&dep, true, false),
        ManifestEntry::Table { version: Some(version), features: None, default_features: None } if version == "1.0"
    ));
    assert!(matches!(
        manifest_entry(&dep, true, true),
        ManifestEntry::Table { version: None, features: None, default_features: None }
    ));
    dep.enable_feature("c").unwrap();
    dep.enable_feature("b").unwrap();
    assert!(matches!(
        manifest_entry(&dep, false, false),
        ManifestEntry::Table { version: Some(_), features: Some(names), default_features: None }
            if names == strings(&["b", "c"])
    ));
    dep.disable_feature("a").unwrap();
    assert!(matches!(
        manifest_entry(&dep, false, false),
        ManifestEntry::Table { version: Some(_), features: Some(names), default_features: Some(false) }
            if names == strings(&["c"])
    ));
    dep.workspace = true;
    dep.version = String::new();
    assert!(matches!(
        manifest_entry(&dep, false, false),
        ManifestEntry::Table { version: None, features: Some(_), default_features: None }
    ));
}
