use cargo_features_manager::dependency::{Dependency, DependencyType};
use cargo_features_manager::document::{find_link, Document};
use cargo_features_manager::error::Error;
use cargo_features_manager::feature::{EnabledState, FeatureData, SubFeature};
use cargo_features_manager::feature_map::FeatureMap;
use cargo_features_manager::markers::NameMarkers;
use cargo_features_manager::package::Package;

fn feature(subs: &[&str], enabled: bool) -> FeatureData {
    FeatureData {
        sub_features: subs.iter().map(|name| SubFeature::new(name)).collect(),
        is_default: false,
        enabled_state: EnabledState::Normal(enabled),
    }
}

fn dependency(name: &str, workspace: bool, features: &[(&str, &[&str], bool)]) -> Dependency {
    let mut map = FeatureMap::new();
    for (feature_name, subs, enabled) in features {
        map.insert(feature_name.to_string(), feature(subs, *enabled));
    }
    Dependency {
        name: name.to_string(),
        rename: None,
        comment: None,
        version: "1.0".to_string(),
        workspace,
        kind: if workspace { DependencyType::Normal } else { DependencyType::Workspace },
        target: None,
        features: map,
    }
}

fn package(name: &str, dependencies: Vec<Dependency>) -> Package {
    Package { dependencies, name: name.to_string(), manifest_path: format!("{}/Cargo.toml", name) }
}

fn shape() -> [(&'static str, &'static [&'static str], bool); 3] {
    [("a", &[], false), ("b", &["a"], false), ("c", &[], false)]
}

fn state(document: &Document, package: usize, dependency: usize, feature: &str) -> EnabledState {
    document.get_packages()[package].dependencies[dependency]
        .get_feature(feature)
        .unwrap()
        .enabled_state
}

#[test]
fn members_take_over_the_features_of_the_workspace() {
    let mut shared = dependency("serde", false, &shape());
    shared.enable_feature("b").unwrap();
    let member = package("member", vec![dependency("serde", true, &shape())]);
    let document = Document::new(
        vec![member],
        Some(package("workspace", vec![shared])),
        ".".to_string(),
    )
    .unwrap();
    assert_eq!(document.workspace_index(), Some(1));
    assert!(document.is_workspace());
    assert_eq!(state(&document, 0, 0, "a"), EnabledState::Workspace);
    assert_eq!(state(&document, 0, 0, "b"), EnabledState::Workspace);
    assert_eq!(state(&document, 0, 0, "c"), EnabledState::Normal(false));
    assert_eq!(state(&document, 1, 0, "b"), EnabledState::Normal(true));
    assert!(document.get_packages()[0].dependencies[0].get_features_to_enable().is_empty());
}

#[test]
fn propagating_again_follows_the_workspace() {
    let mut shared = dependency("serde", false, &shape());
    shared.enable_feature("b").unwrap();
    let member = package("member", vec![dependency("serde", true, &shape())]);
    let mut document =
        Document::new(vec![member], Some(package("workspace", vec![shared])), ".".to_string()).unwrap();
    {
        let workspace = document.get_package_mut("workspace").unwrap();
        workspace.dependencies[0].disable_feature("b").unwrap();
        workspace.dependencies[0].enable_feature("c").unwrap();
    }
    document.update_workspace_deps().unwrap();
    assert_eq!(state(&document, 0, 0, "a"), EnabledState::Workspace);
    assert_eq!(state(&document, 0, 0, "b"), EnabledState::Normal(false));
    assert_eq!(state(&document, 0, 0, "c"), EnabledState::Workspace);
}

#[test]
fn a_local_feature_of_a_member_stays_on() {
    let mut shared = dependency("serde", false, &shape());
    shared.enable_feature("a").unwrap();
    let mut inheriting = dependency("serde", true, &shape());
    inheriting.enable_feature("c").unwrap();
    let document = Document::new(
        vec![package("member", vec![inheriting])],
        Some(package("workspace", vec![shared])),
        ".".to_string(),
    )
    .unwrap();
    assert_eq!(state(&document, 0, 0, "a"), EnabledState::Workspace);
    assert_eq!(state(&document, 0, 0, "c"), EnabledState::Normal(true));
}

#[test]
fn a_dependency_that_does_not_inherit_is_left_alone() {
    let mut shared = dependency("serde", false, &shape());
    shared.enable_feature("b").unwrap();
    let mut own = dependency("serde", false, &shape());
    own.kind = DependencyType::Normal;
    own.enable_feature("c").unwrap();
    let document = Document::new(
        vec![package("member", vec![own])],
        Some(package("workspace", vec![shared])),
        ".".to_string(),
    )
    .unwrap();
    assert_eq!(state(&document, 0, 0, "a"), EnabledState::Normal(false));
    assert_eq!(state(&document, 0, 0, "c"), EnabledState::Normal(true));
}

#[test]
fn a_missing_declaration_in_the_workspace_is_reported() {
    let shared = dependency("serde", false, &shape());
    let member = package("member", vec![dependency("tokio", true, &shape())]);
    let result = Document::new(vec![member], Some(package("workspace", vec![shared])), ".".to_string());
    assert!(matches!(result, Err(Error::WorkspaceLinkMissing(name)) if name == "tokio"));
}

#[test]
fn a_declaration_is_found_by_the_name_it_stands_for() {
    let mut shared = dependency("serde_renamed", false, &shape());
    shared.rename = Some("serde".to_string());
    let other = dependency("other", false, &shape());
    let all = vec![other, shared];
    assert_eq!(find_link(&all, &"serde".to_string()), Some(1));
    assert_eq!(find_link(&all, &"serde_renamed".to_string()), Some(1));
    assert_eq!(find_link(&all, &"other".to_string()), Some(0));
    assert_eq!(find_link(&all, &"none".to_string()), None);
}

#[test]
fn a_feature_that_the_member_lacks_is_reported() {
    let mut shared = dependency("serde", false, &[("a", &[], false), ("z", &[], false)]);
    shared.enable_feature("z").unwrap();
    let member = package("member", vec![dependency("serde", true, &shape())]);
    let result = Document::new(vec![member], Some(package("workspace", vec![shared])), ".".to_string());
    assert!(matches!(result, Err(Error::FeatureNotFound(name)) if name == "z"));
}

#[test]
fn a_single_package_without_dependencies_is_refused() {
    let result = Document::new(vec![package("lonely", vec![])], None, ".".to_string());
    assert!(matches!(result, Err(Error::NoDependencies)));
    let result = Document::new(
        vec![package("lonely", vec![])],
        Some(package("workspace", vec![])),
        ".".to_string(),
    );
    assert!(matches!(result, Err(Error::NoDependencies)));
    assert!(Document::new(vec![], None, ".".to_string()).is_ok());
}

#[test]
fn packages_are_found_by_name_and_place() {
    let mut own = dependency("serde", false, &shape());
    own.kind = DependencyType::Normal;
    let mut document =
        Document::new(vec![package("one", vec![own]), package("two", vec![])], None, "root".to_string())
            .unwrap();
    assert_eq!(document.root_path(), "root");
    assert_eq!(document.workspace_index(), None);
    assert!(document.get_workspace_package().is_none());
    assert_eq!(document.get_package("two").unwrap().name, "two");
    assert_eq!(document.get_package_by_index(0).unwrap().name, "one");
    assert!(matches!(document.get_package("three"), Err(Error::PackageNotFound(name)) if name == "three"));
    assert!(matches!(document.get_package_by_index(2), Err(Error::PackageIndexNotFound(2))));
    assert!(matches!(document.get_package_mut("three"), Err(Error::PackageNotFound(_))));
    assert_eq!(document.package_index(&"two".to_string()), Some(1));
    assert!(document.dependency_at(0, 0).is_some());
    assert!(document.dependency_at(0, 1).is_none());
    assert!(document.dependency_at(2, 0).is_none());
    assert!(document.dependency_at_mut(1, 0).is_none());
}

#[test]
fn features_are_switched_off_at_a_place() {
    let mut own = dependency("serde", false, &shape());
    own.kind = DependencyType::Normal;
    own.enable_feature("b").unwrap();
    own.enable_feature("c").unwrap();
    let mut document = Document::new(vec![package("one", vec![own])], None, ".".to_string()).unwrap();
    document.disable_features_at(0, 0, &vec!["a".to_string(), "c".to_string()]).unwrap();
    assert_eq!(state(&document, 0, 0, "a"), EnabledState::Normal(false));
    assert_eq!(state(&document, 0, 0, "b"), EnabledState::Normal(false));
    assert_eq!(state(&document, 0, 0, "c"), EnabledState::Normal(false));
    assert!(matches!(
        document.disable_features_at(0, 0, &vec!["gone".to_string()]),
        Err(Error::FeatureNotFound(name)) if name == "gone"
    ));
    assert!(matches!(
        document.disable_features_at(0, 3, &vec![]),
        Err(Error::DependencyIndexNotFound(3))
    ));
}

#[test]
fn dependencies_are_found_by_the_name_they_are_shown_as() {
    let mut normal = dependency("serde", false, &shape());
    normal.kind = DependencyType::Normal;
    let mut dev = dependency("serde", false, &shape());
    dev.kind = DependencyType::Development;
    let mut inherited = dependency("tokio", true, &shape());
    inherited.kind = DependencyType::Build;
    let found = package("one", vec![normal, dev, inherited]);
    let markers = NameMarkers::plain();
    assert_eq!(found.dep_index_with(&"serde".to_string(), &markers), Some(0));
    assert_eq!(found.dep_index_with(&"dev serde".to_string(), &markers), Some(1));
    assert_eq!(found.dep_index_with(&"W build tokio".to_string(), &markers), Some(2));
    assert_eq!(found.dep_index_with(&"tokio".to_string(), &markers), None);
    assert_eq!(found.get_dep_index(&"serde".to_string()).unwrap(), 0);
    assert_eq!(found.get_dep("serde").unwrap().name, "serde");
    assert!(matches!(found.get_dep("none"), Err(Error::DependencyNotFound(name)) if name == "none"));
    assert!(matches!(found.get_dep_index(&"none".to_string()), Err(Error::DependencyNotFound(_))));
    assert_eq!(found.get_deps().len(), 3);
    let shown = found.dependencies[2].get_name();
    assert_eq!(found.get_dep_index(&shown).unwrap(), 2);
}
