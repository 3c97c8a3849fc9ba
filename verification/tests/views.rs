use cargo_features_manager::dependency::{Dependency, DependencyType};
use cargo_features_manager::document::Document;
use cargo_features_manager::feature::{EnabledState, FeatureData};
use cargo_features_manager::feature_map::FeatureMap;
use cargo_features_manager::filter_view::{matching_places, FilterView, FilterViewItem};
use cargo_features_manager::markers::NameMarkers;
use cargo_features_manager::names::{order_by_name, rank, sort_keys};
use cargo_features_manager::package::Package;
use cargo_features_manager::selector::visible_range;

fn strings(names: &[&str]) -> Vec<String> {
    names.iter().map(|name| name.to_string()).collect()
}

fn dependency(name: &str, kind: DependencyType, features: &[(&str, bool)]) -> Dependency {
    let mut map = FeatureMap::new();
    for (feature, is_default) in features {
        map.insert(
            feature.to_string(),
            FeatureData {
                sub_features: vec![],
                is_default: *is_default,
                enabled_state: EnabledState::Normal(false),
            },
        );
    }
    Dependency {
        name: name.to_string(),
        rename: None,
        comment: None,
        version: "1".to_string(),
        workspace: false,
        kind,
        target: None,
        features: map,
    }
}

fn names(items: &[FilterViewItem]) -> Vec<String> {
    items.iter().map(|item| item.name().to_string()).collect()
}

#[test]
fn features_are_shown_with_the_default_set_first() {
    let dep = dependency(
        "d",
        DependencyType::Normal,
        &[("zeta", true), ("beta", false), ("default", false), ("alpha", true), ("gamma", false)],
    );
    let items = FilterView::data_from_dependency(&dep, "");
    assert_eq!(names(&items), strings(&["alpha", "zeta", "beta", "gamma"]));
    assert_eq!(items[0].display_name(), "alpha");
}

#[test]
fn features_that_match_are_shown_by_their_score() {
    let dep = dependency(
        "d",
        DependencyType::Normal,
        &[("serde_json", false), ("json", false), ("default", false), ("yaml", false), ("j", false)],
    );
    let items = FilterView::data_from_dependency(&dep, "json");
    assert_eq!(names(&items), strings(&["json", "serde_json"]));
    let items = FilterView::data_from_dependency(&dep, "zzz");
    assert!(items.is_empty());
}

#[test]
fn dependencies_are_shown_in_the_order_of_their_names() {
    let package = Package {
        dependencies: vec![
            dependency("tokio", DependencyType::Normal, &[]),
            dependency("serde", DependencyType::Development, &[]),
            dependency("anyhow", DependencyType::Normal, &[]),
            dependency("serde", DependencyType::Normal, &[]),
        ],
        name: "p".to_string(),
        manifest_path: "p/Cargo.toml".to_string(),
    };
    let markers = NameMarkers::plain();
    let items = FilterView::data_from_package_with(&package, "", &markers);
    assert_eq!(names(&items), strings(&["anyhow", "dev serde", "serde", "tokio"]));
    let items = FilterView::data_from_package_with(&package, "serde", &markers);
    assert_eq!(items.len(), 2);
    assert!(names(&items).contains(&"serde".to_string()));
    assert!(names(&items).contains(&"dev serde".to_string()));
    assert_eq!(FilterView::data_from_package(&package, "").len(), 4);
}

#[test]
fn packages_are_shown_in_the_order_of_their_names() {
    let package = |name: &str| Package {
        dependencies: vec![dependency("d", DependencyType::Normal, &[])],
        name: name.to_string(),
        manifest_path: format!("{}/Cargo.toml", name),
    };
    let document =
        Document::new(vec![package("web"), package("core"), package("cli")], None, ".".to_string()).unwrap();
    assert_eq!(names(&FilterView::data_from_document(&document, "")), strings(&["cli", "core", "web"]));
    assert_eq!(names(&FilterView::data_from_document(&document, "we")), strings(&["web"]));
}

#[test]
fn places_are_ranked_by_score_and_then_by_place() {
    assert_eq!(rank(&vec![Some(3), None, Some(7), Some(3), Some(-1), None]), vec![2, 0, 3, 4]);
    assert_eq!(rank(&vec![Some(i64::MIN), Some(i64::MAX), Some(0)]), vec![1, 2, 0]);
    assert!(rank(&vec![None, None]).is_empty());
    assert_eq!(order_by_name(&strings(&["b", "a", "b", "A"])), vec![3, 1, 0, 2]);
    let keys = vec![(1, "a".to_string(), 1), (0, "b".to_string(), 5), (0, "a".to_string(), 9), (0, "a".to_string(), 2)];
    assert_eq!(
        sort_keys(keys),
        vec![(0, "a".to_string(), 2), (0, "a".to_string(), 9), (0, "b".to_string(), 5), (1, "a".to_string(), 1)]
    );
}

#[test]
fn matches_come_with_the_places_of_their_letters() {
    let (order, letters) = matching_places(&strings(&["alpha", "beta", "alb"]), "ab");
    assert_eq!(order.len(), letters.len());
    assert!(order.contains(&2));
    assert!(!order.contains(&1));
    let at = order.iter().position(|place| *place == 2).unwrap();
    assert_eq!(letters[at], vec![0, 2]);
    let (order, letters) = matching_places(&strings(&["x", "y"]), "");
    assert_eq!(order, vec![0, 1]);
    assert!(letters.iter().all(|places| places.is_empty()));
}

#[test]
fn the_screen_shows_the_items_around_the_selected_one() {
    assert_eq!(visible_range(0, 100, 10, 0), (0, 9));
    assert_eq!(visible_range(50, 100, 10, 0), (46, 55));
    assert_eq!(visible_range(99, 100, 10, 0), (91, 100));
    assert_eq!(visible_range(99, 100, 10, 1), (92, 100));
    assert_eq!(visible_range(50, 100, 10, 1), (46, 54));
    assert_eq!(visible_range(2, 5, 24, 0), (0, 5));
    assert_eq!(visible_range(0, 0, 24, 0), (0, 0));
    assert_eq!(visible_range(3, 5, 0, 0), (4, 4));
    assert_eq!(visible_range(3, 5, 1, 1), (4, 4));
    assert_eq!(visible_range(usize::MAX, 5, 10, 0), (0, 5));
}
