use cargo_features_manager::dependency::{Dependency, DependencyType, Target};
use cargo_features_manager::error::Error;
use cargo_features_manager::feature::{EnabledState, FeatureData};
use cargo_features_manager::feature_map::FeatureMap;
use cargo_features_manager::filter_view::{highlight_search, holds_place, FilterView, FilterViewItem};
use cargo_features_manager::markers::NameMarkers;
use cargo_features_manager::name_map::NameMap;
use cargo_features_manager::names::{contains_name, sort_names};
use cargo_features_manager::package::Package;
use cargo_features_manager::selector::{shifted_index, ScrollSelector};

fn dependency(name: &str) -> Dependency {
    Dependency {
        name: name.to_string(),
        rename: None,
        comment: None,
        version: "1.2.3".to_string(),
        workspace: false,
        kind: DependencyType::Normal,
        target: None,
        features: FeatureMap::new(),
    }
}

#[test]
fn the_selection_goes_round_at_both_ends() {
    let mut selector = ScrollSelector { selected_index: 0, data: vec!['a', 'b', 'c'] };
    selector.shift(1);
    assert_eq!(selector.selected_index, 1);
    assert_eq!(selector.get_selected(), Some(&'b'));
    selector.shift(2);
    assert_eq!(selector.selected_index, 0);
    selector.shift(-1);
    assert_eq!(selector.selected_index, 2);
    selector.shift(0);
    assert_eq!(selector.selected_index, 2);
    selector.shift(-7);
    assert_eq!(selector.selected_index, 1);
    assert!(selector.has_data());
}

#[test]
fn a_selection_beyond_the_end_comes_back_into_the_list() {
    let mut selector = ScrollSelector { selected_index: 7, data: vec![1, 2, 3] };
    assert_eq!(selector.get_selected(), None);
    selector.shift(0);
    assert_eq!(selector.selected_index, 1);
}

#[test]
fn nothing_is_selected_in_an_empty_list() {
    let mut selector: ScrollSelector<u8> = ScrollSelector { selected_index: 4, data: vec![] };
    assert!(!selector.has_data());
    selector.shift(1);
    assert_eq!(selector.selected_index, 0);
    assert_eq!(selector.get_selected(), None);
    let view = FilterView { selected_index: 0, data: vec![] };
    assert!(matches!(view.get_selected(), Err(Error::NothingSelected)));
    assert!(!view.has_data());
}

#[test]
fn the_largest_steps_stay_within_the_list() {
    assert_eq!(shifted_index(0, isize::MAX, 10), (isize::MAX as usize) % 10);
    assert_eq!(shifted_index(0, isize::MIN, 7), (7 - (1usize << (usize::BITS - 1)) % 7) % 7);
    assert_eq!(shifted_index(usize::MAX, 1, usize::MAX), 1);
    assert_eq!(shifted_index(usize::MAX - 1, 1, usize::MAX), 0);
    assert_eq!(shifted_index(5, -1, 1), 0);
    assert_eq!(shifted_index(5, -6, 4), 3);
    assert_eq!(shifted_index(3, 9, 0), 0);
}

#[test]
fn a_view_of_items_selects_one_of_them() {
    let mut view = FilterView {
        selected_index: 0,
        data: vec![
            FilterViewItem::from_feature("std", vec![]),
            FilterViewItem::from_feature("derive", vec![]),
        ],
    };
    assert!(view.has_data());
    view.shift(-1);
    assert_eq!(view.selected_index, 1);
    assert_eq!(view.get_selected().unwrap().name(), "derive");
    assert_eq!(view.get_selected().unwrap().display_name(), "derive");
}

#[test]
fn items_stand_for_packages_and_dependencies() {
    let package = Package {
        dependencies: vec![dependency("serde")],
        name: "member".to_string(),
        manifest_path: "member/Cargo.toml".to_string(),
    };
    let item = FilterViewItem::from_package(&package, vec![]);
    assert_eq!(item.name(), "member");
    assert_eq!(item.display_name(), "member");
    let mut renamed = dependency("serde");
    renamed.rename = Some("serde1".to_string());
    renamed.comment = Some("unused".to_string());
    let item = FilterViewItem::from_dependency(&renamed, vec![0]);
    assert_eq!(item.name(), "serde");
    assert!(item.display_name().contains("serde1"));
    assert!(item.display_name().contains("unused"));
}

#[test]
fn letters_that_are_not_set_off_stand_for_themselves() {
    assert_eq!(highlight_search("süß", &vec![], false), "süß");
    assert_eq!(highlight_search("", &vec![0], true), "");
    let shown = highlight_search("abc", &vec![1], false);
    assert!(shown.starts_with('a'));
    assert!(shown.ends_with('c'));
    assert!(shown.contains('b'));
    assert!(holds_place(&vec![3, 1], 1));
    assert!(!holds_place(&vec![3, 1], 2));
}

#[test]
fn the_shown_name_carries_platform_and_marks() {
    let markers = NameMarkers::plain();
    let mut dep = dependency("serde");
    assert_eq!(dep.name_with(&markers), "serde");
    assert_eq!(dep.get_name(), "serde");
    dep.kind = DependencyType::Workspace;
    assert_eq!(dep.name_with(&markers), "serde");
    dep.kind = DependencyType::Development;
    assert_eq!(dep.name_with(&markers), "dev serde");
    dep.kind = DependencyType::Build;
    dep.target = Some(Target::Name("x86_64".to_string()));
    assert_eq!(dep.name_with(&markers), "build x86_64.serde");
    dep.kind = DependencyType::Unknown;
    dep.target = Some(Target::Cfg("unix".to_string()));
    dep.workspace = true;
    assert_eq!(dep.name_with(&markers), "W unknown cfg(unix).serde");
    assert_eq!(dep.get_version(), "1.2.3");
    assert!(!dep.has_features());
    dep.features.insert(
        "f".to_string(),
        FeatureData { sub_features: vec![], is_default: false, enabled_state: EnabledState::Workspace },
    );
    assert!(dep.has_features());
    assert_eq!(dep.inherited_features(), vec!["f".to_string()]);
    assert_eq!(dep.enabled_features(), vec!["f".to_string()]);
    assert!(dep.switchable_features().is_empty());
}

#[test]
fn the_marks_for_the_terminal_are_an_emoji_or_a_word() {
    let markers = NameMarkers::for_terminal();
    assert!(markers.workspace == "🗃️" || markers.workspace == "W");
    assert!(markers.development == "🧪" || markers.development.contains("dev"));
    assert!(markers.build == "🛠️" || markers.build.contains("build"));
    assert!(markers.unknown == "❔" || markers.unknown.contains("unknown"));
    let mut dep = dependency("serde");
    dep.workspace = true;
    let shown = dep.get_name();
    assert!(shown == "🗃️ serde" || shown == "W serde");
}

#[test]
fn names_are_sorted_and_looked_up() {
    let names: Vec<String> = ["pear", "apple", "fig", "apple pie", "Zed", "é"].iter().map(|n| n.to_string()).collect();
    let sorted = sort_names(names.clone());
    let expected: Vec<String> = ["Zed", "apple", "apple pie", "fig", "pear", "é"].iter().map(|n| n.to_string()).collect();
    assert_eq!(sorted, expected);
    assert!(contains_name(&names, &"fig".to_string()));
    assert!(!contains_name(&names, &"figs".to_string()));
}

#[test]
fn a_table_keeps_one_value_for_each_name() {
    let mut table: NameMap<u32> = NameMap::new();
    assert!(table.is_empty());
    assert_eq!(table.insert("a".to_string(), 1), None);
    assert_eq!(table.insert("b".to_string(), 2), None);
    assert_eq!(table.insert("a".to_string(), 3), Some(1));
    assert_eq!(table.len(), 2);
    assert_eq!(table.keys(), vec!["a".to_string(), "b".to_string()]);
    assert_eq!(table.get(&"a".to_string()), Some(&3));
    assert_eq!(table.get(&"c".to_string()), None);
    assert_eq!(table.position(&"b".to_string()), Some(1));
    assert_eq!(table.key_at(1), "b");
    assert_eq!(*table.value_at(1), 2);
    assert_eq!(table.replace_value(1, 5), 2);
    table.set_value(0, 7);
    assert_eq!(table.get(&"a".to_string()), Some(&7));
    assert_eq!(table.get(&"b".to_string()), Some(&5));
}
