use cargo_features_manager::candidates::{
    get_enabled_features, get_features_to_test, get_ignored_features, keep_dependency_features,
    known_features, remove_ignored_features, remove_kept_features, remove_non_dependency_features,
    FeatureTableEntry, FeaturesMap,
};
use cargo_features_manager::closure::{
    collect_implied, keep_outside, remove_feature, remove_name, set_features_to_be_disabled,
    set_features_to_be_kept,
};
use cargo_features_manager::dependency::{Dependency, DependencyType};
use cargo_features_manager::document::Document;
use cargo_features_manager::error::Error;
use cargo_features_manager::feature::{EnabledState, FeatureData, SubFeature};
use cargo_features_manager::feature_map::FeatureMap;
use cargo_features_manager::markers::NameMarkers;
use cargo_features_manager::name_map::NameMap;
use cargo_features_manager::package::Package;
use cargo_features_manager::plan::{make_task, plan, Step, Task};
use cargo_features_manager::pruner::{
    findings, has_known, put_back, record, switch_off, Action, CleanLevel, Pruner,
};

fn strings(names: &[&str]) -> Vec<String> {
    names.iter().map(|name| name.to_string()).collect()
}

fn dependency(name: &str, kind: DependencyType, features: &[(&str, &[&str])], enabled: &[&str]) -> Dependency {
    let mut map = FeatureMap::new();
    for (feature_name, subs) in features {
        map.insert(
            feature_name.to_string(),
            FeatureData {
                sub_features: subs.iter().map(|sub| SubFeature::new(sub)).collect(),
                is_default: false,
                enabled_state: EnabledState::Normal(false),
            },
        );
    }
    let mut dep = Dependency {
        name: name.to_string(),
        rename: None,
        comment: None,
        version: "1.0".to_string(),
        workspace: false,
        kind,
        target: None,
        features: map,
    };
    for feature in enabled {
        dep.enable_feature(feature).unwrap();
    }
    dep
}

fn project(packages: Vec<(&str, Vec<Dependency>)>) -> Document {
    let packages = packages
        .into_iter()
        .map(|(name, dependencies)| Package {
            dependencies,
            name: name.to_string(),
            manifest_path: format!("{}/Cargo.toml", name),
        })
        .collect();
    Document::new(packages, None, ".".to_string()).unwrap()
}

fn table(entries: &[(&str, &[&str])]) -> NameMap<Vec<String>> {
    let mut map = NameMap::new();
    for (name, features) in entries {
        map.insert(name.to_string(), strings(features));
    }
    map
}

fn listed(map: &FeaturesMap, package: &str, dependency: &str) -> Option<Vec<String>> {
    map.get(&package.to_string())
        .and_then(|inner| inner.get(&dependency.to_string()))
        .cloned()
}

fn enabled(document: &Document, package: usize, dependency: usize, feature: &str) -> bool {
    document.get_packages()[package].dependencies[dependency]
        .get_feature(feature)
        .unwrap()
        .is_enabled()
}

struct Run {
    checked: Vec<Vec<String>>,
    saves: usize,
    cleans: usize,
    reports: Vec<(String, Vec<(String, bool)>)>,
    packages: Vec<String>,
    notices: usize,
    notice: bool,
}

/// Runs the search to its end. The build and the tests pass when none of
/// `needed` is switched off in the first dependency of the first package.
fn run(pruner: &mut Pruner, document: &mut Document, needed: &[&str]) -> Run {
    let mut run = Run {
        checked: vec![],
        saves: 0,
        cleans: 0,
        reports: vec![],
        packages: vec![],
        notices: 0,
        notice: false,
    };
    let mut passed = false;
    for _ in 0..1000 {
        match pruner.next(document, passed).unwrap() {
            Action::Package { name } => run.packages.push(name),
            Action::Save { .. } => run.saves += 1,
            Action::Check { .. } => {
                let dep = &document.get_packages()[0].dependencies[0];
                run.checked.push(
                    dep.features
                        .names()
                        .into_iter()
                        .filter(|name| !dep.get_feature(name).unwrap().is_enabled())
                        .collect(),
                );
                passed = needed.iter().all(|name| dep.get_feature(name).unwrap().is_enabled());
            }
            Action::Report { dependency, findings, clean, .. } => {
                run.reports.push((
                    dependency,
                    findings.into_iter().map(|finding| (finding.feature, finding.known)).collect(),
                ));
                if clean {
                    run.cleans += 1;
                }
            }
            Action::PackageEnd { clean } => {
                if clean {
                    run.cleans += 1;
                }
            }
            Action::Finish { notice } => {
                run.notice = notice;
                if notice {
                    run.notices += 1;
                }
                assert!(pruner.is_done());
                return run;
            }
        }
    }
    panic!("the search did not end");
}

fn search(document: &mut Document, known: NameMap<Vec<String>>, level: CleanLevel, needed: &[&str]) -> (Run, Pruner) {
    let markers = NameMarkers::plain();
    let candidates =
        get_features_to_test(document, false, &NameMap::new(), &NameMap::new(), &markers).unwrap();
    let steps = plan(document, &candidates, &markers).unwrap();
    let mut pruner = Pruner::new(steps, known, false, level);
    let run = run(&mut pruner, document, needed);
    (run, pruner)
}

#[test]
fn a_needless_feature_takes_with_it_what_requires_it() {
    let mut document = project(vec![(
        "p",
        vec![dependency("d", DependencyType::Normal, &[("x", &[]), ("y", &["x"])], &["y"])],
    )]);
    let (run, pruner) = search(&mut document, NameMap::new(), CleanLevel::Never, &[]);
    assert_eq!(run.checked, vec![strings(&["x", "y"])]);
    assert_eq!(listed(pruner.found(), "p", "d"), Some(strings(&["x", "y"])));
    assert_eq!(run.reports, vec![("d".to_string(), vec![("x".to_string(), false), ("y".to_string(), false)])]);
    assert_eq!(run.saves, 4);
    assert!(!run.notice);
    assert!(enabled(&document, 0, 0, "x"));
    assert!(enabled(&document, 0, 0, "y"));
}

#[test]
fn a_feature_tested_before_what_it_requires_is_tested_too() {
    let mut document = project(vec![(
        "p",
        vec![dependency("d", DependencyType::Normal, &[("y", &["x"]), ("x", &[])], &["y"])],
    )]);
    let (run, pruner) = search(&mut document, NameMap::new(), CleanLevel::Never, &[]);
    assert_eq!(run.checked, vec![strings(&["y"]), strings(&["y", "x"])]);
    assert_eq!(listed(pruner.found(), "p", "d"), Some(strings(&["y", "x"])));
}

#[test]
fn a_needed_feature_stays() {
    let mut document = project(vec![(
        "p",
        vec![dependency("d", DependencyType::Normal, &[("x", &[]), ("y", &["x"]), ("z", &[])], &["y", "z"])],
    )]);
    let (run, pruner) = search(&mut document, NameMap::new(), CleanLevel::Never, &["x"]);
    assert_eq!(run.checked, vec![strings(&["x", "y"]), strings(&["y"]), strings(&["z"])]);
    assert_eq!(listed(pruner.found(), "p", "d"), Some(strings(&["y", "z"])));
    assert_eq!(run.saves, 6);
    for feature in ["x", "y", "z"] {
        assert!(enabled(&document, 0, 0, feature));
    }
}

#[test]
fn a_known_feature_is_not_tested_and_stays_enabled() {
    let mut document = project(vec![(
        "p",
        vec![dependency(
            "d",
            DependencyType::Normal,
            &[("k", &["sub"]), ("sub", &[]), ("other", &[]), ("k2", &[])],
            &["k", "other", "k2"],
        )],
    )]);
    let known = table(&[("d", &["k", "k2"])]);
    let (run, pruner) = search(&mut document, known, CleanLevel::Never, &[]);
    assert_eq!(run.checked, vec![strings(&["other"])]);
    assert_eq!(listed(pruner.found(), "p", "d"), Some(strings(&["other"])));
    assert_eq!(
        run.reports,
        vec![(
            "d".to_string(),
            vec![
                ("k".to_string(), true),
                ("sub".to_string(), true),
                ("other".to_string(), false),
                ("k2".to_string(), true),
            ]
        )]
    );
    assert!(run.notice);
    assert_eq!(run.notices, 1);
    assert_eq!(run.saves, 8);
    for feature in ["k", "sub", "other", "k2"] {
        assert!(enabled(&document, 0, 0, feature));
    }
}

#[test]
fn packages_and_dependencies_are_searched_in_the_order_of_their_names() {
    let mut document = project(vec![
        (
            "zeta",
            vec![
                dependency("b", DependencyType::Normal, &[("f", &[])], &["f"]),
                dependency("a", DependencyType::Normal, &[("f", &[])], &["f"]),
                dependency("idle", DependencyType::Normal, &[("f", &[])], &[]),
            ],
        ),
        ("alpha", vec![dependency("c", DependencyType::Development, &[("f", &[])], &["f"])]),
    ]);
    let (run, pruner) = search(&mut document, NameMap::new(), CleanLevel::Package, &[]);
    assert_eq!(run.packages, strings(&["alpha", "zeta"]));
    let reported: Vec<String> = run.reports.iter().map(|(name, _)| name.clone()).collect();
    assert_eq!(reported, strings(&["dev c", "a", "b"]));
    assert_eq!(run.cleans, 2);
    assert_eq!(pruner.found().keys(), strings(&["alpha", "zeta"]));
    assert_eq!(listed(pruner.found(), "zeta", "b"), Some(strings(&["f"])));
    assert_eq!(listed(pruner.found(), "zeta", "idle"), None);
}

#[test]
fn leftovers_are_cleared_after_each_dependency_if_asked() {
    let mut document = project(vec![(
        "p",
        vec![
            dependency("a", DependencyType::Normal, &[("f", &[])], &["f"]),
            dependency("b", DependencyType::Normal, &[("f", &[])], &["f"]),
        ],
    )]);
    let (run, _) = search(&mut document, NameMap::new(), CleanLevel::Dependency, &[]);
    assert_eq!(run.cleans, 2);
    let mut document = project(vec![(
        "p",
        vec![dependency("a", DependencyType::Normal, &[("f", &[])], &["f"])],
    )]);
    let (run, _) = search(&mut document, NameMap::new(), CleanLevel::Never, &[]);
    assert_eq!(run.cleans, 0);
}

#[test]
fn the_tests_are_left_out_if_asked() {
    let mut document = project(vec![(
        "p",
        vec![dependency("d", DependencyType::Normal, &[("x", &[])], &["x"])],
    )]);
    let markers = NameMarkers::plain();
    let candidates = get_enabled_features(&document, &markers);
    let steps = plan(&document, &candidates, &markers).unwrap();
    let mut pruner = Pruner::new(steps, NameMap::new(), true, CleanLevel::Never);
    assert!(matches!(pruner.next(&mut document, false), Ok(Action::Package { .. })));
    assert!(matches!(
        pruner.next(&mut document, false),
        Ok(Action::Save { feature: 0, restored: false, .. })
    ));
    assert!(!enabled(&document, 0, 0, "x"));
    assert!(matches!(pruner.next(&mut document, false), Ok(Action::Check { tests: false })));
    assert!(matches!(
        pruner.next(&mut document, false),
        Ok(Action::Save { feature: 0, restored: true, .. })
    ));
    assert!(enabled(&document, 0, 0, "x"));
    assert!(matches!(pruner.next(&mut document, false), Ok(Action::Report { .. })));
    assert!(matches!(pruner.next(&mut document, false), Ok(Action::PackageEnd { clean: false })));
    assert!(!pruner.is_done());
    assert!(matches!(pruner.next(&mut document, false), Ok(Action::Finish { notice: false })));
    assert!(matches!(pruner.next(&mut document, false), Ok(Action::Finish { notice: false })));
    assert_eq!(listed(pruner.found(), "p", "d"), Some(vec![]));
}

#[test]
fn a_step_about_what_the_project_lacks_fails_and_changes_nothing() {
    let mut document = project(vec![(
        "p",
        vec![dependency("d", DependencyType::Normal, &[("x", &[])], &["x"])],
    )]);
    let task = |dependency: usize, features: &[&str]| {
        Step::Dependency(Task {
            package: 0,
            dependency,
            package_name: "p".to_string(),
            dependency_name: "d".to_string(),
            features: strings(features),
        })
    };
    let mut pruner = Pruner::new(vec![task(3, &["x"])], NameMap::new(), false, CleanLevel::Never);
    assert!(matches!(pruner.next(&mut document, false), Err(Error::DependencyIndexNotFound(3))));
    let mut pruner = Pruner::new(vec![task(0, &["gone"])], NameMap::new(), false, CleanLevel::Never);
    assert!(matches!(pruner.next(&mut document, false), Err(Error::FeatureNotFound(name)) if name == "gone"));
    assert!(enabled(&document, 0, 0, "x"));
    let mut pruner = Pruner::new(vec![task(0, &[])], NameMap::new(), false, CleanLevel::Never);
    assert!(pruner.steps().is_empty());
    assert!(matches!(pruner.next(&mut document, false), Ok(Action::Finish { notice: false })));
}

#[test]
fn candidates_are_the_enabled_features_that_can_be_switched() {
    let mut inheriting = dependency("w", DependencyType::Normal, &[("a", &[]), ("b", &[])], &["a", "b"]);
    inheriting.set_feature_to_workspace("a").unwrap();
    let document = project(vec![
        (
            "p",
            vec![
                dependency("d", DependencyType::Normal, &[("x", &[]), ("y", &[]), ("z", &[])], &["z", "x"]),
                dependency("none", DependencyType::Normal, &[("x", &[])], &[]),
                inheriting,
            ],
        ),
        ("q", vec![dependency("none", DependencyType::Normal, &[("x", &[])], &[])]),
    ]);
    let candidates = get_enabled_features(&document, &NameMarkers::plain());
    assert_eq!(candidates.keys(), strings(&["p"]));
    assert_eq!(candidates.get(&"p".to_string()).unwrap().keys(), strings(&["d", "w"]));
    assert_eq!(listed(&candidates, "p", "d"), Some(strings(&["x", "z"])));
    assert_eq!(listed(&candidates, "p", "w"), Some(strings(&["b"])));
}

#[test]
fn kept_features_are_no_candidates() {
    let document = project(vec![(
        "p",
        vec![dependency(
            "d",
            DependencyType::Normal,
            &[("a", &["b"]), ("b", &["c"]), ("c", &[]), ("e", &[]), ("f", &[])],
            &["a", "e", "f"],
        )],
    )]);
    let markers = NameMarkers::plain();
    let base = table(&[("d", &["b"]), ("other", &["e"])]);
    let mut by_package: FeaturesMap = NameMap::new();
    by_package.insert("p".to_string(), table(&[("d", &["f"])]));
    by_package.insert("q".to_string(), table(&[("d", &["e"])]));
    let left = get_features_to_test(&document, false, &base, &by_package, &markers).unwrap();
    assert_eq!(listed(&left, "p", "d"), Some(strings(&["a", "e"])));
    let mut candidates = get_enabled_features(&document, &markers);
    remove_ignored_features(&document, &table(&[("d", &["a"])]), &NameMap::new(), &mut candidates, &markers)
        .unwrap();
    assert_eq!(listed(&candidates, "p", "d"), Some(strings(&["e", "f"])));
}

#[test]
fn keeping_the_default_set_keeps_its_features() {
    let mut dep = dependency("d", DependencyType::Normal, &[("a", &[]), ("b", &[]), ("default", &["a"])], &["a", "b"]);
    let mut map = FeatureMap::new();
    for name in dep.features.names() {
        let mut data = dep.get_feature(&name).unwrap().clone();
        data.is_default = name == "a";
        map.insert(name, data);
    }
    dep.features = map;
    assert!(dep.can_use_default());
    assert_eq!(
        remove_kept_features(&dep, &strings(&["a", "b"]), &strings(&["default"]), &vec![]),
        strings(&["b"])
    );
    assert_eq!(
        remove_kept_features(&dep, &strings(&["a", "b"]), &vec![], &vec![]),
        strings(&["a", "b"])
    );
    assert_eq!(
        remove_kept_features(&dep, &strings(&["a", "default", "b"]), &vec![], &vec![]),
        strings(&["a", "b"])
    );
}

#[test]
fn only_features_that_show_in_dependencies_are_kept_if_asked() {
    let document = project(vec![(
        "p",
        vec![dependency(
            "d",
            DependencyType::Normal,
            &[("plain", &["other"]), ("other", &[]), ("opt", &["dep:x"]), ("far", &["y/z"])],
            &["plain", "opt", "far"],
        )],
    )]);
    let markers = NameMarkers::plain();
    let left = get_features_to_test(&document, true, &NameMap::new(), &NameMap::new(), &markers).unwrap();
    assert_eq!(listed(&left, "p", "d"), Some(strings(&["opt", "far"])));
    let mut candidates = get_enabled_features(&document, &markers);
    remove_non_dependency_features(&document, &mut candidates, &markers).unwrap();
    assert_eq!(listed(&candidates, "p", "d"), Some(strings(&["opt", "far"])));
    let dep = &document.get_packages()[0].dependencies[0];
    assert_eq!(
        keep_dependency_features(dep, &strings(&["plain", "unknown", "opt"])),
        strings(&["unknown", "opt"])
    );
}

#[test]
fn a_name_that_stands_for_nothing_is_reported() {
    let document = project(vec![(
        "p",
        vec![dependency("d", DependencyType::Normal, &[("x", &[])], &["x"])],
    )]);
    let markers = NameMarkers::plain();
    let mut stray: FeaturesMap = NameMap::new();
    stray.insert("p".to_string(), table(&[("gone", &["x"])]));
    assert!(matches!(
        remove_non_dependency_features(&document, &mut stray, &markers),
        Err(Error::DependencyNotFound(name)) if name == "gone"
    ));
    assert_eq!(listed(&stray, "p", "gone"), Some(strings(&["x"])));
    assert!(matches!(plan(&document, &stray, &markers), Err(Error::DependencyNotFound(_))));
    let mut stray: FeaturesMap = NameMap::new();
    stray.insert("q".to_string(), table(&[("d", &["x"])]));
    assert!(matches!(
        remove_ignored_features(&document, &NameMap::new(), &NameMap::new(), &mut stray, &markers),
        Err(Error::PackageNotFound(name)) if name == "q"
    ));
    assert!(matches!(plan(&document, &stray, &markers), Err(Error::PackageNotFound(_))));
    assert!(matches!(
        make_task(&document, &"p".to_string(), &"d".to_string(), &strings(&["x"]), &markers),
        Ok(Task { package: 0, dependency: 0, .. })
    ));
}

#[test]
fn closures_follow_the_entries_of_features() {
    let dep = dependency(
        "d",
        DependencyType::Normal,
        &[("a", &["b", "dep:o"]), ("b", &["c"]), ("c", &["a"]), ("d", &["c"]), ("e", &[])],
        &[],
    );
    let mut kept = vec![];
    set_features_to_be_kept(&dep, "a".to_string(), &mut kept);
    assert_eq!(kept, strings(&["a", "b", "c", "dep:o"]));
    set_features_to_be_kept(&dep, "b".to_string(), &mut kept);
    assert_eq!(kept.len(), 4);
    let mut needless = strings(&["e"]);
    set_features_to_be_disabled(&dep, "c".to_string(), &mut needless);
    assert_eq!(needless, strings(&["e", "c", "b", "a", "d"]));
    let mut needless = strings(&["b"]);
    set_features_to_be_disabled(&dep, "c".to_string(), &mut needless);
    assert_eq!(needless, strings(&["b", "c", "d"]));
    let mut needless = vec![];
    set_features_to_be_disabled(&dep, "stranger".to_string(), &mut needless);
    assert_eq!(needless, strings(&["stranger"]));
    assert_eq!(collect_implied(&dep, &strings(&["d", "e", "d"])), strings(&["d", "c", "a", "b", "dep:o", "e"]));
    assert!(collect_implied(&dep, &vec![]).is_empty());
}

#[test]
fn removing_a_feature_removes_what_it_lists() {
    let dep = dependency(
        "d",
        DependencyType::Normal,
        &[("a", &["b"]), ("b", &["c"]), ("c", &[]), ("e", &[])],
        &[],
    );
    let mut features = strings(&["c", "e", "a", "b"]);
    remove_feature(&"a".to_string(), &mut features, &dep);
    assert_eq!(features, strings(&["e"]));
    let mut features = strings(&["c", "e", "a"]);
    remove_feature(&"a".to_string(), &mut features, &dep);
    assert_eq!(features, strings(&["c", "e"]));
    let mut features = strings(&["c", "e"]);
    remove_feature(&"a".to_string(), &mut features, &dep);
    assert_eq!(features, strings(&["c", "e"]));
    let mut names = strings(&["x", "y", "x"]);
    assert!(remove_name(&mut names, &"x".to_string()));
    assert_eq!(names, strings(&["y"]));
    assert!(!remove_name(&mut names, &"x".to_string()));
    assert_eq!(keep_outside(&strings(&["a", "b", "c"]), &strings(&["b", "z"])), strings(&["a", "c"]));
}

#[test]
fn a_table_of_features_holds_the_texts_of_its_lists() {
    let entry = |name: &str, features: Option<Vec<Option<&str>>>| FeatureTableEntry {
        dependency: name.to_string(),
        features: features.map(|items| items.into_iter().map(|item| item.map(str::to_string)).collect()),
    };
    let entries = vec![
        entry("clap", Some(vec![Some("color"), None, Some("help")])),
        entry("serde", Some(vec![])),
        entry("clap", Some(vec![Some("usage")])),
    ];
    let parsed = known_features(&entries).unwrap();
    assert_eq!(parsed.keys(), strings(&["clap", "serde"]));
    assert_eq!(parsed.get(&"clap".to_string()), Some(&strings(&["usage"])));
    assert_eq!(parsed.get(&"serde".to_string()), Some(&vec![]));
    let broken = vec![entry("clap", Some(vec![])), entry("bad", None), entry("worse", None)];
    assert!(matches!(known_features(&broken), Err(Error::InvalidFeatureTable(name)) if name == "bad"));
    assert!(get_ignored_features(None).unwrap().is_empty());
    assert_eq!(get_ignored_features(Some(&entries)).unwrap().len(), 2);
    assert!(matches!(get_ignored_features(Some(&broken)), Err(Error::InvalidFeatureTable(_))));
}

#[test]
fn findings_are_the_needless_candidates() {
    let found = findings(&strings(&["a", "b", "c"]), &strings(&["c", "a", "x"]), &strings(&["c"]));
    let pairs: Vec<(String, bool)> = found.iter().map(|f| (f.feature.clone(), f.known)).collect();
    assert_eq!(pairs, vec![("a".to_string(), false), ("c".to_string(), true)]);
    assert!(has_known(&found));
    assert!(!has_known(&findings(&strings(&["a"]), &strings(&["a"]), &vec![])));
    let mut all: FeaturesMap = NameMap::new();
    record(&mut all, &"p".to_string(), &"d".to_string(), strings(&["a"]));
    record(&mut all, &"p".to_string(), &"e".to_string(), strings(&["b"]));
    record(&mut all, &"q".to_string(), &"d".to_string(), vec![]);
    record(&mut all, &"p".to_string(), &"d".to_string(), strings(&["c"]));
    assert_eq!(all.keys(), strings(&["p", "q"]));
    assert_eq!(listed(&all, "p", "d"), Some(strings(&["c"])));
    assert_eq!(listed(&all, "p", "e"), Some(strings(&["b"])));
    assert_eq!(listed(&all, "q", "d"), Some(vec![]));
}

#[test]
fn states_are_kept_and_put_back() {
    let mut document = project(vec![(
        "p",
        vec![dependency("d", DependencyType::Normal, &[("x", &[]), ("y", &["x"])], &["y"])],
    )]);
    let before = switch_off(&mut document, 0, 0, &"x".to_string()).unwrap();
    assert_eq!(before, vec![EnabledState::Normal(true); 2]);
    assert!(!enabled(&document, 0, 0, "y"));
    assert!(matches!(
        put_back(&mut document, 0, 0, &vec![EnabledState::Normal(true)]),
        Err(Error::FeatureCountChanged)
    ));
    put_back(&mut document, 0, 0, &before).unwrap();
    assert!(enabled(&document, 0, 0, "x") && enabled(&document, 0, 0, "y"));
    assert!(matches!(switch_off(&mut document, 0, 0, &"gone".to_string()), Err(Error::FeatureNotFound(_))));
    assert!(matches!(switch_off(&mut document, 1, 0, &"x".to_string()), Err(Error::DependencyIndexNotFound(0))));
    assert!(matches!(put_back(&mut document, 0, 9, &before), Err(Error::DependencyIndexNotFound(9))));
}
