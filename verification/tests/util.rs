use cargo_features_manager::dependency::{DependencyType, Target};
use cargo_features_manager::util::get_path;

#[test]
fn get_dependency_path_works() {
    assert_eq!(
        get_path(
            &DependencyType::Normal,
            &Some(Target::Name("x86_64".to_string())),
        ),
        "target.x86_64.dependencies"
    );

    assert_eq!(
        get_path(&DependencyType::Development, &None),
        "dev-dependencies"
    );

    assert_eq!(
        get_path(
            &DependencyType::Build,
            &Some(Target::Cfg("x86_64".to_string())),
        ),
        "target.'cfg(x86_64)'.build-dependencies"
    );

    assert_eq!(
        get_path(
            &DependencyType::Workspace,
            &Some(Target::Name("x86_64".to_string())),
        ),
        "target.x86_64.workspace.dependencies"
    );
}

#[test]
fn unknown_kind_is_declared_like_a_normal_one() {
    assert_eq!(get_path(&DependencyType::Unknown, &None), "dependencies");
    assert_eq!(get_path(&DependencyType::Normal, &None), "dependencies");
    assert_eq!(get_path(&DependencyType::Workspace, &None), "workspace.dependencies");
}
