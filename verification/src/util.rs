//! Where the manifest declares a dependency.

use vstd::prelude::*;
use vstd::string::StringExecFns;
use crate::dependency::{DependencyType, Target};

verus! {

/// The table of the manifest that holds the dependencies of `kind`.
pub open spec fn table_of(kind: DependencyType) -> Seq<char> {
    match kind {
        DependencyType::Normal => "dependencies"@,
        DependencyType::Development => "dev-dependencies"@,
        DependencyType::Build => "build-dependencies"@,
        DependencyType::Workspace => "workspace.dependencies"@,
        DependencyType::Unknown => "dependencies"@,
    }
}

/// The dotted path of the table that declares the dependencies of `kind`
/// for `target`: under `target.`, then the platform (a `cfg` expression in
/// single quotes), for a dependency restricted to a platform.
pub open spec fn path_of(kind: DependencyType, target: Option<Target>) -> Seq<char> {
    match target {
        Some(Target::Name(name)) => "target."@ + name@ + "."@ + table_of(kind),
        Some(Target::Cfg(expression)) => "target.'cfg("@ + expression@ + ")'."@ + table_of(kind),
        None => table_of(kind),
    }
}

/// The dotted path of the table of the manifest that declares the
/// dependencies of `kind` for `target`.
pub fn get_path(kind: &DependencyType, target: &Option<Target>) -> (path: String)
    ensures
        path@ == path_of(*kind, *target),
{
    let table = match kind {
        DependencyType::Normal => "dependencies",
        DependencyType::Development => "dev-dependencies",
        DependencyType::Build => "build-dependencies",
        DependencyType::Workspace => "workspace.dependencies",
        DependencyType::Unknown => "dependencies",
    };
    let mut path = String::new();
    match target {
        Some(Target::Name(name)) => {
            path.append("target.");
            path.append(name.as_str());
            path.append(".");
        },
        Some(Target::Cfg(expression)) => {
            path.append("target.'cfg(");
            path.append(expression.as_str());
            path.append(")'.");
        },
        None => {},
    }
    path.append(table);
    assert(path@ =~= path_of(*kind, *target));
    path
}

} // verus!
