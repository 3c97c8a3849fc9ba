//! What the manifest is to hold for a dependency.

use vstd::prelude::*;
use crate::dependency::Dependency;
use crate::names::{ordered, views};

verus! {

/// The entry of a dependency in the manifest.
#[derive(Debug)]
pub enum ManifestEntry {
    /// Nothing but the version, as a string.
    Version(String),
    /// A table. Each part says what is to stand under its key; where it
    /// holds nothing, the key is to be taken out, but for the version,
    /// which is then left as it is.
    Table { version: Option<String>, features: Option<Vec<String>>, default_features: Option<bool> },
}

/// The entry to write for `dependency`. `has_other_keys` tells whether the
/// entry at hand holds a key other than the version, the features and the
/// use of the default set; `has_git_source` whether it names a repository
/// as its source.
///
/// The version is written unless there is none, the source is a
/// repository, or the dependency inherits from the workspace. The features
/// are those that have to be named, in order. The default set is switched
/// off in so many words where it cannot be used, and not mentioned where it
/// can or where the dependency inherits from the workspace.
pub fn manifest_entry(dependency: &Dependency, has_other_keys: bool, has_git_source: bool) -> (entry:
    ManifestEntry)
    ensures
        match entry {
            ManifestEntry::Version(version) => {
                &&& dependency.spec_can_use_default()
                &&& !has_other_keys
                &&& version@ == dependency.version@
                &&& forall|i: int|
                    dependency.features@.has_index(i) ==> !#[trigger] dependency.features@.named_in_manifest(
                        true,
                        i,
                    )
            },
            ManifestEntry::Table { version, features, default_features } => {
                &&& !(dependency.spec_can_use_default() && features is None && !has_other_keys)
                &&& match version {
                    Some(version) => version@ == dependency.version@ && dependency.version@.len() > 0
                        && !has_git_source && !dependency.workspace,
                    None => dependency.version@.len() == 0 || has_git_source || dependency.workspace,
                }
                &&& match features {
                    Some(names) => {
                        &&& names@.len() > 0
                        &&& ordered(views(names@))
                        &&& views(names@).no_duplicates()
                        &&& forall|name: Seq<char>|
                            views(names@).contains(name) <==> exists|i: int|
                                dependency.features@.has_index(i) && #[trigger] dependency.features@.name(
                                    i,
                                ) == name && dependency.features@.named_in_manifest(
                                    dependency.spec_can_use_default(),
                                    i,
                                )
                    },
                    None => forall|i: int|
                        dependency.features@.has_index(i) ==> !#[trigger] dependency.features@.named_in_manifest(
                            dependency.spec_can_use_default(),
                            i,
                        ),
                }
                &&& default_features == if dependency.spec_can_use_default() || dependency.workspace {
                    None::<bool>
                } else {
                    Some(false)
                }
            },
        },
{
    let names = dependency.get_features_to_enable();
    let can_use_default = dependency.can_use_default();
    proof {
        if names@.len() == 0 {
            assert forall|i: int| dependency.features@.has_index(i) implies !#[trigger] dependency.features@.named_in_manifest(
                dependency.spec_can_use_default(),
                i,
            ) by {
                if dependency.features@.named_in_manifest(dependency.spec_can_use_default(), i) {
                    let name = dependency.features@.name(i);
                    assert(views(names@).contains(name));
                }
            }
        }
    }
    if can_use_default && names.len() == 0 && !has_other_keys {
        return ManifestEntry::Version(dependency.get_version());
    }
    let version = if !dependency.version.as_str().is_empty() && !has_git_source
        && !dependency.workspace {
        Some(dependency.get_version())
    } else {
        None
    };
    let features = if names.len() == 0 {
        None
    } else {
        Some(names)
    };
    let default_features = if can_use_default || dependency.workspace {
        None
    } else {
        Some(false)
    };
    ManifestEntry::Table { version, features, default_features }
}

} // verus!
