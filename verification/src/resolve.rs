//! From the features that a package declares to the features of a
//! dependency on it.

use vstd::prelude::*;
use crate::closure::keep_names;
use crate::dependency::Dependency;
use crate::error::Error;
use crate::feature::{kind_of_name, EnabledState, FeatureData, FeatureView, SubFeature, SubFeatureType, SubFeatureView};
use crate::feature_map::FeatureMap;
use crate::graph::{FeatureEntry, FeatureGraph};
use crate::name_map::{NameMap, NameTable};
use crate::names::{contains_name, views};
use crate::candidates::{list_under, listed_under};

verus! {

/// The entries of a feature for the names that it is declared with: each
/// name with the kind that its written form stands for.
pub open spec fn sub_features_of(names: Seq<Seq<char>>) -> Seq<SubFeatureView> {
    names.map_values(|name: Seq<char>| SubFeatureView { name, kind: kind_of_name(name) })
}

/// The names that stand for features of the same dependency.
pub open spec fn normal_names() -> Set<Seq<char>> {
    Set::new(|name: Seq<char>| kind_of_name(name) == SubFeatureType::Normal)
}

/// The feature at place `i` of the declared features, switched off.
pub open spec fn declared_entry(table: NameTable<Vec<String>>, i: int) -> FeatureEntry {
    FeatureEntry {
        name: table.keys[i],
        feature: FeatureView {
            sub_features: sub_features_of(views(table.values[i]@)),
            is_default: listed_under(table, "default"@).contains(table.keys[i]),
            enabled_state: EnabledState::Normal(false),
        },
    }
}

/// The first `count` of the declared features, all switched off.
pub open spec fn declared_features(table: NameTable<Vec<String>>, count: int) -> FeatureGraph {
    FeatureGraph { entries: Seq::new(count as nat, |i: int| declared_entry(table, i)) }
}

/// The entries of a feature for the names that it is declared with.
pub fn make_sub_features(names: &Vec<String>) -> (sub_features: Vec<SubFeature>)
    ensures
        sub_features@.map_values(|sub: SubFeature| sub@) == sub_features_of(views(names@)),
{
    let mut sub_features: Vec<SubFeature> = Vec::new();
    let mut i: usize = 0;
    while i < names.len()
        invariant
            i <= names.len(),
            sub_features@.len() == i,
            forall|k: int|
                0 <= k < i ==> (#[trigger] sub_features@[k])@ == sub_features_of(views(names@))[k],
        decreases names.len() - i,
    {
        sub_features.push(SubFeature::new(names[i].as_str()));
        i += 1;
    }
    assert(sub_features@.map_values(|sub: SubFeature| sub@) =~= sub_features_of(views(names@)));
    sub_features
}

/// The names of `names` that stand for features of the same dependency.
pub fn keep_normal_names(names: &Vec<String>) -> (kept: Vec<String>)
    ensures
        views(kept@) == keep_names(views(names@), normal_names()),
{
    let ghost live = normal_names();
    let ghost stays = |name: Seq<char>| live.contains(name);
    let ghost all = views(names@);
    let mut kept: Vec<String> = Vec::new();
    let mut i: usize = 0;
    proof {
        assert(all.take(0) =~= Seq::<Seq<char>>::empty());
        Seq::<Seq<char>>::empty().lemma_filter_len(stays);
        assert(views(kept@) =~= all.take(0).filter(stays));
    }
    while i < names.len()
        invariant
            i <= names.len(),
            all == views(names@),
            live == normal_names(),
            stays == |name: Seq<char>| live.contains(name),
            views(kept@) == all.take(i as int).filter(stays),
        decreases names.len() - i,
    {
        let ghost seen = all.take(i as int);
        let ghost earlier = views(kept@);
        proof {
            assert(all.take(i + 1) =~= seen.push(all[i as int]));
            seen.lemma_filter_push(all[i as int], stays);
        }
        match SubFeatureType::from_name(names[i].as_str()) {
            SubFeatureType::Normal => {
                kept.push(names[i].clone());
                proof {
                    assert(views(kept@) =~= earlier.push(all[i as int]));
                }
            },
            _ => {},
        }
        i += 1;
    }
    proof {
        assert(all.take(names@.len() as int) =~= all);
    }
    kept
}

/// The declared features as a table of features, all switched off.
/// `package_features` holds, under the name of each feature, the names
/// that the feature is declared with; the default set is what stands
/// under `default`.
pub fn declare_features(package_features: &NameMap<Vec<String>>) -> (features: FeatureMap)
    ensures
        features@ == declared_features(
            package_features.table(),
            package_features.spec_keys().len() as int,
        ),
{
    let ghost table = package_features.table();
    let default_features = list_under(package_features, &"default".to_owned());
    let count = package_features.len();
    let mut features = FeatureMap::new();
    let mut i: usize = 0;
    proof {
        assert(features@.entries =~= declared_features(table, 0).entries);
    }
    while i < count
        invariant
            table == package_features.table(),
            package_features.wf(),
            count == table.keys.len(),
            i <= count,
            views(default_features@) == listed_under(table, "default"@),
            features@ == declared_features(table, i as int),
        decreases count - i,
    {
        let name = package_features.key_at(i);
        let names = package_features.value_at(i);
        let data = FeatureData {
            sub_features: make_sub_features(names),
            is_default: contains_name(&default_features, name),
            enabled_state: EnabledState::Normal(false),
        };
        proof {
            assert(data@ == declared_entry(table, i as int).feature);
            assert(!features@.contains(name@)) by {
                if features@.contains(name@) {
                    let k = features@.index_of(name@);
                    assert(features@.entries[k].name == table.keys[k]);
                    assert(table.keys[k] == table.keys[i as int]);
                }
            }
        }
        features.insert(name.clone(), data);
        proof {
            assert(features@.entries =~= declared_features(table, i + 1).entries);
        }
        i += 1;
    }
    features
}

/// Gives `dependency` the features that its package declares, and
/// switches on what the manifest asks for: the features of
/// `enabled_features`, then, if `uses_default_features` is set, those of
/// the default set, each with what it implies. Names that stand for an
/// optional dependency or for a feature of another crate are passed over.
///
/// Fails at the first name that the package does not declare or whose
/// cascade does not come to its end; the dependency then has the declared
/// features, and what was switched on up to then stays on.
pub fn set_features(
    dependency: &mut Dependency,
    package_features: &NameMap<Vec<String>>,
    uses_default_features: bool,
    enabled_features: &Vec<String>,
) -> (result: Result<(), Error>)
    ensures
        final(dependency).same_declaration(old(dependency)),
        declared_features(
            package_features.table(),
            package_features.spec_keys().len() as int,
        ).same_shape(final(dependency).features@),
        match declared_features(
            package_features.table(),
            package_features.spec_keys().len() as int,
        ).enable_each(keep_names(views(enabled_features@), normal_names())) {
            Some(asked) => if uses_default_features {
                match asked.enable_each(
                    keep_names(listed_under(package_features.table(), "default"@), normal_names()),
                ) {
                    Some(with_default) => result is Ok && final(dependency).features@ == with_default,
                    None => result is Err,
                }
            } else {
                result is Ok && final(dependency).features@ == asked
            },
            None => result is Err,
        },
        match result {
            Ok(_) => true,
            Err(Error::FeatureNotFound(_)) => true,
            Err(_) => false,
        },
{
    let default_features = list_under(package_features, &"default".to_owned());
    dependency.features = declare_features(package_features);
    let ghost fresh = dependency.features@;
    let asked = keep_normal_names(enabled_features);
    match dependency.enable_features(&asked) {
        Ok(_) => {},
        Err(error) => {
            return Err(error);
        },
    }
    if uses_default_features {
        let ghost between = dependency.features@;
        let defaults = keep_normal_names(&default_features);
        match dependency.enable_features(&defaults) {
            Ok(_) => {},
            Err(error) => {
                proof {
                    FeatureGraph::lemma_same_shape_trans(fresh, between, dependency.features@);
                }
                return Err(error);
            },
        }
        proof {
            FeatureGraph::lemma_same_shape_trans(fresh, between, dependency.features@);
        }
    }
    Ok(())
}

} // verus!
