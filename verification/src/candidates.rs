//! The features that a search for needless features puts to the test.

use vstd::prelude::*;
use crate::closure::{all_but, keep_names, lemma_keep_holds, remove_feature, remove_name, without_feature};
use crate::dependency::Dependency;
use crate::document::Document;
use crate::error::Error;
use crate::graph::FeatureGraph;
use crate::markers::NameMarkers;
use crate::name_map::{NameMap, NameTable};
use crate::names::{contains_name, views};
use crate::package::Package;

verus! {

/// Lists of features by the name of a dependency.
pub type DependencyFeatures = NameMap<Vec<String>>;

/// Lists of features by the name of a package and the name, as it is
/// shown, of one of its dependencies.
pub type FeaturesMap = NameMap<NameMap<Vec<String>>>;

/// The names that a table of lists of strings holds under each name.
pub open spec fn lists_of(table: NameTable<Vec<String>>) -> NameTable<Seq<Seq<char>>> {
    NameTable { keys: table.keys, values: table.values.map_values(|list: Vec<String>| views(list@)) }
}

/// The lists that a table of tables holds under each pair of names.
pub open spec fn tables_of(table: NameTable<NameMap<Vec<String>>>) -> NameTable<
    NameTable<Seq<Seq<char>>>,
> {
    NameTable {
        keys: table.keys,
        values: table.values.map_values(|inner: NameMap<Vec<String>>| lists_of(inner.table())),
    }
}

/// Putting a list under a name and then reading the names is reading the
/// names and then putting the names of the list under the name.
pub proof fn lemma_lists_of_insert(table: NameTable<Vec<String>>, name: Seq<char>, list: Vec<String>)
    requires
        table.wf(),
    ensures
        lists_of(table.insert(name, list)) == lists_of(table).insert(name, views(list@)),
{
    let left = lists_of(table.insert(name, list));
    let right = lists_of(table).insert(name, views(list@));
    assert(left.keys =~= right.keys);
    assert(left.values =~= right.values);
}

/// Putting a table under a name and then reading the lists is reading
/// the lists and then putting the lists of the table under the name.
pub proof fn lemma_tables_of_insert(
    table: NameTable<NameMap<Vec<String>>>,
    name: Seq<char>,
    inner: NameMap<Vec<String>>,
)
    requires
        table.wf(),
    ensures
        tables_of(table.insert(name, inner)) == tables_of(table).insert(name, lists_of(inner.table())),
{
    let left = tables_of(table.insert(name, inner));
    let right = tables_of(table).insert(name, lists_of(inner.table()));
    assert(left.keys =~= right.keys);
    assert(left.values =~= right.values);
}

/// The candidates of the dependencies of one package: under the name of
/// each dependency, as it is shown with the given marks, its enabled
/// features that can be switched; dependencies without such a feature are
/// left out, and of two dependencies shown alike the later one counts.
pub open spec fn dependency_candidates(
    dependencies: Seq<Dependency>,
    markers: NameMarkers,
) -> NameTable<Seq<Seq<char>>>
    decreases dependencies.len(),
{
    if dependencies.len() == 0 {
        NameTable::empty()
    } else {
        let earlier = dependency_candidates(dependencies.drop_last(), markers);
        let last = dependencies.last();
        if last.features@.switchable_list().len() > 0 {
            earlier.insert(last.spec_name(markers), last.features@.switchable_list())
        } else {
            earlier
        }
    }
}

/// The candidates of the packages of a project: under the name of each
/// package the candidates of its dependencies; packages without a
/// candidate are left out, and of two packages of one name the later one
/// counts.
pub open spec fn package_candidates(packages: Seq<Package>, markers: NameMarkers) -> NameTable<
    NameTable<Seq<Seq<char>>>,
>
    decreases packages.len(),
{
    if packages.len() == 0 {
        NameTable::empty()
    } else {
        let earlier = package_candidates(packages.drop_last(), markers);
        let last = dependency_candidates(packages.last().dependencies@, markers);
        if last.keys.len() > 0 {
            earlier.insert(packages.last().name@, last)
        } else {
            earlier
        }
    }
}

/// The candidates of one package.
pub fn get_enabled_dependency_features(package: &Package, markers: &NameMarkers) -> (data: NameMap<
    Vec<String>,
>)
    ensures
        data.wf(),
        lists_of(data.table()) == dependency_candidates(package.dependencies@, *markers),
{
    let mut data: NameMap<Vec<String>> = NameMap::new();
    let mut d: usize = 0;
    proof {
        assert(package.dependencies@.take(0) =~= Seq::<Dependency>::empty());
        assert(lists_of(data.table()).keys =~= NameTable::<Seq<Seq<char>>>::empty().keys);
        assert(lists_of(data.table()).values =~= NameTable::<Seq<Seq<char>>>::empty().values);
    }
    while d < package.dependencies.len()
        invariant
            d <= package.dependencies.len(),
            data.wf(),
            lists_of(data.table()) == dependency_candidates(
                package.dependencies@.take(d as int),
                *markers,
            ),
        decreases package.dependencies.len() - d,
    {
        let dependency = &package.dependencies[d];
        let enabled = dependency.switchable_features();
        proof {
            assert(package.dependencies@.take(d + 1).drop_last() =~= package.dependencies@.take(d as int));
            assert(package.dependencies@.take(d + 1).last() == package.dependencies@[d as int]);
        }
        if enabled.len() > 0 {
            proof {
                lemma_lists_of_insert(data.table(), dependency.spec_name(*markers), enabled);
            }
            data.insert(dependency.name_with(markers), enabled);
        }
        d += 1;
    }
    proof {
        assert(package.dependencies@.take(package.dependencies@.len() as int) =~= package.dependencies@);
    }
    data
}

/// The candidates of a project: the enabled features of each dependency
/// that can be switched, by package and dependency.
pub fn get_enabled_features(document: &Document, markers: &NameMarkers) -> (data: FeaturesMap)
    ensures
        data.wf(),
        tables_of(data.table()) == package_candidates(document.spec_packages(), *markers),
{
    let packages = document.get_packages();
    let mut data: FeaturesMap = NameMap::new();
    let mut p: usize = 0;
    proof {
        assert(packages@.take(0) =~= Seq::<Package>::empty());
        assert(tables_of(data.table()).keys =~= NameTable::<NameTable<Seq<Seq<char>>>>::empty().keys);
        assert(tables_of(data.table()).values =~= NameTable::<NameTable<Seq<Seq<char>>>>::empty().values);
    }
    while p < packages.len()
        invariant
            p <= packages.len(),
            packages@ == document.spec_packages(),
            data.wf(),
            tables_of(data.table()) == package_candidates(packages@.take(p as int), *markers),
        decreases packages.len() - p,
    {
        let package = &packages[p];
        let package_data = get_enabled_dependency_features(package, markers);
        proof {
            assert(packages@.take(p + 1).drop_last() =~= packages@.take(p as int));
            assert(packages@.take(p + 1).last() == packages@[p as int]);
        }
        if !package_data.is_empty() {
            proof {
                lemma_tables_of_insert(data.table(), package.name@, package_data);
            }
            data.insert(package.name.clone(), package_data);
        }
        p += 1;
    }
    proof {
        assert(packages@.take(packages@.len() as int) =~= packages@);
    }
    data
}

/// The names whose removal could show in the dependencies that get built:
/// names that are no feature of the table, and features that list an
/// optional dependency or a feature of another crate.
pub open spec fn dependency_relevant(graph: FeatureGraph) -> Set<Seq<char>> {
    Set::new(
        |name: Seq<char>|
            !graph.contains(name) || graph.feature(graph.index_of(name)).has_dependency_features(),
    )
}

/// Keeps of `features` what could show in the dependencies that get built:
/// a feature of `dependency` that lists neither an optional dependency nor
/// a feature of another crate is taken out.
pub fn keep_dependency_features(dependency: &Dependency, features: &Vec<String>) -> (kept: Vec<String>)
    ensures
        views(kept@) == keep_names(views(features@), dependency_relevant(dependency.features@)),
{
    let ghost graph = dependency.features@;
    let ghost relevant = |name: Seq<char>| dependency_relevant(graph).contains(name);
    let ghost all = views(features@);
    let mut kept: Vec<String> = Vec::new();
    let mut i: usize = 0;
    proof {
        assert(all.take(0) =~= Seq::<Seq<char>>::empty());
        Seq::<Seq<char>>::empty().lemma_filter_len(relevant);
        assert(views(kept@) =~= all.take(0).filter(relevant));
    }
    while i < features.len()
        invariant
            i <= features.len(),
            graph == dependency.features@,
            all == views(features@),
            relevant == |name: Seq<char>| dependency_relevant(graph).contains(name),
            views(kept@) == all.take(i as int).filter(relevant),
        decreases features.len() - i,
    {
        let ghost seen = all.take(i as int);
        let ghost earlier = views(kept@);
        proof {
            assert(all.take(i + 1) =~= seen.push(all[i as int]));
            seen.lemma_filter_push(all[i as int], relevant);
        }
        let keep = match dependency.features.get(features[i].as_str()) {
            Some(feature) => feature.has_dependency_features(),
            None => true,
        };
        assert(keep == dependency_relevant(graph).contains(all[i as int]));
        if keep {
            kept.push(features[i].clone());
            proof {
                assert(views(kept@) =~= earlier.push(all[i as int]));
            }
        }
        i += 1;
    }
    proof {
        assert(all.take(features@.len() as int) =~= all);
    }
    kept
}

/// What is left of a list of features once each of `names` has been taken
/// out, one after the other, each with what it lists.
pub open spec fn without_features(
    graph: FeatureGraph,
    list: Seq<Seq<char>>,
    names: Seq<Seq<char>>,
) -> Seq<Seq<char>>
    decreases names.len(),
{
    if names.len() == 0 {
        list
    } else {
        without_feature(graph, without_features(graph, list, names.drop_last()), names.last())
    }
}

/// Takes each of `names` out of `features`, one after the other, each with
/// what it lists.
pub fn remove_features(names: &Vec<String>, features: &mut Vec<String>, dependency: &Dependency)
    ensures
        views(final(features)@) == without_features(
            dependency.features@,
            views(old(features)@),
            views(names@),
        ),
{
    let mut k: usize = 0;
    while k < names.len()
        invariant
            k <= names.len(),
            views(features@) == without_features(
                dependency.features@,
                views(old(features)@),
                views(names@).take(k as int),
            ),
        decreases names.len() - k,
    {
        proof {
            assert(views(names@).take(k + 1).drop_last() =~= views(names@).take(k as int));
            assert(views(names@).take(k + 1).last() == names@[k as int]@);
        }
        remove_feature(&names[k], features, dependency);
        k += 1;
    }
    proof {
        assert(views(names@).take(names@.len() as int) =~= views(names@));
    }
}

/// The candidates of a dependency with the features that are to be kept
/// taken out. The default set stands among the candidates under the name
/// `default` while the lists are applied, where the dependency uses it, so
/// that keeping `default` keeps the features of the default set; `default`
/// itself is no candidate.
pub open spec fn without_kept(
    graph: FeatureGraph,
    uses_default: bool,
    list: Seq<Seq<char>>,
    package_keeps: Seq<Seq<char>>,
    project_keeps: Seq<Seq<char>>,
) -> Seq<Seq<char>> {
    let seeded = if uses_default && !list.contains("default"@) {
        list.push("default"@)
    } else {
        list
    };
    keep_names(
        without_features(graph, without_features(graph, seeded, package_keeps), project_keeps),
        all_but("default"@),
    )
}

/// Takes out of the candidates `features` of `dependency` what the two
/// lists of features to keep name, those of the package and those of the
/// whole project, each name with what it lists.
pub fn remove_kept_features(
    dependency: &Dependency,
    features: &Vec<String>,
    package_keeps: &Vec<String>,
    project_keeps: &Vec<String>,
) -> (left: Vec<String>)
    ensures
        views(left@) == without_kept(
            dependency.features@,
            dependency.spec_can_use_default(),
            views(features@),
            views(package_keeps@),
            views(project_keeps@),
        ),
{
    let default_name = "default".to_owned();
    let mut left = features.clone();
    assert(views(left@) =~= views(features@)) by {
        assert(left@ == features@);
    }
    if dependency.can_use_default() && !contains_name(&left, &default_name) {
        let ghost before = views(left@);
        left.push(default_name.clone());
        assert(views(left@) =~= before.push("default"@));
    }
    remove_features(package_keeps, &mut left, dependency);
    remove_features(project_keeps, &mut left, dependency);
    remove_name(&mut left, &default_name);
    left
}

/// The first package called `name`, if there is one.
pub open spec fn find_package(packages: Seq<Package>, name: Seq<char>) -> Option<Package> {
    if exists|p: int| is_first_package(packages, name, p) {
        Some(packages[choose|p: int| is_first_package(packages, name, p)])
    } else {
        None
    }
}

/// The package at `p` is the first called `name`.
pub open spec fn is_first_package(packages: Seq<Package>, name: Seq<char>, p: int) -> bool {
    &&& 0 <= p < packages.len()
    &&& packages[p].name@ == name
    &&& forall|k: int| 0 <= k < p ==> (#[trigger] packages[k]).name@ != name
}

/// The first dependency of `package` that is shown as `name` with the
/// given marks, if there is one.
pub open spec fn find_dependency(package: Package, name: Seq<char>, markers: NameMarkers) -> Option<
    Dependency,
> {
    if exists|d: int| package.is_first_named(name, markers, d) {
        Some(package.dependencies@[choose|d: int| package.is_first_named(name, markers, d)])
    } else {
        None
    }
}

/// The dependency that a pair of names stands for in a project.
pub open spec fn resolve(
    packages: Seq<Package>,
    package: Seq<char>,
    dependency: Seq<char>,
    markers: NameMarkers,
) -> Option<Dependency> {
    match find_package(packages, package) {
        Some(found) => find_dependency(found, dependency, markers),
        None => None,
    }
}

/// The first package of a name is the package that the name stands for.
pub proof fn lemma_find_package(packages: Seq<Package>, name: Seq<char>, p: int)
    requires
        is_first_package(packages, name, p),
    ensures
        find_package(packages, name) == Some(packages[p]),
{
    let q = choose|q: int| is_first_package(packages, name, q);
    if q < p {
        assert(packages[q].name@ != name);
    }
    if p < q {
        assert(packages[p].name@ != name);
    }
}

/// The first dependency shown under a name is the dependency that the
/// name stands for.
pub proof fn lemma_find_dependency(package: Package, name: Seq<char>, markers: NameMarkers, d: int)
    requires
        package.is_first_named(name, markers, d),
    ensures
        find_dependency(package, name, markers) == Some(package.dependencies@[d]),
{
    let e = choose|e: int| package.is_first_named(name, markers, e);
    if e < d {
        assert(package.dependencies@[e].spec_name(markers) != name);
    }
    if d < e {
        assert(package.dependencies@[d].spec_name(markers) != name);
    }
}

/// The two ways to narrow the candidates.
#[derive(Clone, Copy, Debug, PartialEq, Eq, Structural)]
pub enum Filter {
    /// Keep what could show in the dependencies that get built.
    DependencyRelevance,
    /// Take out what the lists of features to keep name.
    Keep,
}

/// The list under `name`, or the empty list.
pub open spec fn listed_under(table: NameTable<Vec<String>>, name: Seq<char>) -> Seq<Seq<char>> {
    match table.get(name) {
        Some(list) => views(list@),
        None => Seq::empty(),
    }
}

/// The list that the table under `package` holds under `name`, or the
/// empty list.
pub open spec fn listed_under_both(
    table: NameTable<NameMap<Vec<String>>>,
    package: Seq<char>,
    name: Seq<char>,
) -> Seq<Seq<char>> {
    match table.get(package) {
        Some(inner) => listed_under(inner.table(), name),
        None => Seq::empty(),
    }
}

/// The candidates `list` of `dependency` in the package called `package`
/// after the filter.
pub open spec fn filtered(
    filter: Filter,
    dependency: Dependency,
    package: Seq<char>,
    list: Seq<Seq<char>>,
    project_keeps: NameTable<Vec<String>>,
    package_keeps: NameTable<NameMap<Vec<String>>>,
) -> Seq<Seq<char>> {
    match filter {
        Filter::DependencyRelevance => keep_names(list, dependency_relevant(dependency.features@)),
        Filter::Keep => without_kept(
            dependency.features@,
            dependency.spec_can_use_default(),
            list,
            listed_under_both(package_keeps, package, dependency.name@),
            listed_under(project_keeps, dependency.name@),
        ),
    }
}

/// The list under `name`, or the empty list.
pub fn list_under(table: &NameMap<Vec<String>>, name: &String) -> (list: Vec<String>)
    ensures
        views(list@) == listed_under(table.table(), name@),
{
    match table.get(name) {
        Some(found) => {
            let list = found.clone();
            assert(views(list@) =~= views(found@)) by {
                assert(list@ == found@);
            }
            list
        },
        None => {
            let list: Vec<String> = Vec::new();
            assert(views(list@) =~= Seq::<Seq<char>>::empty());
            list
        },
    }
}

/// The candidates of one package after the filter.
pub fn filter_package_candidates(
    package: &Package,
    candidates: &NameMap<Vec<String>>,
    markers: &NameMarkers,
    filter: Filter,
    project_keeps: &NameMap<Vec<String>>,
    package_keeps: &FeaturesMap,
    package_name: &String,
) -> (result: Result<NameMap<Vec<String>>, Error>)
    ensures
        match result {
            Ok(left) => {
                &&& left.wf()
                &&& left.spec_keys() == candidates.spec_keys()
                &&& forall|j: int|
                    0 <= j < candidates.spec_keys().len() ==> match find_dependency(
                        *package,
                        #[trigger] candidates.spec_keys()[j],
                        *markers,
                    ) {
                        Some(dependency) => views(left.spec_values()[j]@) == filtered(
                            filter,
                            dependency,
                            package_name@,
                            views(candidates.spec_values()[j]@),
                            project_keeps.table(),
                            package_keeps.table(),
                        ),
                        None => false,
                    }
            },
            Err(Error::DependencyNotFound(name)) => candidates.spec_keys().contains(name@)
                && find_dependency(*package, name@, *markers) is None,
            Err(_) => false,
        },
{
    let count = candidates.len();
    let mut left: NameMap<Vec<String>> = NameMap::new();
    let mut j: usize = 0;
    proof {
        assert(left.spec_keys() =~= candidates.spec_keys().take(0));
    }
    while j < count
        invariant
            candidates.wf(),
            count == candidates.spec_keys().len(),
            j <= count,
            left.wf(),
            left.spec_keys() == candidates.spec_keys().take(j as int),
            forall|k: int|
                0 <= k < j ==> match find_dependency(
                    *package,
                    #[trigger] candidates.spec_keys()[k],
                    *markers,
                ) {
                    Some(dependency) => views(left.spec_values()[k]@) == filtered(
                        filter,
                        dependency,
                        package_name@,
                        views(candidates.spec_values()[k]@),
                        project_keeps.table(),
                        package_keeps.table(),
                    ),
                    None => false,
                },
        decreases count - j,
    {
        let name = candidates.key_at(j);
        let features = candidates.value_at(j);
        let place = match package.dep_index_with(name, markers) {
            Some(place) => place,
            None => {
                proof {
                    assert(candidates.spec_keys()[j as int] == name@);
                    assert(find_dependency(*package, name@, *markers) is None) by {
                        if exists|d: int| package.is_first_named(name@, *markers, d) {
                            let d = choose|d: int| package.is_first_named(name@, *markers, d);
                            assert(package.dependencies@[d].spec_name(*markers) == name@);
                        }
                    }
                }
                return Err(Error::DependencyNotFound(name.clone()));
            },
        };
        let dependency = &package.dependencies[place];
        proof {
            lemma_find_dependency(*package, name@, *markers, place as int);
        }
        let kept = match filter {
            Filter::DependencyRelevance => keep_dependency_features(dependency, features),
            Filter::Keep => {
                let package_list = match package_keeps.get(package_name) {
                    Some(inner) => list_under(inner, &dependency.name),
                    None => {
                        let list: Vec<String> = Vec::new();
                        assert(views(list@) =~= Seq::<Seq<char>>::empty());
                        list
                    },
                };
                let project_list = list_under(project_keeps, &dependency.name);
                remove_kept_features(dependency, features, &package_list, &project_list)
            },
        };
        let ghost before = left;
        proof {
            let keys = candidates.spec_keys();
            assert(!keys.take(j as int).contains(keys[j as int])) by {
                if keys.take(j as int).contains(keys[j as int]) {
                    let k = choose|k: int| 0 <= k < j && keys.take(j as int)[k] == keys[j as int];
                    assert(keys[k] == keys[j as int]);
                }
            }
        }
        left.insert(name.clone(), kept);
        proof {
            let keys = candidates.spec_keys();
            assert(left.spec_keys() =~= keys.take(j + 1));
            assert forall|k: int| 0 <= k < j + 1 implies match find_dependency(
                *package,
                #[trigger] candidates.spec_keys()[k],
                *markers,
            ) {
                Some(dependency) => views(left.spec_values()[k]@) == filtered(
                    filter,
                    dependency,
                    package_name@,
                    views(candidates.spec_values()[k]@),
                    project_keeps.table(),
                    package_keeps.table(),
                ),
                None => false,
            } by {
                if k < j {
                    assert(left.spec_values()[k] == before.spec_values()[k]);
                }
            }
        }
        j += 1;
    }
    proof {
        assert(candidates.spec_keys().take(count as int) =~= candidates.spec_keys());
    }
    Ok(left)
}

/// `left` holds the candidates of `before` after the filter: under the
/// same names, for each pair of names the list of the dependency that the
/// pair stands for.
pub open spec fn is_filtered(
    before: FeaturesMap,
    left: FeaturesMap,
    packages: Seq<Package>,
    markers: NameMarkers,
    filter: Filter,
    project_keeps: NameTable<Vec<String>>,
    package_keeps: NameTable<NameMap<Vec<String>>>,
) -> bool {
    &&& left.wf()
    &&& left.spec_keys() == before.spec_keys()
    &&& forall|i: int|
        0 <= i < before.spec_keys().len() ==> (#[trigger] left.spec_values()[i]).spec_keys()
            == before.spec_values()[i].spec_keys()
    &&& forall|i: int, j: int|
        0 <= i < before.spec_keys().len() && 0 <= j < before.spec_values()[i].spec_keys().len()
            ==> match resolve(
            packages,
            before.spec_keys()[i],
            #[trigger] before.spec_values()[i].spec_keys()[j],
            markers,
        ) {
            Some(dependency) => views(left.spec_values()[i].spec_values()[j]@) == filtered(
                filter,
                dependency,
                before.spec_keys()[i],
                views(before.spec_values()[i].spec_values()[j]@),
                project_keeps,
                package_keeps,
            ),
            None => false,
        }
}

/// Some pair of names of `candidates` stands for no dependency of the
/// project, or some name for no package.
pub open spec fn has_stray_name(
    candidates: FeaturesMap,
    packages: Seq<Package>,
    markers: NameMarkers,
) -> bool {
    exists|i: int|
        0 <= i < candidates.spec_keys().len() && (find_package(
            packages,
            #[trigger] candidates.spec_keys()[i],
        ) is None || exists|j: int|
            0 <= j < candidates.spec_values()[i].spec_keys().len() && resolve(
                packages,
                candidates.spec_keys()[i],
                #[trigger] candidates.spec_values()[i].spec_keys()[j],
                markers,
            ) is None)
}

/// The candidates after the filter.
///
/// Fails where a name of `candidates` stands for no package of the
/// project, or for no dependency of its package.
pub fn filter_candidates(
    document: &Document,
    candidates: &FeaturesMap,
    markers: &NameMarkers,
    filter: Filter,
    project_keeps: &NameMap<Vec<String>>,
    package_keeps: &FeaturesMap,
) -> (result: Result<FeaturesMap, Error>)
    ensures
        match result {
            Ok(left) => is_filtered(
                *candidates,
                left,
                document.spec_packages(),
                *markers,
                filter,
                project_keeps.table(),
                package_keeps.table(),
            ),
            Err(Error::PackageNotFound(_)) => has_stray_name(
                *candidates,
                document.spec_packages(),
                *markers,
            ),
            Err(Error::DependencyNotFound(_)) => has_stray_name(
                *candidates,
                document.spec_packages(),
                *markers,
            ),
            Err(_) => false,
        },
        result is Err <==> has_stray_name(*candidates, document.spec_packages(), *markers),
{
    let ghost packages = document.spec_packages();
    let count = candidates.len();
    let mut left: FeaturesMap = NameMap::new();
    let mut i: usize = 0;
    proof {
        assert(left.spec_keys() =~= candidates.spec_keys().take(0));
    }
    while i < count
        invariant
            packages == document.spec_packages(),
            candidates.wf(),
            count == candidates.spec_keys().len(),
            i <= count,
            left.wf(),
            left.spec_keys() == candidates.spec_keys().take(i as int),
            forall|k: int|
                0 <= k < i ==> (#[trigger] left.spec_values()[k]).spec_keys()
                    == candidates.spec_values()[k].spec_keys(),
            forall|k: int|
                0 <= k < i ==> find_package(packages, #[trigger] candidates.spec_keys()[k]) is Some,
            forall|k: int, j: int|
                0 <= k < i && 0 <= j < candidates.spec_values()[k].spec_keys().len() ==> match resolve(
                    packages,
                    candidates.spec_keys()[k],
                    #[trigger] candidates.spec_values()[k].spec_keys()[j],
                    *markers,
                ) {
                    Some(dependency) => views(left.spec_values()[k].spec_values()[j]@) == filtered(
                        filter,
                        dependency,
                        candidates.spec_keys()[k],
                        views(candidates.spec_values()[k].spec_values()[j]@),
                        project_keeps.table(),
                        package_keeps.table(),
                    ),
                    None => false,
                },
        decreases count - i,
    {
        let name = candidates.key_at(i);
        let inner = candidates.value_at(i);
        let package = match document.package_index(name) {
            Some(place) => {
                proof {
                    lemma_find_package(packages, name@, place as int);
                }
                &document.get_packages()[place]
            },
            None => {
                proof {
                    assert(find_package(packages, name@) is None) by {
                        if exists|p: int| is_first_package(packages, name@, p) {
                            let p = choose|p: int| is_first_package(packages, name@, p);
                            assert(packages[p].name@ == name@);
                        }
                    }
                    assert(candidates.spec_keys()[i as int] == name@);
                    assert(has_stray_name(*candidates, packages, *markers));
                }
                return Err(Error::PackageNotFound(name.clone()));
            },
        };
        let filtered_inner = match filter_package_candidates(
            package,
            inner,
            markers,
            filter,
            project_keeps,
            package_keeps,
            name,
        ) {
            Ok(filtered_inner) => filtered_inner,
            Err(error) => {
                proof {
                    let missing = choose|missing: Seq<char>|
                        inner.spec_keys().contains(missing) && find_dependency(
                            *package,
                            missing,
                            *markers,
                        ) is None;
                    assert(match error {
                        Error::DependencyNotFound(n) => inner.spec_keys().contains(n@)
                            && find_dependency(*package, n@, *markers) is None,
                        _ => false,
                    });
                    let j = choose|j: int| 0 <= j < inner.spec_keys().len() && inner.spec_keys()[j] == missing;
                    assert(candidates.spec_keys()[i as int] == name@);
                    assert(resolve(
                        packages,
                        candidates.spec_keys()[i as int],
                        candidates.spec_values()[i as int].spec_keys()[j],
                        *markers,
                    ) is None);
                    assert(has_stray_name(*candidates, packages, *markers));
                }
                return Err(error);
            },
        };
        let ghost before = left;
        proof {
            let keys = candidates.spec_keys();
            assert(!keys.take(i as int).contains(keys[i as int])) by {
                if keys.take(i as int).contains(keys[i as int]) {
                    let k = choose|k: int| 0 <= k < i && keys.take(i as int)[k] == keys[i as int];
                    assert(keys[k] == keys[i as int]);
                }
            }
        }
        left.insert(name.clone(), filtered_inner);
        proof {
            let keys = candidates.spec_keys();
            assert(left.spec_keys() =~= keys.take(i + 1));
            assert forall|k: int| 0 <= k < i + 1 implies (#[trigger] left.spec_values()[k]).spec_keys()
                == candidates.spec_values()[k].spec_keys() by {
                if k < i {
                    assert(left.spec_values()[k] == before.spec_values()[k]);
                }
            }
            assert forall|k: int, j: int|
                0 <= k < i + 1 && 0 <= j < candidates.spec_values()[k].spec_keys().len() implies match resolve(
                packages,
                candidates.spec_keys()[k],
                #[trigger] candidates.spec_values()[k].spec_keys()[j],
                *markers,
            ) {
                Some(dependency) => views(left.spec_values()[k].spec_values()[j]@) == filtered(
                    filter,
                    dependency,
                    candidates.spec_keys()[k],
                    views(candidates.spec_values()[k].spec_values()[j]@),
                    project_keeps.table(),
                    package_keeps.table(),
                ),
                None => false,
            } by {
                if k < i {
                    assert(left.spec_values()[k] == before.spec_values()[k]);
                }
            }
        }
        i += 1;
    }
    proof {
        assert(candidates.spec_keys().take(count as int) =~= candidates.spec_keys());
        assert(!has_stray_name(*candidates, packages, *markers)) by {
            if has_stray_name(*candidates, packages, *markers) {
                let k = choose|k: int|
                    0 <= k < candidates.spec_keys().len() && (find_package(
                        packages,
                        #[trigger] candidates.spec_keys()[k],
                    ) is None || exists|j: int|
                        0 <= j < candidates.spec_values()[k].spec_keys().len() && resolve(
                            packages,
                            candidates.spec_keys()[k],
                            #[trigger] candidates.spec_values()[k].spec_keys()[j],
                            *markers,
                        ) is None);
                if find_package(packages, candidates.spec_keys()[k]) is Some {
                    let j = choose|j: int|
                        0 <= j < candidates.spec_values()[k].spec_keys().len() && resolve(
                            packages,
                            candidates.spec_keys()[k],
                            #[trigger] candidates.spec_values()[k].spec_keys()[j],
                            *markers,
                        ) is None;
                }
            }
        }
    }
    Ok(left)
}

/// Keeps of the candidates what could show in the dependencies that get
/// built. On failure the candidates are as they were.
pub fn remove_non_dependency_features(
    document: &Document,
    enabled_features: &mut FeaturesMap,
    markers: &NameMarkers,
) -> (result: Result<(), Error>)
    ensures
        result is Err <==> has_stray_name(*old(enabled_features), document.spec_packages(), *markers),
        match result {
            Ok(_) => is_filtered(
                *old(enabled_features),
                *final(enabled_features),
                document.spec_packages(),
                *markers,
                Filter::DependencyRelevance,
                NameTable::empty(),
                NameTable::empty(),
            ),
            Err(_) => *final(enabled_features) == *old(enabled_features),
        },
{
    let no_project_keeps: NameMap<Vec<String>> = NameMap::new();
    let no_package_keeps: FeaturesMap = NameMap::new();
    assert(no_project_keeps.table() =~= NameTable::<Vec<String>>::empty()) by {
        assert(no_project_keeps.spec_keys() =~= Seq::empty());
        assert(no_project_keeps.spec_values() =~= Seq::empty());
    }
    assert(no_package_keeps.table() =~= NameTable::<NameMap<Vec<String>>>::empty()) by {
        assert(no_package_keeps.spec_keys() =~= Seq::empty());
        assert(no_package_keeps.spec_values() =~= Seq::empty());
    }
    match filter_candidates(
        document,
        enabled_features,
        markers,
        Filter::DependencyRelevance,
        &no_project_keeps,
        &no_package_keeps,
    ) {
        Ok(left) => {
            *enabled_features = left;
            Ok(())
        },
        Err(error) => Err(error),
    }
}

/// Takes out of the candidates what the lists of features to keep name:
/// `base_ignored` for the whole project, by dependency, and
/// `package_ignored` for single packages, by package and dependency. On
/// failure the candidates are as they were.
pub fn remove_ignored_features(
    document: &Document,
    base_ignored: &NameMap<Vec<String>>,
    package_ignored: &FeaturesMap,
    enabled_features: &mut FeaturesMap,
    markers: &NameMarkers,
) -> (result: Result<(), Error>)
    ensures
        result is Err <==> has_stray_name(*old(enabled_features), document.spec_packages(), *markers),
        match result {
            Ok(_) => is_filtered(
                *old(enabled_features),
                *final(enabled_features),
                document.spec_packages(),
                *markers,
                Filter::Keep,
                base_ignored.table(),
                package_ignored.table(),
            ),
            Err(_) => *final(enabled_features) == *old(enabled_features),
        },
{
    match filter_candidates(
        document,
        enabled_features,
        markers,
        Filter::Keep,
        base_ignored,
        package_ignored,
    ) {
        Ok(left) => {
            *enabled_features = left;
            Ok(())
        },
        Err(error) => Err(error),
    }
}

/// `left` is what the filters leave of the enabled features `enabled` of
/// a project, with `narrowed` for what is left between the two filters.
pub open spec fn is_narrowed(
    enabled: FeaturesMap,
    narrowed: FeaturesMap,
    left: FeaturesMap,
    packages: Seq<Package>,
    only_dependency_features: bool,
    markers: NameMarkers,
    project_keeps: NameTable<Vec<String>>,
    package_keeps: NameTable<NameMap<Vec<String>>>,
) -> bool {
    &&& tables_of(enabled.table()) == package_candidates(packages, markers)
    &&& if only_dependency_features {
        is_filtered(
            enabled,
            narrowed,
            packages,
            markers,
            Filter::DependencyRelevance,
            NameTable::empty(),
            NameTable::empty(),
        )
    } else {
        narrowed == enabled
    }
    &&& is_filtered(narrowed, left, packages, markers, Filter::Keep, project_keeps, package_keeps)
}

/// `left` holds the candidates of a project that are put to the test: the
/// enabled features that can be switched, narrowed to what could show in
/// the dependencies that get built if `only_dependency_features` is set,
/// without what the lists of features to keep name.
pub open spec fn is_to_test(
    left: FeaturesMap,
    packages: Seq<Package>,
    only_dependency_features: bool,
    markers: NameMarkers,
    project_keeps: NameTable<Vec<String>>,
    package_keeps: NameTable<NameMap<Vec<String>>>,
) -> bool {
    exists|enabled: FeaturesMap, narrowed: FeaturesMap| #[trigger]
        is_narrowed(
            enabled,
            narrowed,
            left,
            packages,
            only_dependency_features,
            markers,
            project_keeps,
            package_keeps,
        )
}

/// No candidates can be had: a name among the enabled features of the
/// project stands for no package, or for no dependency of its package.
/// That happens only where two packages have one name.
pub open spec fn cannot_test(packages: Seq<Package>, markers: NameMarkers) -> bool {
    exists|enabled: FeaturesMap|
        enabled.wf() && tables_of(enabled.table()) == package_candidates(packages, markers)
            && #[trigger] has_stray_name(enabled, packages, markers)
}

/// The candidates of a project that are put to the test.
pub fn get_features_to_test(
    document: &Document,
    only_dependency_features: bool,
    base_ignored: &NameMap<Vec<String>>,
    package_ignored: &FeaturesMap,
    markers: &NameMarkers,
) -> (result: Result<FeaturesMap, Error>)
    ensures
        match result {
            Ok(left) => is_to_test(
                left,
                document.spec_packages(),
                only_dependency_features,
                *markers,
                base_ignored.table(),
                package_ignored.table(),
            ),
            Err(_) => cannot_test(document.spec_packages(), *markers),
        },
        result is Err <==> cannot_test(document.spec_packages(), *markers),
{
    let mut enabled_features = get_enabled_features(document, markers);
    let ghost enabled = enabled_features;
    if only_dependency_features {
        match remove_non_dependency_features(document, &mut enabled_features, markers) {
            Ok(_) => {},
            Err(error) => {
                proof {
                    assert(has_stray_name(enabled, document.spec_packages(), *markers));
                }
                return Err(error);
            },
        }
    }
    let ghost narrowed = enabled_features;
    match remove_ignored_features(
        document,
        base_ignored,
        package_ignored,
        &mut enabled_features,
        markers,
    ) {
        Ok(_) => {
            proof {
                assert(is_narrowed(
                    enabled,
                    narrowed,
                    enabled_features,
                    document.spec_packages(),
                    only_dependency_features,
                    *markers,
                    base_ignored.table(),
                    package_ignored.table(),
                ));
                if cannot_test(document.spec_packages(), *markers) {
                    let other = choose|other: FeaturesMap|
                        other.wf() && tables_of(other.table()) == package_candidates(
                            document.spec_packages(),
                            *markers,
                        ) && #[trigger] has_stray_name(other, document.spec_packages(), *markers);
                    lemma_same_tables_same_names(enabled, other);
                    lemma_stray_names_stay(enabled, other, document.spec_packages(), *markers);
                    if only_dependency_features {
                        lemma_stray_names_stay(narrowed, enabled, document.spec_packages(), *markers);
                    }
                }
            }
            Ok(enabled_features)
        },
        Err(error) => {
            proof {
                assert(has_stray_name(narrowed, document.spec_packages(), *markers));
                lemma_stray_names_stay(enabled, narrowed, document.spec_packages(), *markers);
            }
            Err(error)
        },
    }
}

/// Two tables that hold the same lists under the same names hold the same
/// names.
pub proof fn lemma_same_tables_same_names(first: FeaturesMap, second: FeaturesMap)
    requires
        first.wf(),
        second.wf(),
        tables_of(first.table()) == tables_of(second.table()),
    ensures
        second.spec_keys() == first.spec_keys(),
        forall|i: int|
            0 <= i < first.spec_keys().len() ==> (#[trigger] second.spec_values()[i]).spec_keys()
                == first.spec_values()[i].spec_keys(),
{
    assert(tables_of(first.table()).keys == tables_of(second.table()).keys);
    assert(tables_of(first.table()).values.len() == tables_of(second.table()).values.len());
    assert forall|i: int| 0 <= i < first.spec_keys().len() implies (#[trigger] second.spec_values()[i]).spec_keys()
        == first.spec_values()[i].spec_keys() by {
        assert(tables_of(first.table()).values[i] == lists_of(first.spec_values()[i].table()));
        assert(tables_of(second.table()).values[i] == lists_of(second.spec_values()[i].table()));
        assert(lists_of(first.spec_values()[i].table()).keys == first.spec_values()[i].spec_keys());
        assert(lists_of(second.spec_values()[i].table()).keys == second.spec_values()[i].spec_keys());
    }
}

/// Two tables with the same names have a stray name both or neither.
pub proof fn lemma_stray_names_stay(
    before: FeaturesMap,
    after: FeaturesMap,
    packages: Seq<Package>,
    markers: NameMarkers,
)
    requires
        after == before || (after.spec_keys() == before.spec_keys() && forall|i: int|
            0 <= i < before.spec_keys().len() ==> (#[trigger] after.spec_values()[i]).spec_keys()
                == before.spec_values()[i].spec_keys()),
        has_stray_name(after, packages, markers),
    ensures
        has_stray_name(before, packages, markers),
{
    let i = choose|i: int|
        0 <= i < after.spec_keys().len() && (find_package(
            packages,
            #[trigger] after.spec_keys()[i],
        ) is None || exists|j: int|
            0 <= j < after.spec_values()[i].spec_keys().len() && resolve(
                packages,
                after.spec_keys()[i],
                #[trigger] after.spec_values()[i].spec_keys()[j],
                markers,
            ) is None);
    assert(before.spec_keys()[i] == after.spec_keys()[i]);
    if find_package(packages, after.spec_keys()[i]) is Some {
        let j = choose|j: int|
            0 <= j < after.spec_values()[i].spec_keys().len() && resolve(
                packages,
                after.spec_keys()[i],
                #[trigger] after.spec_values()[i].spec_keys()[j],
                markers,
            ) is None;
        assert(after.spec_values()[i].spec_keys() == before.spec_values()[i].spec_keys());
        assert(resolve(
            packages,
            before.spec_keys()[i],
            before.spec_values()[i].spec_keys()[j],
            markers,
        ) is None);
    }
}

/// One entry of a table of features by dependency, as a manifest holds
/// it.
#[derive(Debug)]
pub struct FeatureTableEntry {
    pub dependency: String,
    /// The items of the list that stands under the name, each with its
    /// text if it is a string; nothing if it is no list what stands
    /// there.
    pub features: Option<Vec<Option<String>>>,
}

/// The texts among the items of a list.
pub open spec fn texts_of(items: Seq<Option<String>>) -> Seq<Seq<char>>
    decreases items.len(),
{
    if items.len() == 0 {
        Seq::empty()
    } else {
        match items.last() {
            Some(text) => texts_of(items.drop_last()).push(text@),
            None => texts_of(items.drop_last()),
        }
    }
}

/// The table that the entries stand for: under each name the texts of its
/// list, where each entry holds a list; of two entries of one name the
/// later one counts.
pub open spec fn feature_table(entries: Seq<FeatureTableEntry>) -> Option<NameTable<Seq<Seq<char>>>>
    decreases entries.len(),
{
    if entries.len() == 0 {
        Some(NameTable::empty())
    } else {
        match feature_table(entries.drop_last()) {
            Some(earlier) => match entries.last().features {
                Some(items) => Some(earlier.insert(entries.last().dependency@, texts_of(items@))),
                None => None,
            },
            None => None,
        }
    }
}

/// The texts among the items of a list.
pub fn texts(items: &Vec<Option<String>>) -> (texts: Vec<String>)
    ensures
        views(texts@) == texts_of(items@),
{
    let mut texts: Vec<String> = Vec::new();
    let mut i: usize = 0;
    proof {
        assert(items@.take(0) =~= Seq::<Option<String>>::empty());
        assert(views(texts@) =~= Seq::<Seq<char>>::empty());
    }
    while i < items.len()
        invariant
            i <= items.len(),
            views(texts@) == texts_of(items@.take(i as int)),
        decreases items.len() - i,
    {
        let ghost earlier = views(texts@);
        proof {
            assert(items@.take(i + 1).drop_last() =~= items@.take(i as int));
            assert(items@.take(i + 1).last() == items@[i as int]);
        }
        match &items[i] {
            Some(text) => {
                texts.push(text.clone());
                proof {
                    assert(views(texts@) =~= earlier.push(text@));
                }
            },
            None => {},
        }
        i += 1;
    }
    proof {
        assert(items@.take(items@.len() as int) =~= items@);
    }
    texts
}

/// The features that matter although no build or test shows it, by
/// dependency, as the table bundled with the tool names them.
///
/// Fails at the first entry that holds no list.
pub fn known_features(entries: &Vec<FeatureTableEntry>) -> (result: Result<NameMap<Vec<String>>, Error>)
    ensures
        match result {
            Ok(table) => table.wf() && Some(lists_of(table.table())) == feature_table(entries@),
            Err(Error::InvalidFeatureTable(name)) => feature_table(entries@) is None && exists|i: int|
                0 <= i < entries@.len() && (#[trigger] entries@[i]).features is None
                    && entries@[i].dependency@ == name@,
            Err(_) => false,
        },
{
    let mut table: NameMap<Vec<String>> = NameMap::new();
    let mut i: usize = 0;
    proof {
        assert(entries@.take(0) =~= Seq::<FeatureTableEntry>::empty());
        assert(lists_of(table.table()).keys =~= NameTable::<Seq<Seq<char>>>::empty().keys);
        assert(lists_of(table.table()).values =~= NameTable::<Seq<Seq<char>>>::empty().values);
    }
    while i < entries.len()
        invariant
            i <= entries.len(),
            table.wf(),
            Some(lists_of(table.table())) == feature_table(entries@.take(i as int)),
        decreases entries.len() - i,
    {
        proof {
            assert(entries@.take(i + 1).drop_last() =~= entries@.take(i as int));
            assert(entries@.take(i + 1).last() == entries@[i as int]);
        }
        match &entries[i].features {
            Some(items) => {
                let list = texts(items);
                proof {
                    lemma_lists_of_insert(table.table(), entries@[i as int].dependency@, list);
                }
                table.insert(entries[i].dependency.clone(), list);
            },
            None => {
                proof {
                    lemma_feature_table_stops(entries@, i as int);
                }
                return Err(Error::InvalidFeatureTable(entries[i].dependency.clone()));
            },
        }
        i += 1;
    }
    proof {
        assert(entries@.take(entries@.len() as int) =~= entries@);
    }
    Ok(table)
}

/// The features to keep, by dependency, as a manifest names them; where
/// the manifest names none, the table is empty.
///
/// Fails at the first entry that holds no list.
pub fn get_ignored_features(entries: Option<&Vec<FeatureTableEntry>>) -> (result: Result<
    NameMap<Vec<String>>,
    Error,
>)
    ensures
        match (entries, result) {
            (None, Ok(table)) => table.spec_keys().len() == 0,
            (None, Err(_)) => false,
            (Some(entries), Ok(table)) => table.wf() && Some(lists_of(table.table()))
                == feature_table(entries@),
            (Some(entries), Err(Error::InvalidFeatureTable(_))) => feature_table(entries@) is None,
            (Some(entries), Err(_)) => false,
        },
{
    match entries {
        Some(entries) => known_features(entries),
        None => Ok(NameMap::new()),
    }
}

proof fn lemma_feature_table_stops(entries: Seq<FeatureTableEntry>, k: int)
    requires
        0 <= k < entries.len(),
        feature_table(entries.take(k + 1)) is None,
    ensures
        feature_table(entries) is None,
    decreases entries.len() - k,
{
    if k + 1 < entries.len() {
        assert(entries.take(k + 2).drop_last() =~= entries.take(k + 1));
        lemma_feature_table_stops(entries, k + 1);
    } else {
        assert(entries.take(k + 1) =~= entries);
    }
}

} // verus!
