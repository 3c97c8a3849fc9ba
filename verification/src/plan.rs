//! The order in which a search for needless features goes through the
//! dependencies of a project.

use vstd::prelude::*;
use crate::candidates::{is_first_package, listed_under, FeaturesMap};
use crate::document::Document;
use crate::error::Error;
use crate::markers::NameMarkers;
use crate::name_map::{NameMap, NameTable};
use crate::names::{sort_names, sorted_names, views};
use crate::package::Package;

verus! {

/// One dependency to search, with the candidates to put to the test.
#[derive(Debug)]
pub struct Task {
    /// The place of the package in the project.
    pub package: usize,
    /// The place of the dependency in the package.
    pub dependency: usize,
    pub package_name: String,
    /// The name of the dependency as it is shown.
    pub dependency_name: String,
    /// The candidates; there is at least one.
    pub features: Vec<String>,
}

/// One step of the search.
#[derive(Debug)]
pub enum Step {
    /// The search comes to the package of this name.
    Package(String),
    /// The search goes through one dependency.
    Dependency(Task),
    /// The search leaves the package it was in.
    PackageEnd,
}

/// The mathematical content of a [`Task`].
pub struct TaskView {
    pub package: int,
    pub dependency: int,
    pub package_name: Seq<char>,
    pub dependency_name: Seq<char>,
    pub features: Seq<Seq<char>>,
}

/// The mathematical content of a [`Step`].
pub enum StepView {
    Package(Seq<char>),
    Dependency(TaskView),
    PackageEnd,
}

impl View for Task {
    type V = TaskView;

    open spec fn view(&self) -> TaskView {
        TaskView {
            package: self.package as int,
            dependency: self.dependency as int,
            package_name: self.package_name@,
            dependency_name: self.dependency_name@,
            features: views(self.features@),
        }
    }
}

impl View for Step {
    type V = StepView;

    open spec fn view(&self) -> StepView {
        match self {
            Step::Package(name) => StepView::Package(name@),
            Step::Dependency(task) => StepView::Dependency(task@),
            Step::PackageEnd => StepView::PackageEnd,
        }
    }
}

/// The steps as mathematical values.
pub open spec fn step_views(steps: Seq<Step>) -> Seq<StepView> {
    steps.map_values(|step: Step| step@)
}

/// The place of the first package called `name`.
pub open spec fn package_place(packages: Seq<Package>, name: Seq<char>) -> Option<int> {
    if exists|p: int| is_first_package(packages, name, p) {
        Some(choose|p: int| is_first_package(packages, name, p))
    } else {
        None
    }
}

/// The place of the first dependency of `package` that is shown as `name`.
pub open spec fn dependency_place(package: Package, name: Seq<char>, markers: NameMarkers) -> Option<
    int,
> {
    if exists|d: int| package.is_first_named(name, markers, d) {
        Some(choose|d: int| package.is_first_named(name, markers, d))
    } else {
        None
    }
}

/// The task for the dependency that the pair of names stands for.
pub open spec fn task_for(
    packages: Seq<Package>,
    package: Seq<char>,
    dependency: Seq<char>,
    features: Seq<Seq<char>>,
    markers: NameMarkers,
) -> Option<TaskView> {
    match package_place(packages, package) {
        Some(p) => match dependency_place(packages[p], dependency, markers) {
            Some(d) => Some(
                TaskView {
                    package: p,
                    dependency: d,
                    package_name: package,
                    dependency_name: dependency,
                    features,
                },
            ),
            None => None,
        },
        None => None,
    }
}

/// The steps through the dependencies of one package, taken in the given
/// order: a task for each dependency that has candidates. There are no
/// steps if a pair of names stands for no dependency.
pub open spec fn dependency_steps(
    packages: Seq<Package>,
    package: Seq<char>,
    candidates: NameTable<Vec<String>>,
    order: Seq<Seq<char>>,
    markers: NameMarkers,
) -> Option<Seq<StepView>>
    decreases order.len(),
{
    if order.len() == 0 {
        Some(Seq::empty())
    } else {
        match dependency_steps(packages, package, candidates, order.drop_last(), markers) {
            Some(earlier) => {
                let features = listed_under(candidates, order.last());
                if features.len() == 0 {
                    Some(earlier)
                } else {
                    match task_for(packages, package, order.last(), features, markers) {
                        Some(task) => Some(earlier.push(StepView::Dependency(task))),
                        None => None,
                    }
                }
            },
            None => None,
        }
    }
}

/// The steps through the packages, taken in the given order: for each
/// package that has dependencies among the candidates, the step into the
/// package, the steps through its dependencies in the order of their
/// names, and the step out of the package.
pub open spec fn package_steps(
    packages: Seq<Package>,
    candidates: NameTable<NameMap<Vec<String>>>,
    order: Seq<Seq<char>>,
    markers: NameMarkers,
) -> Option<Seq<StepView>>
    decreases order.len(),
{
    if order.len() == 0 {
        Some(Seq::empty())
    } else {
        match package_steps(packages, candidates, order.drop_last(), markers) {
            Some(earlier) => match candidates.get(order.last()) {
                Some(inner) => if inner.spec_keys().len() == 0 {
                    Some(earlier)
                } else {
                    match dependency_steps(
                        packages,
                        order.last(),
                        inner.table(),
                        sorted_names(inner.spec_keys()),
                        markers,
                    ) {
                        Some(steps) => Some(
                            earlier.push(StepView::Package(order.last())) + steps + seq![
                                StepView::PackageEnd,
                            ],
                        ),
                        None => None,
                    }
                },
                None => Some(earlier),
            },
            None => None,
        }
    }
}

/// The steps of the search through a project: the packages in the order
/// of their names, and in each package the dependencies in the order of
/// the names under which they are shown.
pub open spec fn search_steps(
    packages: Seq<Package>,
    candidates: NameTable<NameMap<Vec<String>>>,
    markers: NameMarkers,
) -> Option<Seq<StepView>> {
    package_steps(packages, candidates, sorted_names(candidates.keys), markers)
}

proof fn lemma_package_place(packages: Seq<Package>, name: Seq<char>, p: int)
    requires
        is_first_package(packages, name, p),
    ensures
        package_place(packages, name) == Some(p),
{
    let q = choose|q: int| is_first_package(packages, name, q);
    if q < p {
        assert(packages[q].name@ != name);
    }
    if p < q {
        assert(packages[p].name@ != name);
    }
}

proof fn lemma_dependency_place(package: Package, name: Seq<char>, markers: NameMarkers, d: int)
    requires
        package.is_first_named(name, markers, d),
    ensures
        dependency_place(package, name, markers) == Some(d),
{
    let e = choose|e: int| package.is_first_named(name, markers, e);
    if e < d {
        assert(package.dependencies@[e].spec_name(markers) != name);
    }
    if d < e {
        assert(package.dependencies@[d].spec_name(markers) != name);
    }
}

/// The task for the dependency that a pair of names stands for.
pub fn make_task(
    document: &Document,
    package: &String,
    dependency: &String,
    features: &Vec<String>,
    markers: &NameMarkers,
) -> (result: Result<Task, Error>)
    ensures
        match result {
            Ok(task) => Some(task@) == task_for(
                document.spec_packages(),
                package@,
                dependency@,
                views(features@),
                *markers,
            ),
            Err(Error::PackageNotFound(name)) => name@ == package@ && package_place(
                document.spec_packages(),
                package@,
            ) is None,
            Err(Error::DependencyNotFound(name)) => name@ == dependency@ && task_for(
                document.spec_packages(),
                package@,
                dependency@,
                views(features@),
                *markers,
            ) is None,
            Err(_) => false,
        },
        result is Err <==> task_for(
            document.spec_packages(),
            package@,
            dependency@,
            views(features@),
            *markers,
        ) is None,
{
    let ghost packages = document.spec_packages();
    let p = match document.package_index(package) {
        Some(p) => p,
        None => {
            proof {
                if exists|q: int| is_first_package(packages, package@, q) {
                    let q = choose|q: int| is_first_package(packages, package@, q);
                    assert(packages[q].name@ == package@);
                }
            }
            return Err(Error::PackageNotFound(package.clone()));
        },
    };
    proof {
        lemma_package_place(packages, package@, p as int);
    }
    let found = &document.get_packages()[p];
    let d = match found.dep_index_with(dependency, markers) {
        Some(d) => d,
        None => {
            proof {
                if exists|e: int| found.is_first_named(dependency@, *markers, e) {
                    let e = choose|e: int| found.is_first_named(dependency@, *markers, e);
                    assert(found.dependencies@[e].spec_name(*markers) == dependency@);
                }
            }
            return Err(Error::DependencyNotFound(dependency.clone()));
        },
    };
    proof {
        lemma_dependency_place(*found, dependency@, *markers, d as int);
    }
    let list = features.clone();
    assert(views(list@) =~= views(features@)) by {
        assert(list@ == features@);
    }
    Ok(
        Task {
            package: p,
            dependency: d,
            package_name: package.clone(),
            dependency_name: dependency.clone(),
            features: list,
        },
    )
}

/// The steps of the search through a project.
///
/// Fails where the name of a dependency with candidates, or the name of
/// its package, stands for nothing in the project.
pub fn plan(document: &Document, candidates: &FeaturesMap, markers: &NameMarkers) -> (result: Result<
    Vec<Step>,
    Error,
>)
    ensures
        match result {
            Ok(steps) => Some(step_views(steps@)) == search_steps(
                document.spec_packages(),
                candidates.table(),
                *markers,
            ),
            Err(Error::PackageNotFound(_)) => search_steps(
                document.spec_packages(),
                candidates.table(),
                *markers,
            ) is None,
            Err(Error::DependencyNotFound(_)) => search_steps(
                document.spec_packages(),
                candidates.table(),
                *markers,
            ) is None,
            Err(_) => false,
        },
{
    let ghost packages = document.spec_packages();
    let order = sort_names(candidates.keys());
    let mut steps: Vec<Step> = Vec::new();
    let mut i: usize = 0;
    proof {
        assert(views(order@).take(0) =~= Seq::<Seq<char>>::empty());
        assert(step_views(steps@) =~= Seq::<StepView>::empty());
    }
    while i < order.len()
        invariant
            packages == document.spec_packages(),
            candidates.wf(),
            i <= order.len(),
            views(order@) == sorted_names(candidates.spec_keys()),
            Some(step_views(steps@)) == package_steps(
                packages,
                candidates.table(),
                views(order@).take(i as int),
                *markers,
            ),
        decreases order.len() - i,
    {
        let name = &order[i];
        proof {
            assert(views(order@).take(i + 1).drop_last() =~= views(order@).take(i as int));
            assert(views(order@).take(i + 1).last() == name@);
        }
        match candidates.get(name) {
            None => {},
            Some(inner) => {
                if !inner.is_empty() {
                    let ghost before = step_views(steps@);
                    steps.push(Step::Package(name.clone()));
                    assert(step_views(steps@) =~= before.push(StepView::Package(name@)));
                    let ghost entered = step_views(steps@);
                    let inner_order = sort_names(inner.keys());
                    let mut j: usize = 0;
                    proof {
                        assert(views(inner_order@).take(0) =~= Seq::<Seq<char>>::empty());
                        assert(step_views(steps@) =~= entered + Seq::<StepView>::empty());
                    }
                    while j < inner_order.len()
                        invariant
                            packages == document.spec_packages(),
                            inner.wf(),
                            i < order.len(),
                            candidates.wf(),
                            views(order@) == sorted_names(candidates.spec_keys()),
                            name@ == views(order@)[i as int],
                            views(order@).take(i + 1).drop_last() == views(order@).take(i as int),
                            views(order@).take(i + 1).last() == name@,
                            candidates.table().get(name@) == Some(*inner),
                            inner.spec_keys().len() > 0,
                            package_steps(
                                packages,
                                candidates.table(),
                                views(order@).take(i as int),
                                *markers,
                            ) is Some,
                            j <= inner_order.len(),
                            views(inner_order@) == sorted_names(inner.spec_keys()),
                            exists|taken: Seq<StepView>|
                                Some(taken) == #[trigger] dependency_steps(
                                    packages,
                                    name@,
                                    inner.table(),
                                    views(inner_order@).take(j as int),
                                    *markers,
                                ) && step_views(steps@) == entered + taken,
                        decreases inner_order.len() - j,
                    {
                        let dependency = &inner_order[j];
                        let ghost taken = dependency_steps(
                            packages,
                            name@,
                            inner.table(),
                            views(inner_order@).take(j as int),
                            *markers,
                        ).unwrap();
                        proof {
                            assert(views(inner_order@).take(j + 1).drop_last() =~= views(
                                inner_order@,
                            ).take(j as int));
                            assert(views(inner_order@).take(j + 1).last() == dependency@);
                        }
                        let features = crate::candidates::list_under(inner, dependency);
                        if features.len() > 0 {
                            match make_task(document, name, dependency, &features, markers) {
                                Ok(task) => {
                                    let ghost earlier = step_views(steps@);
                                    steps.push(Step::Dependency(task));
                                    proof {
                                        assert(step_views(steps@) =~= earlier.push(
                                            StepView::Dependency(task@),
                                        ));
                                        assert(step_views(steps@) =~= entered + taken.push(
                                            StepView::Dependency(task@),
                                        ));
                                    }
                                },
                                Err(error) => {
                                    proof {
                                        assert(dependency_steps(
                                            packages,
                                            name@,
                                            inner.table(),
                                            views(inner_order@).take(j + 1),
                                            *markers,
                                        ) is None);
                                        lemma_dependency_steps_stop(
                                            packages,
                                            name@,
                                            inner.table(),
                                            views(inner_order@),
                                            *markers,
                                            j as int,
                                        );
                                        assert(package_steps(
                                            packages,
                                            candidates.table(),
                                            views(order@).take(i + 1),
                                            *markers,
                                        ) is None);
                                        lemma_package_steps_stop(
                                            packages,
                                            candidates.table(),
                                            views(order@),
                                            *markers,
                                            i as int,
                                        );
                                    }
                                    return Err(error);
                                },
                            }
                        }
                        j += 1;
                    }
                    proof {
                        assert(views(inner_order@).take(inner_order@.len() as int) =~= views(
                            inner_order@,
                        ));
                    }
                    let ghost walked = step_views(steps@);
                    steps.push(Step::PackageEnd);
                    proof {
                        assert(step_views(steps@) =~= walked.push(StepView::PackageEnd));
                        let taken = dependency_steps(
                            packages,
                            name@,
                            inner.table(),
                            views(inner_order@),
                            *markers,
                        ).unwrap();
                        assert(step_views(steps@) =~= before.push(StepView::Package(name@)) + taken
                            + seq![StepView::PackageEnd]);
                    }
                }
            },
        }
        i += 1;
    }
    proof {
        assert(views(order@).take(order@.len() as int) =~= views(order@));
    }
    Ok(steps)
}

/// Once the steps through some dependencies cannot be had, those through
/// more dependencies cannot either.
proof fn lemma_dependency_steps_stop(
    packages: Seq<Package>,
    package: Seq<char>,
    candidates: NameTable<Vec<String>>,
    order: Seq<Seq<char>>,
    markers: NameMarkers,
    k: int,
)
    requires
        0 <= k < order.len(),
        dependency_steps(packages, package, candidates, order.take(k + 1), markers) is None,
    ensures
        dependency_steps(packages, package, candidates, order, markers) is None,
    decreases order.len() - k,
{
    if k + 1 < order.len() {
        assert(order.take(k + 2).drop_last() =~= order.take(k + 1));
        lemma_dependency_steps_stop(packages, package, candidates, order, markers, k + 1);
    } else {
        assert(order.take(k + 1) =~= order);
    }
}

/// Once the steps through some packages cannot be had, those through more
/// packages cannot either.
proof fn lemma_package_steps_stop(
    packages: Seq<Package>,
    candidates: NameTable<NameMap<Vec<String>>>,
    order: Seq<Seq<char>>,
    markers: NameMarkers,
    k: int,
)
    requires
        0 <= k < order.len(),
        package_steps(packages, candidates, order.take(k + 1), markers) is None,
    ensures
        package_steps(packages, candidates, order, markers) is None,
    decreases order.len() - k,
{
    if k + 1 < order.len() {
        assert(order.take(k + 2).drop_last() =~= order.take(k + 1));
        lemma_package_steps_stop(packages, candidates, order, markers, k + 1);
    } else {
        assert(order.take(k + 1) =~= order);
    }
}

} // verus!
